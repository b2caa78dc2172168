//! The text format: one `KEY: value` line for each field of a transaction,
//! and a blank line between two transactions.

use vstd::prelude::*;
use vstd::pervasive::unreached;
use vstd::slice::slice_subrange;
use vstd::string::StringExecFns;
use vstd::utf8::encode_utf8;
use crate::decimal::{decimal, number_field, parse_u64, u64_to_string};
use crate::error::{invalid_format, DumpError, ParseError, ParseErrorView};
use crate::fields::{
    after, field_index, field_name, field_name_str, find_field, kind_field, lemma_after_after,
    lemma_after_nothing, parse_kind, parse_status, parsed, status_field, FIELD_COUNT,
};
use crate::lines::{decode_line, line_chars, line_views, read_lines, split_lines};
use crate::types::{Transaction, TransactionView, views};
use crate::utils::{
    chars_to_string, concat, joined, lemma_encode_concat, lemma_joined_push, parse_quoted_field,
    quoted, string_chars, string_push, trim, trimmed, unquoted, wrap_with_quotes, write_str,
};

verus! {

/// No field read yet: eight empty places.
pub open spec fn no_fields() -> Seq<Option<Seq<char>>> {
    Seq::new(FIELD_COUNT as nat, |i: int| None)
}

/// Whether each of the eight fields has a value.
pub open spec fn all_present(slots: Seq<Option<Seq<char>>>) -> bool {
    forall|i: int| 0 <= i < FIELD_COUNT ==> (#[trigger] slots[i]) is Some
}

/// Whether none of the eight fields has a value.
pub open spec fn none_present(slots: Seq<Option<Seq<char>>>) -> bool {
    forall|i: int| 0 <= i < FIELD_COUNT ==> (#[trigger] slots[i]) is None
}

/// The place of the first field from `i` on that has no value, or eight.
pub open spec fn first_missing_from(slots: Seq<Option<Seq<char>>>, i: int) -> int
    decreases FIELD_COUNT - i,
{
    if i >= FIELD_COUNT {
        FIELD_COUNT as int
    } else if slots[i] is None {
        i
    } else {
        first_missing_from(slots, i + 1)
    }
}

/// The place of the first field that has no value, or eight.
pub open spec fn first_missing(slots: Seq<Option<Seq<char>>>) -> int {
    first_missing_from(slots, 0)
}

/// How many characters stand before the first colon, or in the whole line
/// where it has none.
pub open spec fn colon_index(line: Seq<char>) -> nat
    decreases line.len(),
{
    if line.len() == 0 || line[0] == ':' {
        0
    } else {
        1 + colon_index(line.drop_first())
    }
}

/// The two parts of a line around its first colon, each trimmed. A line
/// without a colon has no parts.
pub open spec fn split_field(line: Seq<char>) -> Option<(Seq<char>, Seq<char>)> {
    let k = colon_index(line) as int;
    if k >= line.len() {
        None
    } else {
        Some((trim(line.take(k)), trim(line.skip(k + 1))))
    }
}

/// The message of a key that is none of the eight field names.
pub open spec fn unknown_message(name: Seq<char>) -> Seq<char> {
    "unknown field "@ + name
}

/// The message of a key that a record holds twice.
pub open spec fn duplicate_message(name: Seq<char>) -> Seq<char> {
    "duplicate field "@ + name
}

/// The message of a record that ends before all eight fields were given.
pub open spec fn missing_message(i: int) -> Seq<char> {
    "missing field "@ + field_name(i)
}

/// The message of a line that is not a key, a colon and a value.
pub open spec fn shape_message() -> Seq<char> {
    "invalid field format"@
}

/// The fields with one more value. The key must be one of the eight field
/// names, and one that has no value yet.
pub open spec fn with_field(slots: Seq<Option<Seq<char>>>, name: Seq<char>, value: Seq<char>)
    -> Result<Seq<Option<Seq<char>>>, ParseErrorView> {
    match field_index(name) {
        None => Err(ParseErrorView::InvalidFormat(unknown_message(name))),
        Some(i) => if slots[i] is Some {
            Err(ParseErrorView::InvalidFormat(duplicate_message(name)))
        } else {
            Ok(slots.update(i, Some(value)))
        },
    }
}

/// The transaction that eight values denote. The fields are read in their
/// fixed order, and the first that cannot be read gives the error. The
/// description loses the pair of double quotes around it, if it has one.
pub open spec fn built(slots: Seq<Option<Seq<char>>>) -> Result<TransactionView, ParseErrorView> {
    match number_field(slots[0]->0) {
        Err(e) => Err(e),
        Ok(id) => match kind_field(slots[1]->0) {
            Err(e) => Err(e),
            Ok(kind) => match number_field(slots[2]->0) {
                Err(e) => Err(e),
                Ok(from_user) => match number_field(slots[3]->0) {
                    Err(e) => Err(e),
                    Ok(to_user) => match number_field(slots[4]->0) {
                        Err(e) => Err(e),
                        Ok(amount) => match number_field(slots[5]->0) {
                            Err(e) => Err(e),
                            Ok(timestamp) => match status_field(slots[6]->0) {
                                Err(e) => Err(e),
                                Ok(status) => Ok(
                                    TransactionView {
                                        id,
                                        kind,
                                        from_user,
                                        to_user,
                                        amount,
                                        timestamp,
                                        status,
                                        description: unquoted(slots[7]->0),
                                    },
                                ),
                            },
                        },
                    },
                },
            },
        },
    }
}

/// What a record gives when it ends: nothing where no field was read, a
/// transaction where all eight were, and an error otherwise.
pub open spec fn finished(slots: Seq<Option<Seq<char>>>) -> Result<
    Seq<TransactionView>,
    ParseErrorView,
> {
    if none_present(slots) {
        Ok(Seq::empty())
    } else if !all_present(slots) {
        Err(ParseErrorView::InvalidFormat(missing_message(first_missing(slots))))
    } else {
        match built(slots) {
            Err(e) => Err(e),
            Ok(tx) => Ok(seq![tx]),
        }
    }
}

/// The transactions of the lines, with `slots` holding the fields of the
/// record in hand. A blank line ends the record, and so does the end of the
/// input; any other line gives the record one more field.
pub open spec fn text_records(lines: Seq<Seq<u8>>, slots: Seq<Option<Seq<char>>>) -> Result<
    Seq<TransactionView>,
    ParseErrorView,
>
    decreases lines.len(),
{
    if lines.len() == 0 {
        finished(slots)
    } else {
        match line_chars(lines[0]) {
            Err(e) => Err(e),
            Ok(chars) => if trim(chars).len() == 0 {
                match finished(slots) {
                    Err(e) => Err(e),
                    Ok(done) => after(done, text_records(lines.drop_first(), no_fields())),
                }
            } else {
                match split_field(trim(chars)) {
                    None => Err(ParseErrorView::InvalidFormat(shape_message())),
                    Some((name, value)) => match with_field(slots, name, value) {
                        Err(e) => Err(e),
                        Ok(next) => text_records(lines.drop_first(), next),
                    },
                }
            },
        }
    }
}

/// What the bytes of a text document hold.
pub open spec fn text_decode(data: Seq<u8>) -> Result<Seq<TransactionView>, ParseErrorView> {
    text_records(split_lines(data), no_fields())
}

/// The eight values of a transaction as the text format holds them: numbers
/// in decimal notation, kind and status by name, the description as it is.
pub open spec fn text_values(tx: TransactionView) -> Seq<Option<Seq<char>>> {
    seq![
        Some(decimal(tx.id as nat)),
        Some(tx.kind.name()),
        Some(decimal(tx.from_user as nat)),
        Some(decimal(tx.to_user as nat)),
        Some(decimal(tx.amount as nat)),
        Some(decimal(tx.timestamp as nat)),
        Some(tx.status.name()),
        Some(tx.description),
    ]
}

/// The line of the field at place `i`, with its line end. The description,
/// the last field, stands between double quotes.
pub open spec fn text_line(i: int, value: Seq<char>) -> Seq<char> {
    field_name(i) + seq![':', ' '] + (if i == FIELD_COUNT - 1 {
        quoted(value)
    } else {
        value
    }) + seq!['\n']
}

/// The lines of the first `n` fields, in order.
pub open spec fn block_upto(slots: Seq<Option<Seq<char>>>, n: int) -> Seq<char>
    decreases n,
{
    if n <= 0 {
        Seq::empty()
    } else {
        block_upto(slots, n - 1) + text_line(n - 1, slots[n - 1]->0)
    }
}

/// The eight lines of a transaction.
pub open spec fn text_block(tx: TransactionView) -> Seq<char> {
    block_upto(text_values(tx), FIELD_COUNT as int)
}

/// The eight lines of each transaction.
pub open spec fn text_blocks(txs: Seq<TransactionView>) -> Seq<Seq<char>> {
    txs.map_values(|tx: TransactionView| text_block(tx))
}

/// The text of a text document: the lines of each transaction, and one blank
/// line between two transactions.
pub open spec fn text_text(txs: Seq<TransactionView>) -> Seq<char> {
    joined(text_blocks(txs), '\n')
}

/// The bytes of a text document.
pub open spec fn text_encode(txs: Seq<TransactionView>) -> Seq<u8> {
    encode_utf8(text_text(txs))
}

/// The value of each field that has one.
pub open spec fn slot_views(slots: Seq<Option<String>>) -> Seq<Option<Seq<char>>> {
    slots.map_values(
        |slot: Option<String>|
            match slot {
                Some(value) => Some(value@),
                None => None,
            },
    )
}

/// The fields of one record of the text format, as far as they were read.
pub struct TxWrapper {
    /// The value of each field, at the field's place in the fixed order.
    pub parsed_fields: [Option<String>; 8],
}

impl View for TxWrapper {
    type V = Seq<Option<Seq<char>>>;

    open spec fn view(&self) -> Seq<Option<Seq<char>>> {
        slot_views(self.parsed_fields@)
    }
}

impl TxWrapper {
    /// A record without any field.
    pub fn new() -> (r: Self)
        ensures
            r@ == no_fields(),
    {
        let r = TxWrapper { parsed_fields: [None, None, None, None, None, None, None, None] };
        assert(r@ =~= no_fields());
        r
    }

    /// The record of a transaction, with all eight fields.
    pub fn from_tx(tx: &Transaction) -> (r: Self)
        ensures
            r@ == text_values(tx@),
    {
        let fields = [
            Some(u64_to_string(tx.id)),
            Some(tx.kind.to_string()),
            Some(u64_to_string(tx.from_user)),
            Some(u64_to_string(tx.to_user)),
            Some(u64_to_string(tx.amount)),
            Some(u64_to_string(tx.timestamp)),
            Some(tx.status.to_string()),
            Some(tx.description.clone()),
        ];
        let r = TxWrapper { parsed_fields: fields };
        assert(r@ =~= text_values(tx@));
        r
    }

    /// Gives the field with the given name its value. A name that is no field
    /// name, or one that has a value already, is an error and changes nothing.
    pub fn apply_field(&mut self, name: &[char], value: &[char]) -> (r: Result<(), ParseError>)
        ensures
            match r {
                Ok(_) => with_field(old(self)@, name@, value@) == Ok::<
                    Seq<Option<Seq<char>>>,
                    ParseErrorView,
                >(final(self)@),
                Err(e) => with_field(old(self)@, name@, value@) == Err::<
                    Seq<Option<Seq<char>>>,
                    ParseErrorView,
                >(e@) && final(self)@ == old(self)@,
            },
    {
        match find_field(name) {
            None => {
                let key = chars_to_string(name);
                Err(ParseError::InvalidFormat(concat("unknown field ", key.as_str())))
            },
            Some(i) => {
                if self.parsed_fields[i].is_some() {
                    let key = chars_to_string(name);
                    return Err(ParseError::InvalidFormat(concat("duplicate field ", key.as_str())));
                }
                let text = chars_to_string(value);
                self.parsed_fields[i] = Some(text);
                assert(self@ =~= old(self)@.update(i as int, Some(value@)));
                Ok(())
            },
        }
    }

    /// Whether all eight fields have a value.
    pub fn is_valid(&self) -> (r: bool)
        ensures
            r == all_present(self@),
    {
        self.missing_field() == FIELD_COUNT
    }

    /// Whether no field has a value.
    pub fn is_empty(&self) -> (r: bool)
        ensures
            r == none_present(self@),
    {
        let mut i: usize = 0;
        while i < FIELD_COUNT
            invariant
                i <= FIELD_COUNT,
                forall|j: int| 0 <= j < i ==> (#[trigger] self@[j]) is None,
            decreases FIELD_COUNT - i,
        {
            if self.parsed_fields[i].is_some() {
                assert(self@[i as int] is Some);
                return false;
            }
            i += 1;
        }
        true
    }

    /// The place of the first field without a value, or eight.
    pub fn missing_field(&self) -> (r: usize)
        ensures
            r == first_missing(self@),
            r <= FIELD_COUNT,
            r == FIELD_COUNT <==> all_present(self@),
    {
        let mut i: usize = 0;
        while i < FIELD_COUNT
            invariant
                i <= FIELD_COUNT,
                forall|j: int| 0 <= j < i ==> (#[trigger] self@[j]) is Some,
            decreases FIELD_COUNT - i,
        {
            if self.parsed_fields[i].is_none() {
                proof {
                    lemma_first_missing(self@, 0, i as int);
                    assert(self@[i as int] is None);
                }
                return i;
            }
            i += 1;
        }
        proof {
            lemma_first_missing(self@, 0, FIELD_COUNT as int);
        }
        i
    }

    /// Whether the field at place `i` has a value.
    pub fn has(&self, i: usize) -> (r: bool)
        requires
            i < FIELD_COUNT,
        ensures
            r == self@[i as int] is Some,
    {
        self.parsed_fields[i].is_some()
    }

    /// The value of the field at place `i`.
    pub fn value(&self, i: usize) -> (r: &String)
        requires
            i < FIELD_COUNT,
            self@[i as int] is Some,
        ensures
            Some(r@) == self@[i as int],
    {
        match &self.parsed_fields[i] {
            Some(value) => value,
            None => unreached(),
        }
    }

    /// The transaction that the eight values denote.
    pub fn build(&self) -> (r: Result<Transaction, ParseError>)
        requires
            all_present(self@),
        ensures
            match r {
                Ok(tx) => built(self@) == Ok::<TransactionView, ParseErrorView>(tx@),
                Err(e) => built(self@) == Err::<TransactionView, ParseErrorView>(e@),
            },
    {
        let id = parse_u64(string_chars(self.value(0).as_str()).as_slice())?;
        let kind = parse_kind(string_chars(self.value(1).as_str()).as_slice())?;
        let from_user = parse_u64(string_chars(self.value(2).as_str()).as_slice())?;
        let to_user = parse_u64(string_chars(self.value(3).as_str()).as_slice())?;
        let amount = parse_u64(string_chars(self.value(4).as_str()).as_slice())?;
        let timestamp = parse_u64(string_chars(self.value(5).as_str()).as_slice())?;
        let status = parse_status(string_chars(self.value(6).as_str()).as_slice())?;
        let description = parse_quoted_field(string_chars(self.value(7).as_str()).as_slice());
        Ok(Transaction { id, kind, from_user, to_user, amount, timestamp, status, description })
    }
}

/// Where the fields before place `to` all have a value, the first field
/// without one is at `to` if that one has none, and after it otherwise.
pub proof fn lemma_first_missing(slots: Seq<Option<Seq<char>>>, from: int, to: int)
    requires
        0 <= from <= to <= FIELD_COUNT,
        forall|j: int| from <= j < to ==> (#[trigger] slots[j]) is Some,
    ensures
        first_missing_from(slots, from) == first_missing_from(slots, to),
    decreases to - from,
{
    if from < to {
        assert(slots[from] is Some);
        lemma_first_missing(slots, from + 1, to);
    }
}

/// Appends one line for each field of the record, in the fixed order. The
/// first field without a value ends the writing with an error; the lines of
/// the fields before it are written.
pub fn dump_txw_as_text(txw: &TxWrapper, writer: &mut Vec<u8>) -> (r: Result<(), DumpError>)
    ensures
        r is Ok <==> all_present(txw@),
        r matches Err(e) ==> e == DumpError::InternalError,
        final(writer)@ == old(writer)@ + encode_utf8(block_upto(txw@, first_missing(txw@))),
{
    let mut i: usize = 0;
    proof {
        assert(old(writer)@ + encode_utf8(block_upto(txw@, 0)) =~= old(writer)@);
    }
    while i < FIELD_COUNT
        invariant
            i <= FIELD_COUNT,
            forall|j: int| 0 <= j < i ==> (#[trigger] txw@[j]) is Some,
            writer@ == old(writer)@ + encode_utf8(block_upto(txw@, i as int)),
        decreases FIELD_COUNT - i,
    {
        if !txw.has(i) {
            proof {
                lemma_first_missing(txw@, 0, i as int);
            }
            return Err(DumpError::InternalError);
        }
        let val = txw.value(i);
        let mut line = concat(field_name_str(i), ": ");
        if i == FIELD_COUNT - 1 {
            line.append(wrap_with_quotes(val.as_str()).as_str());
        } else {
            line.append(val.as_str());
        }
        string_push(&mut line, '\n');
        proof {
            reveal_strlit(": ");
            assert(": "@ =~= seq![':', ' ']);
            assert(line@ =~= text_line(i as int, txw@[i as int]->0));
            lemma_encode_concat(block_upto(txw@, i as int), line@);
            assert(old(writer)@ + encode_utf8(block_upto(txw@, i as int)) + encode_utf8(line@)
                =~= old(writer)@ + (encode_utf8(block_upto(txw@, i as int)) + encode_utf8(line@)));
        }
        write_str(writer, line.as_str());
        i += 1;
    }
    proof {
        lemma_first_missing(txw@, 0, FIELD_COUNT as int);
    }
    Ok(())
}

/// Cuts a line at its first colon and trims both parts.
fn split_line(line: &[char]) -> (r: Option<(&[char], &[char])>)
    ensures
        match r {
            Some((name, value)) => split_field(line@) == Some((name@, value@)),
            None => split_field(line@) is None,
        },
{
    let mut k: usize = 0;
    while k < line.len() && line[k] != ':'
        invariant
            k <= line.len(),
            forall|j: int| 0 <= j < k ==> #[trigger] line@[j] != ':',
        decreases line.len() - k,
    {
        k += 1;
    }
    proof {
        lemma_colon_index_is(line@, k as int);
    }
    if k >= line.len() {
        return None;
    }
    let name = trimmed(slice_subrange(line, 0, k));
    let value = trimmed(slice_subrange(line, k + 1, line.len()));
    proof {
        assert(line@.subrange(0, k as int) =~= line@.take(k as int));
        assert(line@.subrange(k + 1, line.len() as int) =~= line@.skip(k + 1));
    }
    Some((name, value))
}

/// A run of characters without a colon, followed by a colon or by the end of
/// the line, is what stands before the first colon.
pub proof fn lemma_colon_index_is(line: Seq<char>, n: int)
    requires
        0 <= n <= line.len(),
        forall|j: int| 0 <= j < n ==> #[trigger] line[j] != ':',
        n < line.len() ==> line[n] == ':',
    ensures
        colon_index(line) == n,
    decreases line.len(),
{
    if n > 0 {
        let t = line.drop_first();
        assert(line[0] != ':');
        assert forall|j: int| 0 <= j < n - 1 implies #[trigger] t[j] != ':' by {
            assert(t[j] == line[j + 1]);
        }
        lemma_colon_index_is(t, n - 1);
    }
}

/// Ends the record in hand: nothing where it has no field, its transaction
/// where it has all eight, and an error otherwise.
fn finish_record(current: &TxWrapper) -> (r: Result<Option<Transaction>, ParseError>)
    ensures
        match r {
            Ok(None) => finished(current@) == Ok::<Seq<TransactionView>, ParseErrorView>(
                Seq::empty(),
            ),
            Ok(Some(tx)) => finished(current@) == Ok::<Seq<TransactionView>, ParseErrorView>(
                seq![tx@],
            ),
            Err(e) => finished(current@) == Err::<Seq<TransactionView>, ParseErrorView>(e@),
        },
{
    if current.is_empty() {
        return Ok(None);
    }
    let missing = current.missing_field();
    if missing < FIELD_COUNT {
        return Err(ParseError::InvalidFormat(concat("missing field ", field_name_str(missing))));
    }
    let tx = current.build()?;
    Ok(Some(tx))
}

/// Reads the records of the lines: a blank line ends a record, and so does
/// the end of the input.
fn parse_lines(lines: &Vec<Vec<u8>>) -> (r: Result<Vec<Transaction>, ParseError>)
    ensures
        parsed(r) == text_records(line_views(lines@), no_fields()),
{
    let ghost all = line_views(lines@);
    let mut result: Vec<Transaction> = Vec::new();
    let mut current_tx = TxWrapper::new();
    let mut i: usize = 0;
    proof {
        assert(all.skip(0) =~= all);
        assert(views(result@) =~= Seq::<TransactionView>::empty());
        lemma_after_nothing(text_records(all, no_fields()));
    }
    while i < lines.len()
        invariant
            i <= lines.len(),
            all == line_views(lines@),
            text_records(all, no_fields()) == after(
                views(result@),
                text_records(all.skip(i as int), current_tx@),
            ),
        decreases lines.len() - i,
    {
        proof {
            assert(all.skip(i as int)[0] == lines@[i as int]@);
            assert(all.skip(i as int).drop_first() =~= all.skip(i + 1));
        }
        let chars = decode_line(&lines[i])?;
        let line = trimmed(chars.as_slice());
        if line.len() == 0 {
            match finish_record(&current_tx)? {
                Some(tx) => {
                    proof {
                        lemma_after_after(
                            views(result@),
                            seq![tx@],
                            text_records(all.skip(i + 1), no_fields()),
                        );
                        assert(views(result@.push(tx)) =~= views(result@) + seq![tx@]);
                    }
                    result.push(tx);
                },
                None => {
                    proof {
                        lemma_after_nothing(text_records(all.skip(i + 1), no_fields()));
                    }
                },
            }
            current_tx = TxWrapper::new();
        } else {
            match split_line(line) {
                None => {
                    return Err(invalid_format("invalid field format"));
                },
                Some((name, value)) => {
                    current_tx.apply_field(name, value)?;
                },
            }
        }
        i += 1;
    }
    proof {
        assert(all.skip(i as int) =~= Seq::<Seq<u8>>::empty());
    }
    match finish_record(&current_tx)? {
        Some(tx) => {
            proof {
                assert(views(result@.push(tx)) =~= views(result@) + seq![tx@]);
            }
            result.push(tx);
        },
        None => {
            proof {
                assert(views(result@) + Seq::<TransactionView>::empty() =~= views(result@));
            }
        },
    }
    Ok(result)
}

/// Reads a text document: a run of `KEY: value` lines for each transaction,
/// with blank lines between the runs.
pub fn parse_from_text(data: &[u8]) -> (r: Result<Vec<Transaction>, ParseError>)
    ensures
        parsed(r) == text_decode(data@),
{
    let lines = read_lines(data);
    parse_lines(&lines)
}

/// Writes the transactions as a text document: what is appended to the
/// output is the UTF-8 encoding of the eight lines of each transaction, with
/// one blank line between two transactions. The call always succeeds.
pub fn dump_as_text(writer: &mut Vec<u8>, transactions: &[Transaction]) -> (r: Result<
    (),
    DumpError,
>)
    ensures
        r is Ok,
        final(writer)@ == old(writer)@ + text_encode(views(transactions@)),
{
    let ghost all = views(transactions@);
    let mut i: usize = 0;
    proof {
        assert(all.take(0) =~= Seq::<TransactionView>::empty());
        assert(text_blocks(all.take(0)) =~= Seq::<Seq<char>>::empty());
        assert(old(writer)@ + encode_utf8(text_text(all.take(0))) =~= old(writer)@);
    }
    while i < transactions.len()
        invariant
            i <= transactions.len(),
            all == views(transactions@),
            writer@ == old(writer)@ + encode_utf8(text_text(all.take(i as int))),
        decreases transactions.len() - i,
    {
        let ghost before = text_text(all.take(i as int));
        if i > 0 {
            write_str(writer, "\n");
        }
        let txw = TxWrapper::from_tx(&transactions[i]);
        proof {
            lemma_first_missing(txw@, 0, FIELD_COUNT as int);
        }
        let written = dump_txw_as_text(&txw, writer);
        proof {
            let tx = transactions@[i as int]@;
            let block = text_block(tx);
            assert(all.take(i + 1) =~= all.take(i as int).push(tx));
            assert(text_blocks(all.take(i + 1)) =~= text_blocks(all.take(i as int)).push(block));
            lemma_joined_push(text_blocks(all.take(i as int)), block, '\n');
            reveal_strlit("\n");
            assert("\n"@ =~= seq!['\n']);
            if i > 0 {
                lemma_encode_concat(before, seq!['\n']);
                lemma_encode_concat(before + seq!['\n'], block);
                assert(writer@ =~= old(writer)@ + encode_utf8(before + seq!['\n'] + block));
            } else {
                assert(before =~= Seq::<char>::empty());
                assert(writer@ =~= old(writer)@ + encode_utf8(block));
            }
        }
        i += 1;
    }
    proof {
        assert(all.take(i as int) =~= all);
    }
    Ok(())
}

} // verus!
