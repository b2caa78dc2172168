//! The CSV format: a header line with the eight field names, then one line
//! for each transaction, its fields divided by commas.

use vstd::prelude::*;
use vstd::slice::{slice_subrange, slice_to_vec};
use vstd::utf8::encode_utf8;
use crate::decimal::{decimal, number_field, parse_u64, u64_to_string};
use crate::error::{invalid_format, DumpError, ParseError, ParseErrorView};
use crate::fields::{
    after, field_name, field_name_str, field_names, field_views, kind_field, parse_kind,
    lemma_after_nothing, lemma_after_one_more, parse_status, parsed, status_field, FIELD_COUNT,
};
use crate::lines::{decode_line, line_chars, line_views, read_lines, split_lines};
use crate::types::{Transaction, TransactionView, views};
use crate::utils::{
    chars_match, chars_to_string, concat, join, joined, leading_space_count, leading_spaces,
    lemma_encode_concat, quoted, string_chars, string_push, string_views, trailing_space_count,
    trailing_spaces, trim, trimmed, wrap_with_quotes, write_str,
};

verus! {

/// The fields found so far, followed by what the rest of the line gives.
pub open spec fn with_fields(done: Seq<Seq<char>>, rest: Option<Seq<Seq<char>>>) -> Option<
    Seq<Seq<char>>,
> {
    match rest {
        Some(more) => Some(done + more),
        None => None,
    }
}

/// The field in hand while a line is cut: its characters so far, and which
/// of them stood between double quotes. The characters from place `kept_from`
/// up to place `kept_to` are kept as they are: the first and the last of them
/// stood between quotes. `kept_to` is zero as long as no character did.
pub struct Field {
    pub chars: Seq<char>,
    pub kept_from: nat,
    pub kept_to: nat,
}

impl Field {
    /// A field without any character.
    pub open spec fn empty() -> Field {
        Field { chars: Seq::empty(), kept_from: 0, kept_to: 0 }
    }

    /// The field with one more character that stood outside quotes.
    pub open spec fn with_loose(self, c: char) -> Field {
        Field { chars: self.chars.push(c), kept_from: self.kept_from, kept_to: self.kept_to }
    }

    /// The field with one more character that stood between quotes.
    pub open spec fn with_kept(self, c: char) -> Field {
        Field {
            chars: self.chars.push(c),
            kept_from: if self.kept_to == 0 {
                self.chars.len()
            } else {
                self.kept_from
            },
            kept_to: self.chars.len() + 1,
        }
    }

    /// What the field holds when it ends. White space at its start and at its
    /// end is dropped as far as it stood outside quotes; what stood between
    /// quotes, white space too, is kept as it is.
    pub open spec fn value(self) -> Seq<char> {
        if self.kept_to == 0 {
            trim(self.chars)
        } else {
            self.chars.subrange(
                leading_spaces(self.chars.take(self.kept_from as int)) as int,
                self.chars.len() - trailing_spaces(self.chars.skip(self.kept_to as int)),
            )
        }
    }
}

/// Cuts the rest of a line into fields. `field` is the field in hand, and
/// `in_quotes` says whether a double quote is open. Within quotes a comma is
/// a character like any other, and two double quotes stand for one. A quote
/// still open at the end of the line leaves no result.
pub open spec fn csv_scan(rest: Seq<char>, field: Field, in_quotes: bool) -> Option<
    Seq<Seq<char>>,
>
    decreases rest.len(),
{
    if rest.len() == 0 {
        if in_quotes {
            None
        } else {
            Some(seq![field.value()])
        }
    } else if rest[0] == '"' {
        if in_quotes && rest.len() >= 2 && rest[1] == '"' {
            csv_scan(rest.skip(2), field.with_kept('"'), true)
        } else {
            csv_scan(rest.skip(1), field, !in_quotes)
        }
    } else if rest[0] == ',' && !in_quotes {
        with_fields(seq![field.value()], csv_scan(rest.skip(1), Field::empty(), false))
    } else if in_quotes {
        csv_scan(rest.skip(1), field.with_kept(rest[0]), true)
    } else {
        csv_scan(rest.skip(1), field.with_loose(rest[0]), false)
    }
}

/// The fields of a line, or nothing where a quote is left open.
pub open spec fn csv_fields(line: Seq<char>) -> Option<Seq<Seq<char>>> {
    csv_scan(line, Field::empty(), false)
}

/// The message of a line with a quote left open.
pub open spec fn unclosed_message() -> Seq<char> {
    "unclosed quotes in CSV line"@
}

/// The message of a missing or wrong header line.
pub open spec fn header_message() -> Seq<char> {
    "invalid header"@
}

/// The message of a line with another number of fields than eight.
pub open spec fn count_message(n: nat) -> Seq<char> {
    "invalid fields count: "@ + decimal(n)
}

/// The transaction that a line of eight fields denotes. The fields are read
/// in their order, and the first that cannot be read gives the error.
pub open spec fn record_of_fields(f: Seq<Seq<char>>) -> Result<TransactionView, ParseErrorView> {
    match number_field(f[0]) {
        Err(e) => Err(e),
        Ok(id) => match kind_field(f[1]) {
            Err(e) => Err(e),
            Ok(kind) => match number_field(f[2]) {
                Err(e) => Err(e),
                Ok(from_user) => match number_field(f[3]) {
                    Err(e) => Err(e),
                    Ok(to_user) => match number_field(f[4]) {
                        Err(e) => Err(e),
                        Ok(amount) => match number_field(f[5]) {
                            Err(e) => Err(e),
                            Ok(timestamp) => match status_field(f[6]) {
                                Err(e) => Err(e),
                                Ok(status) => Ok(
                                    TransactionView {
                                        id,
                                        kind,
                                        from_user,
                                        to_user,
                                        amount,
                                        timestamp,
                                        status,
                                        description: f[7],
                                    },
                                ),
                            },
                        },
                    },
                },
            },
        },
    }
}

/// The transaction that a line denotes.
pub open spec fn csv_record(line: Seq<char>) -> Result<TransactionView, ParseErrorView> {
    match csv_fields(line) {
        None => Err(ParseErrorView::InvalidFormat(unclosed_message())),
        Some(f) => if f.len() != FIELD_COUNT {
            Err(ParseErrorView::InvalidFormat(count_message(f.len())))
        } else {
            record_of_fields(f)
        },
    }
}

/// The fields of the first line that is not blank, and how many lines were
/// read to get them.
pub open spec fn find_header(lines: Seq<Seq<u8>>) -> Result<(Seq<Seq<char>>, nat), ParseErrorView>
    decreases lines.len(),
{
    if lines.len() == 0 {
        Err(ParseErrorView::InvalidFormat(header_message()))
    } else {
        match line_chars(lines[0]) {
            Err(e) => Err(e),
            Ok(chars) => if trim(chars).len() == 0 {
                match find_header(lines.drop_first()) {
                    Err(e) => Err(e),
                    Ok((names, used)) => Ok((names, used + 1)),
                }
            } else {
                match csv_fields(trim(chars)) {
                    None => Err(ParseErrorView::InvalidFormat(unclosed_message())),
                    Some(names) => Ok((names, 1)),
                }
            },
        }
    }
}

/// The transactions of the lines after the header. Blank lines are passed
/// over; the first line that cannot be read gives the error.
pub open spec fn csv_records(lines: Seq<Seq<u8>>) -> Result<Seq<TransactionView>, ParseErrorView>
    decreases lines.len(),
{
    if lines.len() == 0 {
        Ok(Seq::empty())
    } else {
        match line_chars(lines[0]) {
            Err(e) => Err(e),
            Ok(chars) => if trim(chars).len() == 0 {
                csv_records(lines.drop_first())
            } else {
                match csv_record(trim(chars)) {
                    Err(e) => Err(e),
                    Ok(tx) => after(seq![tx], csv_records(lines.drop_first())),
                }
            },
        }
    }
}

/// What a CSV document holds: after a header line with exactly the eight
/// field names in their order, one transaction for each line that is not
/// blank.
pub open spec fn csv_document(lines: Seq<Seq<u8>>) -> Result<Seq<TransactionView>, ParseErrorView> {
    match find_header(lines) {
        Err(e) => Err(e),
        Ok((names, used)) => if names == field_names() {
            csv_records(lines.skip(used as int))
        } else {
            Err(ParseErrorView::InvalidFormat(header_message()))
        },
    }
}

/// What the bytes of a CSV document hold.
pub open spec fn csv_decode(data: Seq<u8>) -> Result<Seq<TransactionView>, ParseErrorView> {
    csv_document(split_lines(data))
}

/// The value of the field in hand, whose characters are `current`.
fn field_value(current: &Vec<char>, kept_from: usize, kept_to: usize) -> (r: Vec<char>)
    requires
        kept_to == 0 || kept_from < kept_to <= current.len(),
    ensures
        r@ == (Field {
            chars: current@,
            kept_from: kept_from as nat,
            kept_to: kept_to as nat,
        }).value(),
{
    if kept_to == 0 {
        slice_to_vec(trimmed(current.as_slice()))
    } else {
        let len = current.len();
        let before = slice_subrange(current.as_slice(), 0, kept_from);
        let behind = slice_subrange(current.as_slice(), kept_to, len);
        proof {
            assert(before@ =~= current@.take(kept_from as int));
            assert(behind@ =~= current@.skip(kept_to as int));
        }
        let start = leading_space_count(before);
        let end = len - trailing_space_count(behind);
        slice_to_vec(slice_subrange(current.as_slice(), start, end))
    }
}

/// Cuts a line into its fields. White space around a field is dropped, but
/// not what stood between double quotes.
pub fn parse_csv_line(line: &[char]) -> (r: Result<Vec<Vec<char>>, ParseError>)
    ensures
        match r {
            Ok(fields) => csv_fields(line@) == Some(field_views(fields@)),
            Err(e) => csv_fields(line@) is None && e@ == ParseErrorView::InvalidFormat(
                unclosed_message(),
            ),
        },
{
    let mut result: Vec<Vec<char>> = Vec::with_capacity(8);
    let mut current: Vec<char> = Vec::new();
    let mut kept_from: usize = 0;
    let mut kept_to: usize = 0;
    let mut in_quotes = false;
    let mut i: usize = 0;
    proof {
        assert(line@.skip(0) =~= line@);
        assert(field_views(result@) =~= Seq::<Seq<char>>::empty());
        lemma_with_no_fields(csv_fields(line@));
    }
    while i < line.len()
        invariant
            i <= line.len(),
            kept_to == 0 || kept_from < kept_to <= current.len(),
            csv_fields(line@) == with_fields(
                field_views(result@),
                csv_scan(
                    line@.skip(i as int),
                    Field { chars: current@, kept_from: kept_from as nat, kept_to: kept_to as nat },
                    in_quotes,
                ),
            ),
        decreases line.len() - i,
    {
        let c = line[i];
        proof {
            let rest = line@.skip(i as int);
            assert(rest[0] == c);
            assert(rest.skip(1) =~= line@.skip(i + 1));
            if i + 1 < line.len() {
                assert(rest[1] == line@[i + 1]);
                assert(rest.skip(2) =~= line@.skip(i + 2));
            }
        }
        if c == '"' && !(in_quotes && i + 1 < line.len() && line[i + 1] == '"') {
            in_quotes = !in_quotes;
            i += 1;
        } else if c == ',' && !in_quotes {
            let field = field_value(&current, kept_from, kept_to);
            proof {
                lemma_with_one_more(
                    field_views(result@),
                    field@,
                    csv_scan(line@.skip(i + 1), Field::empty(), false),
                );
                assert(field_views(result@.push(field)) =~= field_views(result@).push(field@));
            }
            result.push(field);
            current = Vec::new();
            kept_from = 0;
            kept_to = 0;
            i += 1;
        } else {
            if in_quotes {
                if kept_to == 0 {
                    kept_from = current.len();
                }
                current.push(c);
                kept_to = current.len();
            } else {
                current.push(c);
            }
            i += if c == '"' { 2 } else { 1 };
        }
    }
    proof {
        assert(line@.skip(i as int) =~= Seq::<char>::empty());
    }
    if in_quotes {
        return Err(invalid_format("unclosed quotes in CSV line"));
    }
    let field = field_value(&current, kept_from, kept_to);
    proof {
        assert(field_views(result@.push(field)) =~= field_views(result@) + seq![field@]);
    }
    result.push(field);
    Ok(result)
}

proof fn lemma_with_no_fields(rest: Option<Seq<Seq<char>>>)
    ensures
        with_fields(Seq::empty(), rest) == rest,
{
    if let Some(more) = rest {
        assert(Seq::<Seq<char>>::empty() + more =~= more);
    }
}

proof fn lemma_with_one_more(done: Seq<Seq<char>>, field: Seq<char>, rest: Option<Seq<Seq<char>>>)
    ensures
        with_fields(done, with_fields(seq![field], rest)) == with_fields(done.push(field), rest),
{
    if let Some(more) = rest {
        assert(done + (seq![field] + more) =~= done.push(field) + more);
    }
}

/// Reads the transaction that a line denotes.
pub fn parse_transaction(tx: &[char]) -> (r: Result<Transaction, ParseError>)
    ensures
        match r {
            Ok(t) => csv_record(tx@) == Ok::<TransactionView, ParseErrorView>(t@),
            Err(e) => csv_record(tx@) == Err::<TransactionView, ParseErrorView>(e@),
        },
{
    let values = parse_csv_line(tx)?;
    if values.len() != FIELD_COUNT {
        let count = u64_to_string(values.len() as u64);
        let msg = concat("invalid fields count: ", count.as_str());
        return Err(ParseError::InvalidFormat(msg));
    }
    proof {
        let f = field_views(values@);
        assert(values@[0]@ == f[0] && values@[1]@ == f[1] && values@[2]@ == f[2] && values@[3]@
            == f[3] && values@[4]@ == f[4] && values@[5]@ == f[5] && values@[6]@ == f[6]
            && values@[7]@ == f[7]);
    }
    let id = parse_u64(values[0].as_slice())?;
    let kind = parse_kind(values[1].as_slice())?;
    let from_user = parse_u64(values[2].as_slice())?;
    let to_user = parse_u64(values[3].as_slice())?;
    let amount = parse_u64(values[4].as_slice())?;
    let timestamp = parse_u64(values[5].as_slice())?;
    let status = parse_status(values[6].as_slice())?;
    let description = chars_to_string(values[7].as_slice());
    Ok(Transaction { id, kind, from_user, to_user, amount, timestamp, status, description })
}

/// Reads the fields of the first line that is not blank. The second part of
/// the result is the place of the line after it.
fn parse_header(lines: &Vec<Vec<u8>>) -> (r: Result<(Vec<Vec<char>>, usize), ParseError>)
    ensures
        match r {
            Ok((names, next)) => next <= lines.len() && find_header(line_views(lines@)) == Ok::<
                (Seq<Seq<char>>, nat),
                ParseErrorView,
            >((field_views(names@), next as nat)),
            Err(e) => find_header(line_views(lines@)) == Err::<
                (Seq<Seq<char>>, nat),
                ParseErrorView,
            >(e@),
        },
{
    let ghost all = line_views(lines@);
    let mut i: usize = 0;
    proof {
        assert(all.skip(0) =~= all);
    }
    while i < lines.len()
        invariant
            i <= lines.len(),
            all == line_views(lines@),
            find_header(all) == header_after(i as nat, find_header(all.skip(i as int))),
        decreases lines.len() - i,
    {
        proof {
            assert(all.skip(i as int)[0] == lines@[i as int]@);
            assert(all.skip(i as int).drop_first() =~= all.skip(i + 1));
        }
        let line = decode_line(&lines[i])?;
        let trimmed_line = trimmed(line.as_slice());
        if trimmed_line.len() != 0 {
            let names = parse_csv_line(trimmed_line)?;
            return Ok((names, i + 1));
        }
        i += 1;
    }
    proof {
        assert(all.skip(i as int) =~= Seq::<Seq<u8>>::empty());
    }
    Err(invalid_format("invalid header"))
}

/// What the lines from some place on give as their header, counted from the
/// first line.
pub open spec fn header_after(
    skipped: nat,
    rest: Result<(Seq<Seq<char>>, nat), ParseErrorView>,
) -> Result<(Seq<Seq<char>>, nat), ParseErrorView> {
    match rest {
        Err(e) => Err(e),
        Ok((names, used)) => Ok((names, used + skipped)),
    }
}

/// Whether the fields are exactly the eight field names in their order.
fn header_is_valid(header: &Vec<Vec<char>>) -> (r: bool)
    ensures
        r == (field_views(header@) == field_names()),
{
    if header.len() != FIELD_COUNT {
        assert(field_views(header@).len() != field_names().len());
        return false;
    }
    let mut i: usize = 0;
    while i < FIELD_COUNT
        invariant
            i <= FIELD_COUNT,
            header.len() == FIELD_COUNT,
            forall|j: int| 0 <= j < i ==> header@[j]@ == field_name(j),
        decreases FIELD_COUNT - i,
    {
        if !chars_match(header[i].as_slice(), field_name_str(i)) {
            assert(field_views(header@)[i as int] != field_names()[i as int]);
            return false;
        }
        i += 1;
    }
    assert(field_views(header@) =~= field_names());
    true
}

/// Reads one transaction from each line that is not blank, from the line at
/// `start` on.
fn parse_transactions(lines: &Vec<Vec<u8>>, start: usize) -> (r: Result<
    Vec<Transaction>,
    ParseError,
>)
    requires
        start <= lines.len(),
    ensures
        parsed(r) == csv_records(line_views(lines@).skip(start as int)),
{
    let ghost all = line_views(lines@);
    let mut result: Vec<Transaction> = Vec::new();
    let mut i: usize = start;
    proof {
        assert(views(result@) =~= Seq::<TransactionView>::empty());
        lemma_after_nothing(csv_records(all.skip(start as int)));
    }
    while i < lines.len()
        invariant
            start <= i <= lines.len(),
            all == line_views(lines@),
            csv_records(all.skip(start as int)) == after(
                views(result@),
                csv_records(all.skip(i as int)),
            ),
        decreases lines.len() - i,
    {
        proof {
            assert(all.skip(i as int)[0] == lines@[i as int]@);
            assert(all.skip(i as int).drop_first() =~= all.skip(i + 1));
        }
        let line = decode_line(&lines[i])?;
        let trimmed_line = trimmed(line.as_slice());
        if trimmed_line.len() != 0 {
            let tx = parse_transaction(trimmed_line)?;
            proof {
                lemma_after_one_more(views(result@), tx@, csv_records(all.skip(i + 1)));
                assert(views(result@.push(tx)) =~= views(result@).push(tx@));
            }
            result.push(tx);
        }
        i += 1;
    }
    proof {
        assert(all.skip(i as int) =~= Seq::<Seq<u8>>::empty());
        assert(views(result@) + Seq::<TransactionView>::empty() =~= views(result@));
    }
    Ok(result)
}

/// Reads a CSV document: the header line, then one transaction for each line
/// that is not blank.
pub fn parse_from_csv(data: &[u8]) -> (r: Result<Vec<Transaction>, ParseError>)
    ensures
        parsed(r) == csv_decode(data@),
{
    let lines = read_lines(data);
    let (header, next) = parse_header(&lines)?;
    if !header_is_valid(&header) {
        return Err(invalid_format("invalid header"));
    }
    parse_transactions(&lines, next)
}

/// The value with each double quote written twice.
pub open spec fn escaped(s: Seq<char>) -> Seq<char>
    decreases s.len(),
{
    if s.len() == 0 {
        Seq::empty()
    } else if s[0] == '"' {
        seq!['"', '"'] + escaped(s.drop_first())
    } else {
        seq![s[0]] + escaped(s.drop_first())
    }
}

/// The eight fields of a transaction as the CSV format writes them: numbers
/// in decimal notation, kind and status by name, and the description between
/// double quotes with each of its own double quotes written twice.
pub open spec fn csv_values(tx: TransactionView) -> Seq<Seq<char>> {
    seq![
        decimal(tx.id as nat),
        tx.kind.name(),
        decimal(tx.from_user as nat),
        decimal(tx.to_user as nat),
        decimal(tx.amount as nat),
        decimal(tx.timestamp as nat),
        tx.status.name(),
        quoted(escaped(tx.description)),
    ]
}

/// The line of a transaction, with its line end.
pub open spec fn csv_line(tx: TransactionView) -> Seq<char> {
    joined(csv_values(tx), ',') + seq!['\n']
}

/// The header line, with its line end.
pub open spec fn csv_title() -> Seq<char> {
    joined(field_names(), ',') + seq!['\n']
}

/// The lines of the transactions, in order.
pub open spec fn csv_lines(txs: Seq<TransactionView>) -> Seq<char>
    decreases txs.len(),
{
    if txs.len() == 0 {
        Seq::empty()
    } else {
        csv_line(txs[0]) + csv_lines(txs.drop_first())
    }
}

/// The text of a CSV document: the header line, then the line of each
/// transaction.
pub open spec fn csv_text(txs: Seq<TransactionView>) -> Seq<char> {
    csv_title() + csv_lines(txs)
}

/// The bytes of a CSV document.
pub open spec fn csv_encode(txs: Seq<TransactionView>) -> Seq<u8> {
    encode_utf8(csv_text(txs))
}

pub proof fn lemma_csv_lines_push(txs: Seq<TransactionView>, tx: TransactionView)
    ensures
        csv_lines(txs.push(tx)) == csv_lines(txs) + csv_line(tx),
    decreases txs.len(),
{
    let all = txs.push(tx);
    if txs.len() == 0 {
        assert(all.drop_first() =~= txs);
        assert(csv_lines(all) =~= csv_lines(txs) + csv_line(tx));
    } else {
        assert(all.drop_first() =~= txs.drop_first().push(tx));
        lemma_csv_lines_push(txs.drop_first(), tx);
        assert(csv_lines(all) =~= csv_lines(txs) + csv_line(tx));
    }
}

/// Writes each double quote of the value twice.
pub fn make_escaped_string(input: &str) -> (r: String)
    ensures
        r@ == escaped(input@),
{
    let chars = string_chars(input);
    let mut out = String::new();
    let mut i: usize = 0;
    proof {
        assert(chars@.skip(0) =~= chars@);
        assert(out@ + escaped(chars@) =~= escaped(chars@));
    }
    while i < chars.len()
        invariant
            i <= chars.len(),
            chars@ == input@,
            escaped(input@) == out@ + escaped(chars@.skip(i as int)),
        decreases chars.len() - i,
    {
        let c = chars[i];
        let ghost before = out@;
        proof {
            assert(chars@.skip(i as int)[0] == c);
            assert(chars@.skip(i as int).drop_first() =~= chars@.skip(i + 1));
        }
        if c == '"' {
            string_push(&mut out, '"');
        }
        string_push(&mut out, c);
        proof {
            let tail = escaped(chars@.skip(i + 1));
            if c == '"' {
                assert(before + (seq!['"', '"'] + tail) =~= before.push('"').push('"') + tail);
            } else {
                assert(before + (seq![c] + tail) =~= before.push(c) + tail);
            }
        }
        i += 1;
    }
    proof {
        assert(chars@.skip(i as int) =~= Seq::<char>::empty());
        assert(out@ + Seq::<char>::empty() =~= out@);
    }
    out
}

/// Appends the header line to the output.
fn write_title(writer: &mut Vec<u8>)
    ensures
        final(writer)@ == old(writer)@ + encode_utf8(csv_title()),
{
    let mut names: Vec<String> = Vec::new();
    let mut i: usize = 0;
    while i < FIELD_COUNT
        invariant
            i <= FIELD_COUNT,
            names.len() == i,
            forall|j: int| 0 <= j < i ==> names@[j]@ == field_name(j),
        decreases FIELD_COUNT - i,
    {
        names.push(field_name_str(i).to_owned());
        i += 1;
    }
    assert(string_views(names@) =~= field_names());
    let mut title = join(&names, ',');
    string_push(&mut title, '\n');
    assert(title@ =~= csv_title());
    write_str(writer, title.as_str());
}

/// Appends the line of one transaction to the output.
fn write_tx(writer: &mut Vec<u8>, tx: &Transaction)
    ensures
        final(writer)@ == old(writer)@ + encode_utf8(csv_line(tx@)),
{
    let mut values: Vec<String> = Vec::new();
    values.push(u64_to_string(tx.id));
    values.push(tx.kind.to_string());
    values.push(u64_to_string(tx.from_user));
    values.push(u64_to_string(tx.to_user));
    values.push(u64_to_string(tx.amount));
    values.push(u64_to_string(tx.timestamp));
    values.push(tx.status.to_string());
    values.push(wrap_with_quotes(make_escaped_string(tx.description.as_str()).as_str()));
    assert(string_views(values@) =~= csv_values(tx@));
    let mut line = join(&values, ',');
    string_push(&mut line, '\n');
    assert(line@ =~= csv_line(tx@));
    write_str(writer, line.as_str());
}

/// Writes the transactions as a CSV document: what is appended to the output
/// is the UTF-8 encoding of the header line and of one line for each
/// transaction. The call always succeeds.
pub fn dump_as_csv(writer: &mut Vec<u8>, transactions: &[Transaction]) -> (r: Result<
    (),
    DumpError,
>)
    ensures
        r is Ok,
        final(writer)@ == old(writer)@ + csv_encode(views(transactions@)),
{
    let ghost all = views(transactions@);
    write_title(writer);
    let mut i: usize = 0;
    proof {
        assert(all.take(0) =~= Seq::<TransactionView>::empty());
        assert(csv_title() + csv_lines(all.take(0)) =~= csv_title());
    }
    while i < transactions.len()
        invariant
            i <= transactions.len(),
            all == views(transactions@),
            writer@ == old(writer)@ + encode_utf8(csv_text(all.take(i as int))),
        decreases transactions.len() - i,
    {
        let ghost before = writer@;
        write_tx(writer, &transactions[i]);
        proof {
            let done = all.take(i as int);
            let tx = transactions@[i as int]@;
            assert(all.take(i + 1) =~= done.push(tx));
            lemma_csv_lines_push(done, tx);
            assert(csv_text(done.push(tx)) =~= csv_text(done) + csv_line(tx));
            lemma_encode_concat(csv_text(done), csv_line(tx));
            assert(old(writer)@ + encode_utf8(csv_text(done)) + encode_utf8(csv_line(tx))
                =~= old(writer)@ + (encode_utf8(csv_text(done)) + encode_utf8(csv_line(tx))));
        }
        i += 1;
    }
    proof {
        assert(all.take(i as int) =~= all);
    }
    Ok(())
}

} // verus!
