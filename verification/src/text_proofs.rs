//! What holds of the text format: that unknown and repeated keys are
//! refused, and that reading what was written gives the transactions back.

use vstd::prelude::*;
use vstd::utf8::encode_utf8;
use crate::error::ParseErrorView;
use crate::fields::{
    field_index, field_name, is_word, lemma_decimal_word, lemma_enum_names, lemma_field_names,
    lemma_word, FIELD_COUNT,
};
use crate::lines::{lemma_split_first_line, line_chars, one_line, split_lines};
use crate::text_format::{
    all_present, block_upto, built, duplicate_message, finished, lemma_colon_index_is, no_fields,
    none_present, split_field, text_block, text_blocks, text_decode, text_encode, text_records,
    text_text, text_values, unknown_message,
};
use crate::types::TransactionView;
use crate::utils::{
    is_space, lemma_leading_spaces_is, lemma_trailing_spaces_is, lemma_trim_fixed, quoted, trim,
    trim_start, unquoted,
};

verus! {

/// What a line shows of a value: the description between double quotes, any
/// other value as it is.
pub open spec fn shown(i: int, value: Seq<char>) -> Seq<char> {
    if i == FIELD_COUNT - 1 {
        quoted(value)
    } else {
        value
    }
}

/// The line of a field, without its line end.
pub open spec fn text_row(i: int, value: Seq<char>) -> Seq<char> {
    field_name(i) + seq![':', ' '] + shown(i, value)
}

/// Whether a text is not empty, neither begins nor ends with white space,
/// and holds no line end.
pub open spec fn tidy(s: Seq<char>) -> bool {
    s.len() > 0 && !is_space(s[0]) && !is_space(s.last()) && one_line(s)
}

/// The line of a field is one line that trimming leaves as it is, and its
/// two parts are the field's name and the value as it is shown.
pub proof fn lemma_text_row(i: int, value: Seq<char>)
    requires
        0 <= i < FIELD_COUNT,
        tidy(shown(i, value)),
    ensures
        one_line(text_row(i, value)),
        trim(text_row(i, value)) == text_row(i, value),
        text_row(i, value).len() > 0,
        split_field(text_row(i, value)) == Some((field_name(i), shown(i, value))),
{
    let name = field_name(i);
    let s = shown(i, value);
    let row = text_row(i, value);
    lemma_field_names();
    lemma_word(name);
    let k = name.len() as int;
    assert forall|j: int| 0 <= j < k implies #[trigger] row[j] != ':' by {
        assert(row[j] == name[j]);
    }
    assert(row[k] == ':');
    lemma_colon_index_is(row, k);
    assert(row.take(k) =~= name);
    let value_part = row.skip(k + 1);
    assert(value_part =~= seq![' '] + s);
    assert(is_space(' '));
    assert(value_part[1] == s[0]);
    lemma_leading_spaces_is(value_part, 1);
    assert(trim_start(value_part) =~= s);
    lemma_trim_fixed(s);
    lemma_trailing_spaces_is(s, 0);
    assert(trim(value_part) == s);
    assert forall|j: int| 0 <= j < row.len() implies #[trigger] row[j] != '\n' by {
        if j < k {
            assert(row[j] == name[j]);
        } else if j >= k + 2 {
            assert(row[j] == s[j - k - 2]);
        }
    }
    assert(row[0] == name[0]);
    assert(row.last() == s.last());
    lemma_trim_fixed(row);
}

/// The values of a transaction as they are read back from its lines: the
/// description still between its double quotes.
pub open spec fn stored(tx: TransactionView) -> Seq<Option<Seq<char>>> {
    Seq::new(
        FIELD_COUNT as nat,
        |i: int| Some(shown(i, text_values(tx)[i]->0)),
    )
}

/// The values of the first `k` fields of a transaction, as read back.
pub open spec fn partial(tx: TransactionView, k: int) -> Seq<Option<Seq<char>>> {
    Seq::new(
        FIELD_COUNT as nat,
        |i: int|
            if i < k {
                stored(tx)[i]
            } else {
                None
            },
    )
}

/// The lines of the fields from place `k` on.
pub open spec fn rows_from(tx: TransactionView, k: int) -> Seq<char>
    decreases FIELD_COUNT - k,
{
    if k >= FIELD_COUNT {
        Seq::empty()
    } else {
        text_row(k, text_values(tx)[k]->0) + seq!['\n'] + rows_from(tx, k + 1)
    }
}

/// Each value of a transaction, as a line shows it, is tidy, as long as the
/// description is one line.
pub proof fn lemma_values_tidy(tx: TransactionView)
    requires
        one_line(tx.description),
    ensures
        forall|i: int| 0 <= i < FIELD_COUNT ==> tidy(#[trigger] shown(i, text_values(tx)[i]->0)),
{
    lemma_decimal_word(tx.id);
    lemma_decimal_word(tx.from_user);
    lemma_decimal_word(tx.to_user);
    lemma_decimal_word(tx.amount);
    lemma_decimal_word(tx.timestamp);
    lemma_enum_names(tx.kind, tx.status);
    let values = text_values(tx);
    assert forall|i: int| 0 <= i < FIELD_COUNT implies tidy(#[trigger] shown(i, values[i]->0)) by {
        if i < 7 {
            assert(is_word(values[i]->0));
            lemma_word(values[i]->0);
        } else {
            let q = quoted(tx.description);
            assert(q[0] == '"' && q.last() == '"');
            assert forall|j: int| 0 <= j < q.len() implies #[trigger] q[j] != '\n' by {
                if 0 < j < q.len() - 1 {
                    assert(q[j] == tx.description[j - 1]);
                }
            }
        }
    }
}

/// The eight values that were read back denote the transaction.
pub proof fn lemma_finished_stored(tx: TransactionView)
    ensures
        finished(stored(tx)) == Ok::<Seq<TransactionView>, ParseErrorView>(seq![tx]),
{
    let slots = stored(tx);
    lemma_decimal_word(tx.id);
    lemma_decimal_word(tx.from_user);
    lemma_decimal_word(tx.to_user);
    lemma_decimal_word(tx.amount);
    lemma_decimal_word(tx.timestamp);
    lemma_enum_names(tx.kind, tx.status);
    assert(slots[0] is Some);
    assert(!none_present(slots));
    assert(all_present(slots));
    let q = quoted(tx.description);
    assert(slots[7]->0 == q);
    assert(q[0] == '"' && q.last() == '"');
    lemma_trim_fixed(q);
    assert(q.subrange(1, q.len() - 1) =~= tx.description);
    assert(unquoted(q) == tx.description);
    assert(built(slots) == Ok::<TransactionView, ParseErrorView>(tx));
}

/// Reading the lines of a transaction's fields from place `k` on, with the
/// fields before `k` read already, leaves all eight read.
pub proof fn lemma_rows_round_trip(tx: TransactionView, k: int, rest: Seq<char>)
    requires
        0 <= k <= FIELD_COUNT,
        one_line(tx.description),
    ensures
        text_records(split_lines(encode_utf8(rows_from(tx, k) + rest)), partial(tx, k))
            == text_records(split_lines(encode_utf8(rest)), stored(tx)),
    decreases FIELD_COUNT - k,
{
    if k >= FIELD_COUNT {
        assert(rows_from(tx, k) + rest =~= rest);
        assert(partial(tx, k) =~= stored(tx));
    } else {
        let value = text_values(tx)[k]->0;
        let row = text_row(k, value);
        let then = rows_from(tx, k + 1) + rest;
        lemma_values_tidy(tx);
        assert(tidy(shown(k, value)));
        lemma_text_row(k, value);
        lemma_field_names();
        lemma_split_first_line(row, then);
        assert(rows_from(tx, k) + rest =~= row + seq!['\n'] + then);
        let lines = split_lines(encode_utf8(rows_from(tx, k) + rest));
        assert(lines[0] == encode_utf8(row));
        assert(lines.drop_first() =~= split_lines(encode_utf8(then)));
        let slots = partial(tx, k);
        assert(field_index(field_name(k)) == Some(k));
        assert(slots[k] is None);
        assert(slots.update(k, Some(shown(k, value))) =~= partial(tx, k + 1));
        lemma_rows_round_trip(tx, k + 1, rest);
    }
}

/// The eight lines of a transaction are the lines of its fields from the
/// first on.
pub proof fn lemma_block_rows(tx: TransactionView)
    ensures
        text_block(tx) == rows_from(tx, 0),
{
    reveal_with_fuel(block_upto, 9);
    reveal_with_fuel(rows_from, 9);
    assert(text_block(tx) =~= rows_from(tx, 0));
}

/// Reading a text document that was written from transactions gives the
/// transactions back, in their order and with every field as it was, as long
/// as each description is one line. Commas, quotes, colons and white space in
/// a description come back as they were.
pub proof fn lemma_text_round_trip(txs: Seq<TransactionView>)
    requires
        forall|i: int| 0 <= i < txs.len() ==> one_line(#[trigger] txs[i].description),
    ensures
        text_decode(text_encode(txs)) == Ok::<Seq<TransactionView>, ParseErrorView>(txs),
    decreases txs.len(),
{
    let blocks = text_blocks(txs);
    if txs.len() == 0 {
        assert(txs =~= Seq::<TransactionView>::empty());
        assert(encode_utf8(text_text(txs)) =~= Seq::<u8>::empty());
        assert(none_present(no_fields()));
    } else {
        let tx = txs[0];
        let rest = txs.drop_first();
        assert(one_line(tx.description));
        lemma_block_rows(tx);
        lemma_finished_stored(tx);
        assert(no_fields() =~= partial(tx, 0));
        assert(blocks[0] == text_block(tx));
        if txs.len() == 1 {
            assert(rest =~= Seq::<TransactionView>::empty());
            assert(text_text(txs) =~= rows_from(tx, 0) + Seq::<char>::empty());
            lemma_rows_round_trip(tx, 0, Seq::empty());
            assert(encode_utf8(Seq::<char>::empty()) =~= Seq::<u8>::empty());
            assert(seq![tx] =~= txs);
        } else {
            assert forall|i: int| 0 <= i < rest.len() implies one_line(
                #[trigger] rest[i].description,
            ) by {
                assert(rest[i] == txs[i + 1]);
            }
            lemma_text_round_trip(rest);
            let more = text_text(rest);
            assert(blocks.drop_first() =~= text_blocks(rest));
            assert(text_text(txs) =~= rows_from(tx, 0) + (seq!['\n'] + more));
            lemma_rows_round_trip(tx, 0, seq!['\n'] + more);
            let blank = Seq::<char>::empty();
            lemma_split_first_line(blank, more);
            assert(blank + seq!['\n'] + more =~= seq!['\n'] + more);
            let lines = split_lines(encode_utf8(seq!['\n'] + more));
            assert(lines[0] == encode_utf8(blank));
            assert(lines.drop_first() =~= split_lines(encode_utf8(more)));
            assert(trim(blank).len() == 0) by {
                lemma_trim_fixed(blank);
            }
            assert(seq![tx] + rest =~= txs);
        }
    }
}

/// A line whose key is none of the eight field names is a format violation,
/// whatever was read before it and whatever follows.
pub proof fn lemma_text_unknown_key(
    lines: Seq<Seq<u8>>,
    slots: Seq<Option<Seq<char>>>,
    chars: Seq<char>,
    name: Seq<char>,
    value: Seq<char>,
)
    requires
        lines.len() > 0,
        line_chars(lines[0]) == Ok::<Seq<char>, ParseErrorView>(chars),
        trim(chars).len() > 0,
        split_field(trim(chars)) == Some((name, value)),
        field_index(name) is None,
    ensures
        text_records(lines, slots) == Err::<Seq<TransactionView>, ParseErrorView>(
            ParseErrorView::InvalidFormat(unknown_message(name)),
        ),
{
}

/// A line whose key has a value in the record already is a format violation:
/// the first value is not overwritten and the second is not passed over.
pub proof fn lemma_text_repeated_key(
    lines: Seq<Seq<u8>>,
    slots: Seq<Option<Seq<char>>>,
    chars: Seq<char>,
    name: Seq<char>,
    value: Seq<char>,
    i: int,
)
    requires
        lines.len() > 0,
        line_chars(lines[0]) == Ok::<Seq<char>, ParseErrorView>(chars),
        trim(chars).len() > 0,
        split_field(trim(chars)) == Some((name, value)),
        field_index(name) == Some(i),
        slots[i] is Some,
    ensures
        text_records(lines, slots) == Err::<Seq<TransactionView>, ParseErrorView>(
            ParseErrorView::InvalidFormat(duplicate_message(name)),
        ),
{
}

} // verus!
