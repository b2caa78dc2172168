//! What holds of the CSV format: how quotes are read, that the header is
//! checked, and that reading what was written gives the transactions back.

use vstd::prelude::*;
use vstd::utf8::encode_utf8;
use crate::csv_format::{
    csv_decode, csv_document, csv_encode, csv_fields, csv_lines, csv_record, csv_records, csv_scan,
    csv_text, csv_values, escaped, find_header, header_message, record_of_fields, Field,
};
use crate::error::ParseErrorView;
use crate::fields::{
    field_name, field_names, is_word, lemma_decimal_word, lemma_enum_names, lemma_field_names,
    lemma_word, FIELD_COUNT,
};
use crate::lines::{lemma_split_first_line, one_line, split_lines};
use crate::types::TransactionView;
use crate::utils::{is_space, joined, lemma_trim_fixed, quoted, trim};

verus! {

/// Whether the text holds neither a double quote nor a comma.
pub open spec fn plain(s: Seq<char>) -> bool {
    forall|i: int| 0 <= i < s.len() ==> (#[trigger] s[i]) != '"' && s[i] != ','
}

/// The field in hand with more characters that stood outside quotes.
pub open spec fn with_all_loose(field: Field, w: Seq<char>) -> Field {
    Field { chars: field.chars + w, kept_from: field.kept_from, kept_to: field.kept_to }
}

/// The field in hand with more characters that stood between quotes.
pub open spec fn with_all_kept(field: Field, d: Seq<char>) -> Field {
    if d.len() == 0 {
        field
    } else {
        Field {
            chars: field.chars + d,
            kept_from: if field.kept_to == 0 {
                field.chars.len()
            } else {
                field.kept_from
            },
            kept_to: field.chars.len() + d.len(),
        }
    }
}

/// Outside quotes, characters that are neither a quote nor a comma join the
/// field in hand.
pub proof fn lemma_scan_plain(w: Seq<char>, rest: Seq<char>, field: Field)
    requires
        plain(w),
    ensures
        csv_scan(w + rest, field, false) == csv_scan(rest, with_all_loose(field, w), false),
    decreases w.len(),
{
    if w.len() == 0 {
        assert(w + rest =~= rest);
        assert(field.chars + w =~= field.chars);
    } else {
        let all = w + rest;
        let tail = w.drop_first();
        assert(all[0] == w[0]);
        assert(w[0] != '"' && w[0] != ',');
        assert(all.skip(1) =~= tail + rest);
        assert forall|i: int| 0 <= i < tail.len() implies (#[trigger] tail[i]) != '"' && tail[i]
            != ',' by {
            assert(tail[i] == w[i + 1]);
        }
        lemma_scan_plain(tail, rest, field.with_loose(w[0]));
        assert(field.chars.push(w[0]) + tail =~= field.chars + w);
    }
}

/// Within quotes, a value written with each of its double quotes twice joins
/// the field in hand as it was: a comma in it is a character like any other,
/// and the closing quote ends the field.
pub proof fn lemma_scan_quoted(d: Seq<char>, field: Field)
    ensures
        csv_scan(escaped(d) + seq!['"'], field, true) == Some(seq![with_all_kept(field, d).value()]),
    decreases d.len(),
{
    let rest = escaped(d) + seq!['"'];
    if d.len() == 0 {
        assert(rest =~= seq!['"']);
        assert(rest.skip(1) =~= Seq::<char>::empty());
        assert(csv_scan(rest.skip(1), field, false) == Some(seq![field.value()]));
    } else {
        let tail = d.drop_first();
        let next = field.with_kept(d[0]);
        if d[0] == '"' {
            assert(rest[0] == '"' && rest[1] == '"');
            assert(rest.skip(2) =~= escaped(tail) + seq!['"']);
        } else {
            assert(rest[0] == d[0]);
            assert(rest.skip(1) =~= escaped(tail) + seq!['"']);
        }
        lemma_scan_quoted(tail, next);
        assert(field.chars.push(d[0]) + tail =~= field.chars + d);
        assert(with_all_kept(next, tail) == with_all_kept(field, d));
    }
}

/// A field between double quotes, with each of its own double quotes written
/// twice, is read as the field that was written: commas, quotes and white
/// space in it come back as they were.
pub proof fn lemma_quoted_field(d: Seq<char>)
    ensures
        csv_fields(quoted(escaped(d))) == Some(seq![d]),
{
    let line = quoted(escaped(d));
    assert(line[0] == '"');
    assert(line.skip(1) =~= escaped(d) + seq!['"']);
    lemma_scan_quoted(d, Field::empty());
    let field = with_all_kept(Field::empty(), d);
    if d.len() == 0 {
        lemma_trim_fixed(d);
        assert(d =~= Seq::<char>::empty());
    } else {
        assert(field.chars =~= d);
        assert(d.take(0) =~= Seq::<char>::empty());
        assert(d.skip(d.len() as int) =~= Seq::<char>::empty());
        assert(d.subrange(0, d.len() as int) =~= d);
    }
}

/// A quote that is opened and not closed leaves the line without fields.
pub proof fn lemma_open_quote(s: Seq<char>)
    requires
        forall|i: int| 0 <= i < s.len() ==> (#[trigger] s[i]) != '"',
    ensures
        csv_fields(seq!['"'] + s) is None,
{
    let line = seq!['"'] + s;
    assert(line[0] == '"');
    assert(line.skip(1) =~= s);
    lemma_scan_open(s, Field::empty());
}

proof fn lemma_scan_open(s: Seq<char>, field: Field)
    requires
        forall|i: int| 0 <= i < s.len() ==> (#[trigger] s[i]) != '"',
    ensures
        csv_scan(s, field, true) is None,
    decreases s.len(),
{
    if s.len() > 0 {
        let tail = s.skip(1);
        assert(s[0] != '"');
        assert forall|i: int| 0 <= i < tail.len() implies (#[trigger] tail[i]) != '"' by {
            assert(tail[i] == s[i + 1]);
        }
        lemma_scan_open(tail, field.with_kept(s[0]));
    }
}

/// Words with commas between them, and a last field of any kind, are read as
/// those words and what the last field alone is read as.
pub proof fn lemma_fields_of_joined(fields: Seq<Seq<char>>, last: Seq<char>)
    requires
        fields.len() >= 1,
        forall|i: int| 0 <= i < fields.len() - 1 ==> is_word(#[trigger] fields[i]),
        csv_fields(fields.last()) == Some(seq![last]),
    ensures
        csv_fields(joined(fields, ',')) == Some(fields.drop_last().push(last)),
    decreases fields.len(),
{
    if fields.len() == 1 {
        assert(fields.drop_last().push(last) =~= seq![last]);
    } else {
        let first = fields[0];
        let rest = fields.drop_first();
        let tail = joined(rest, ',');
        assert(is_word(first));
        lemma_word(first);
        assert(plain(first));
        assert forall|i: int| 0 <= i < rest.len() - 1 implies is_word(#[trigger] rest[i]) by {
            assert(rest[i] == fields[i + 1]);
        }
        assert(rest.last() == fields.last());
        lemma_fields_of_joined(rest, last);
        assert(joined(fields, ',') =~= first + (seq![','] + tail));
        lemma_scan_plain(first, seq![','] + tail, Field::empty());
        let word = with_all_loose(Field::empty(), first);
        assert(word.chars =~= first);
        assert(word.value() == first);
        let after_word = seq![','] + tail;
        assert(after_word[0] == ',');
        assert(after_word.skip(1) =~= tail);
        assert(seq![first] + rest.drop_last().push(last) =~= fields.drop_last().push(last));
    }
}

/// A word alone is read as one field, the word.
pub proof fn lemma_word_field(w: Seq<char>)
    requires
        is_word(w),
    ensures
        csv_fields(w) == Some(seq![w]),
{
    lemma_word(w);
    assert(plain(w));
    lemma_scan_plain(w, Seq::empty(), Field::empty());
    assert(w + Seq::<char>::empty() =~= w);
    let word = with_all_loose(Field::empty(), w);
    assert(word.chars =~= w);
}

/// Where the last part is not empty, what the parts are joined to ends as
/// the last part does; and it is one line if all parts are.
pub proof fn lemma_joined_tail(parts: Seq<Seq<char>>)
    requires
        parts.len() >= 1,
        parts.last().len() > 0,
    ensures
        joined(parts, ',').len() > 0,
        joined(parts, ',').last() == parts.last().last(),
        (forall|i: int| 0 <= i < parts.len() ==> one_line(#[trigger] parts[i])) ==> one_line(
            joined(parts, ','),
        ),
    decreases parts.len(),
{
    if parts.len() > 1 {
        let rest = parts.drop_first();
        assert(rest.last() == parts.last());
        lemma_joined_tail(rest);
        let tail = joined(rest, ',');
        let all = joined(parts, ',');
        assert(all =~= parts[0] + seq![','] + tail);
        assert(all.last() == tail.last());
        if forall|i: int| 0 <= i < parts.len() ==> one_line(#[trigger] parts[i]) {
            assert forall|i: int| 0 <= i < rest.len() implies one_line(#[trigger] rest[i]) by {
                assert(rest[i] == parts[i + 1]);
            }
            assert(one_line(parts[0]));
            assert forall|i: int| 0 <= i < all.len() implies #[trigger] all[i] != '\n' by {
                if i < parts[0].len() {
                    assert(all[i] == parts[0][i]);
                } else if i > parts[0].len() {
                    assert(all[i] == tail[i - parts[0].len() - 1]);
                }
            }
        }
    }
}

/// Where the first part is not empty, what the parts are joined to begins as
/// the first part does.
pub proof fn lemma_joined_head(parts: Seq<Seq<char>>)
    requires
        parts.len() >= 1,
        parts[0].len() > 0,
    ensures
        joined(parts, ',').len() > 0,
        joined(parts, ',')[0] == parts[0][0],
{
    if parts.len() > 1 {
        assert(joined(parts, ',') =~= parts[0] + seq![','] + joined(parts.drop_first(), ','));
    }
}

/// Writing each double quote twice brings no line end into a value.
pub proof fn lemma_escaped_one_line(d: Seq<char>)
    requires
        one_line(d),
    ensures
        one_line(escaped(d)),
    decreases d.len(),
{
    if d.len() > 0 {
        let tail = d.drop_first();
        assert forall|i: int| 0 <= i < tail.len() implies #[trigger] tail[i] != '\n' by {
            assert(tail[i] == d[i + 1]);
        }
        lemma_escaped_one_line(tail);
        assert(d[0] != '\n');
        let e = escaped(d);
        let t = escaped(tail);
        assert forall|i: int| 0 <= i < e.len() implies #[trigger] e[i] != '\n' by {
            if d[0] == '"' {
                if i >= 2 {
                    assert(e[i] == t[i - 2]);
                }
            } else {
                if i >= 1 {
                    assert(e[i] == t[i - 1]);
                }
            }
        }
    }
}

/// What the CSV format can hold of a transaction without change: a
/// description of one line.
pub open spec fn csv_exact(tx: TransactionView) -> bool {
    one_line(tx.description)
}

/// The line of a transaction, without its line end.
pub open spec fn csv_row(tx: TransactionView) -> Seq<char> {
    joined(csv_values(tx), ',')
}

/// The line of a transaction is one line that trimming leaves as it is, and
/// reading it gives the transaction back.
pub proof fn lemma_csv_row(tx: TransactionView)
    requires
        csv_exact(tx),
    ensures
        one_line(csv_row(tx)),
        trim(csv_row(tx)) == csv_row(tx),
        csv_row(tx).len() > 0,
        csv_record(csv_row(tx)) == Ok::<TransactionView, ParseErrorView>(tx),
{
    let values = csv_values(tx);
    let row = csv_row(tx);
    let field = quoted(escaped(tx.description));
    lemma_decimal_word(tx.id);
    lemma_decimal_word(tx.from_user);
    lemma_decimal_word(tx.to_user);
    lemma_decimal_word(tx.amount);
    lemma_decimal_word(tx.timestamp);
    lemma_enum_names(tx.kind, tx.status);
    assert forall|i: int| 0 <= i < values.len() - 1 implies is_word(#[trigger] values[i]) by {}
    lemma_quoted_field(tx.description);
    lemma_fields_of_joined(values, tx.description);
    let fields = values.drop_last().push(tx.description);
    assert(fields.len() == FIELD_COUNT);
    assert(fields[0] == values[0] && fields[1] == values[1] && fields[2] == values[2] && fields[3]
        == values[3] && fields[4] == values[4] && fields[5] == values[5] && fields[6] == values[6]
        && fields[7] == tx.description);
    assert(record_of_fields(fields) == Ok::<TransactionView, ParseErrorView>(tx));
    // one line, and nothing to trim
    lemma_escaped_one_line(tx.description);
    assert(one_line(field));
    assert forall|i: int| 0 <= i < values.len() implies one_line(#[trigger] values[i]) by {
        if i < 7 {
            lemma_word(values[i]);
        }
    }
    assert(values.last() == field);
    assert(field.last() == '"');
    lemma_joined_tail(values);
    lemma_joined_head(values);
    lemma_word(values[0]);
    assert(!is_space(row[0]));
    assert(!is_space(row.last()));
    lemma_trim_fixed(row);
}

/// The header line, without its line end.
pub open spec fn csv_header_row() -> Seq<char> {
    joined(field_names(), ',')
}

/// The header line is one line that trimming leaves as it is, and its fields
/// are the eight field names.
pub proof fn lemma_csv_header_row()
    ensures
        one_line(csv_header_row()),
        trim(csv_header_row()) == csv_header_row(),
        csv_header_row().len() > 0,
        csv_fields(csv_header_row()) == Some(field_names()),
{
    let names = field_names();
    let row = csv_header_row();
    lemma_field_names();
    assert forall|i: int| 0 <= i < names.len() implies is_word(#[trigger] names[i]) by {
        assert(names[i] == field_name(i));
    }
    lemma_word_field(names.last());
    lemma_fields_of_joined(names, names.last());
    assert(names.drop_last().push(names.last()) =~= names);
    assert forall|i: int| 0 <= i < names.len() implies one_line(#[trigger] names[i]) by {
        lemma_word(names[i]);
    }
    lemma_joined_tail(names);
    lemma_joined_head(names);
    lemma_word(names[0]);
    lemma_word(names.last());
    assert(!is_space(row[0]));
    assert(!is_space(row.last()));
    lemma_trim_fixed(row);
}

/// Reading the lines of transactions gives the transactions back.
pub proof fn lemma_csv_lines_round_trip(txs: Seq<TransactionView>)
    requires
        forall|i: int| 0 <= i < txs.len() ==> csv_exact(#[trigger] txs[i]),
    ensures
        csv_records(split_lines(encode_utf8(csv_lines(txs)))) == Ok::<
            Seq<TransactionView>,
            ParseErrorView,
        >(txs),
    decreases txs.len(),
{
    if txs.len() == 0 {
        assert(txs =~= Seq::<TransactionView>::empty());
        assert(encode_utf8(csv_lines(txs)) =~= Seq::<u8>::empty());
    } else {
        let tx = txs[0];
        let rest = txs.drop_first();
        assert(csv_exact(tx));
        assert forall|i: int| 0 <= i < rest.len() implies csv_exact(#[trigger] rest[i]) by {
            assert(rest[i] == txs[i + 1]);
        }
        lemma_csv_lines_round_trip(rest);
        lemma_csv_row(tx);
        let row = csv_row(tx);
        lemma_split_first_line(row, csv_lines(rest));
        assert(csv_lines(txs) =~= row + seq!['\n'] + csv_lines(rest));
        let lines = split_lines(encode_utf8(csv_lines(txs)));
        let tail = split_lines(encode_utf8(csv_lines(rest)));
        assert(lines[0] == encode_utf8(row));
        assert(lines.drop_first() =~= tail);
        assert(seq![tx] + rest =~= txs);
    }
}

/// Reading a CSV document that was written from transactions gives the
/// transactions back, in their order and with every field as it was, as long
/// as each description is one line. Commas, quotes, colons and white space in
/// a description come back as they were.
pub proof fn lemma_csv_round_trip(txs: Seq<TransactionView>)
    requires
        forall|i: int| 0 <= i < txs.len() ==> csv_exact(#[trigger] txs[i]),
    ensures
        csv_decode(csv_encode(txs)) == Ok::<Seq<TransactionView>, ParseErrorView>(txs),
{
    let header = csv_header_row();
    lemma_csv_header_row();
    lemma_csv_lines_round_trip(txs);
    lemma_split_first_line(header, csv_lines(txs));
    assert(csv_text(txs) =~= header + seq!['\n'] + csv_lines(txs));
    let lines = split_lines(csv_encode(txs));
    let tail = split_lines(encode_utf8(csv_lines(txs)));
    assert(lines[0] == encode_utf8(header));
    assert(lines.drop_first() =~= tail);
    assert(lines.skip(1) =~= tail);
    assert(find_header(lines) == Ok::<(Seq<Seq<char>>, nat), ParseErrorView>((field_names(), 1)));
}

/// A document whose first line that is not blank holds other fields than the
/// eight field names in their order is a format violation, whatever follows.
pub proof fn lemma_csv_header_is_checked(lines: Seq<Seq<u8>>, names: Seq<Seq<char>>, used: nat)
    requires
        find_header(lines) == Ok::<(Seq<Seq<char>>, nat), ParseErrorView>((names, used)),
        names != field_names(),
    ensures
        csv_document(lines) == Err::<Seq<TransactionView>, ParseErrorView>(
            ParseErrorView::InvalidFormat(header_message()),
        ),
{
}

/// A document without a header line is a format violation or, where a line
/// is not UTF-8, an I/O failure; it is never read as an empty list.
pub proof fn lemma_csv_header_is_needed(lines: Seq<Seq<u8>>)
    requires
        find_header(lines) is Err,
    ensures
        csv_document(lines) is Err,
{
}

} // verus!
