//! Lines of text in a byte stream: where they end, and what characters they
//! hold.

use vstd::prelude::*;
use vstd::slice::slice_subrange;
use vstd::slice::slice_to_vec;
use vstd::utf8::{decode_utf8, encode_utf8, valid_utf8};
use crate::error::{io_error, ParseError, ParseErrorView};
use crate::utils::{lemma_encode_concat, string_chars, string_from_utf8};

verus! {

/// The byte that ends a line.
pub const NEWLINE: u8 = 0x0A;

/// How many bytes stand before the first line end, or before the end of the
/// data where no line end is left.
pub open spec fn line_len(data: Seq<u8>) -> nat
    decreases data.len(),
{
    if data.len() == 0 || data[0] == NEWLINE {
        0
    } else {
        1 + line_len(data.drop_first())
    }
}

/// The lines of a byte stream, without their line ends. A last line needs no
/// line end, and a line end at the very end opens no further line.
pub open spec fn split_lines(data: Seq<u8>) -> Seq<Seq<u8>>
    decreases data.len(),
{
    if data.len() == 0 {
        Seq::empty()
    } else {
        let n = line_len(data) as int;
        if n >= data.len() {
            seq![data]
        } else {
            seq![data.take(n)] + split_lines(data.skip(n + 1))
        }
    }
}

/// A run of bytes without a line end, followed by a line end or by the end of
/// the data, is the first line.
pub proof fn lemma_line_len_is(data: Seq<u8>, n: int)
    requires
        0 <= n <= data.len(),
        forall|i: int| 0 <= i < n ==> #[trigger] data[i] != NEWLINE,
        n < data.len() ==> data[n] == NEWLINE,
    ensures
        line_len(data) == n,
    decreases data.len(),
{
    if n > 0 {
        let t = data.drop_first();
        assert(data[0] != NEWLINE);
        assert forall|i: int| 0 <= i < n - 1 implies #[trigger] t[i] != NEWLINE by {
            assert(t[i] == data[i + 1]);
        }
        lemma_line_len_is(t, n - 1);
    }
}

/// The bytes of each line.
pub open spec fn line_views(lines: Seq<Vec<u8>>) -> Seq<Seq<u8>> {
    lines.map_values(|line: Vec<u8>| line@)
}

/// Cuts the data into its lines.
pub fn read_lines(data: &[u8]) -> (lines: Vec<Vec<u8>>)
    ensures
        line_views(lines@) == split_lines(data@),
{
    let mut lines: Vec<Vec<u8>> = Vec::new();
    let mut pos: usize = 0;
    proof {
        assert(data@.skip(0) =~= data@);
        assert(line_views(lines@) =~= Seq::<Seq<u8>>::empty());
        assert(Seq::<Seq<u8>>::empty() + split_lines(data@) =~= split_lines(data@));
    }
    while pos < data.len()
        invariant
            pos <= data.len(),
            split_lines(data@) == line_views(lines@) + split_lines(data@.skip(pos as int)),
        decreases data.len() - pos,
    {
        let mut end: usize = pos;
        while end < data.len() && data[end] != NEWLINE
            invariant
                pos <= end <= data.len(),
                forall|i: int| pos <= i < end ==> #[trigger] data@[i] != NEWLINE,
            decreases data.len() - end,
        {
            end += 1;
        }
        let line = slice_to_vec(slice_subrange(data, pos, end));
        proof {
            let rest = data@.skip(pos as int);
            let n = end - pos;
            assert forall|i: int| 0 <= i < n implies #[trigger] rest[i] != NEWLINE by {
                assert(rest[i] == data@[pos + i]);
            }
            if n < rest.len() {
                assert(rest[n] == data@[end as int]);
            }
            lemma_line_len_is(rest, n);
            assert(rest.take(n) =~= line@);
            assert(line_views(lines@.push(line)) =~= line_views(lines@) + seq![line@]);
            if n >= rest.len() {
                assert(rest =~= line@);
                assert(data@.skip(end as int) =~= Seq::<u8>::empty());
                assert(split_lines(rest) =~= seq![line@] + split_lines(data@.skip(end as int)));
            } else {
                assert(rest.skip(n + 1) =~= data@.skip(end + 1));
            }
            assert((line_views(lines@) + seq![line@]) + split_lines(rest.skip(n + 1))
                =~= line_views(lines@) + (seq![line@] + split_lines(rest.skip(n + 1))));
        }
        lines.push(line);
        pos = if end < data.len() { end + 1 } else { end };
    }
    proof {
        assert(data@.skip(pos as int) =~= Seq::<u8>::empty());
        assert(line_views(lines@) + Seq::<Seq<u8>>::empty() =~= line_views(lines@));
    }
    lines
}

/// The message of a line that is not UTF-8.
pub open spec fn not_utf8_message() -> Seq<char> {
    "stream did not contain valid UTF-8"@
}

/// The characters of a line, or the failure of a line that is not UTF-8.
pub open spec fn line_chars(line: Seq<u8>) -> Result<Seq<char>, ParseErrorView> {
    if valid_utf8(line) {
        Ok(decode_utf8(line))
    } else {
        Err(ParseErrorView::IOError(not_utf8_message()))
    }
}

/// Decodes a line into its characters.
pub fn decode_line(line: &Vec<u8>) -> (r: Result<Vec<char>, ParseError>)
    ensures
        match r {
            Ok(chars) => line_chars(line@) == Ok::<Seq<char>, ParseErrorView>(chars@),
            Err(e) => line_chars(line@) == Err::<Seq<char>, ParseErrorView>(e@),
        },
{
    match string_from_utf8(line.clone()) {
        Some(text) => {
            proof {
                vstd::utf8::encode_utf8_decode_utf8(text@);
            }
            Ok(string_chars(text.as_str()))
        },
        None => Err(io_error("stream did not contain valid UTF-8")),
    }
}

/// The encoding of a character that is no line end holds no line end byte.
proof fn lemma_scalar_has_no_newline(c: char)
    requires
        c != '\n',
    ensures
        forall|i: int|
            0 <= i < vstd::utf8::encode_scalar(c as u32).len() ==> #[trigger] vstd::utf8::encode_scalar(
                c as u32,
            )[i] != NEWLINE,
{
    let v = c as u32;
    assert(v != 0x0A);
    assert(v <= 0x7F && v != 0x0A ==> (v & 0x7F) as u8 != 0x0Au8) by (bit_vector);
    assert(0xC0u8 | ((v >> 6) & 0x1F) as u8 != 0x0Au8) by (bit_vector);
    assert(0xE0u8 | ((v >> 12) & 0x0F) as u8 != 0x0Au8) by (bit_vector);
    assert(0xF0u8 | ((v >> 18) & 0x7) as u8 != 0x0Au8) by (bit_vector);
    assert(0x80u8 | (v & 0x3F) as u8 != 0x0Au8) by (bit_vector);
    assert(0x80u8 | ((v >> 6) & 0x3F) as u8 != 0x0Au8) by (bit_vector);
    assert(0x80u8 | ((v >> 12) & 0x3F) as u8 != 0x0Au8) by (bit_vector);
}

/// Whether the text holds no line end.
pub open spec fn one_line(text: Seq<char>) -> bool {
    forall|i: int| 0 <= i < text.len() ==> #[trigger] text[i] != '\n'
}

/// The encoding of a text without a line end holds no line end byte.
pub proof fn lemma_encode_one_line(text: Seq<char>)
    requires
        one_line(text),
    ensures
        forall|i: int| 0 <= i < encode_utf8(text).len() ==> #[trigger] encode_utf8(text)[i] != NEWLINE,
    decreases text.len(),
{
    if text.len() > 0 {
        let head = vstd::utf8::encode_scalar(text[0] as u32);
        let rest = text.drop_first();
        assert(text[0] != '\n');
        lemma_scalar_has_no_newline(text[0]);
        assert forall|i: int| 0 <= i < rest.len() implies #[trigger] rest[i] != '\n' by {
            assert(rest[i] == text[i + 1]);
        }
        lemma_encode_one_line(rest);
        assert forall|i: int| 0 <= i < encode_utf8(text).len() implies #[trigger] encode_utf8(
            text,
        )[i] != NEWLINE by {
            if i < head.len() {
                assert(encode_utf8(text)[i] == head[i]);
            } else {
                assert(encode_utf8(text)[i] == encode_utf8(rest)[i - head.len()]);
            }
        }
    }
}

/// The line end is encoded as the line end byte.
pub proof fn lemma_encode_newline()
    ensures
        encode_utf8(seq!['\n']) == seq![NEWLINE],
{
    let s = seq!['\n'];
    let v = '\n' as u32;
    assert(v == 0x0A);
    assert((0x0Au32 & 0x7F) as u8 == 0x0Au8) by (bit_vector);
    assert(s.drop_first() =~= Seq::<char>::empty());
    assert(encode_utf8(s.drop_first()) =~= Seq::<u8>::empty());
    assert(encode_utf8(s) =~= seq![NEWLINE]);
}

/// A text that begins with a line and its line end is encoded as bytes whose
/// first line is the encoding of that line, and whose other lines are those
/// of the rest of the text.
pub proof fn lemma_split_first_line(line: Seq<char>, rest: Seq<char>)
    requires
        one_line(line),
    ensures
        split_lines(encode_utf8(line + seq!['\n'] + rest)) == seq![encode_utf8(line)] + split_lines(
            encode_utf8(rest),
        ),
        line_chars(encode_utf8(line)) == Ok::<Seq<char>, ParseErrorView>(line),
{
    let data = encode_utf8(line + seq!['\n'] + rest);
    let head = encode_utf8(line);
    let tail = encode_utf8(rest);
    lemma_encode_concat(line + seq!['\n'], rest);
    lemma_encode_concat(line, seq!['\n']);
    lemma_encode_newline();
    lemma_encode_one_line(line);
    assert(data =~= head + seq![NEWLINE] + tail);
    let n = head.len() as int;
    assert forall|i: int| 0 <= i < n implies #[trigger] data[i] != NEWLINE by {
        assert(data[i] == head[i]);
    }
    assert(data[n] == NEWLINE);
    lemma_line_len_is(data, n);
    assert(data.take(n) =~= head);
    assert(data.skip(n + 1) =~= tail);
    vstd::utf8::encode_utf8_valid_utf8(line);
    vstd::utf8::encode_utf8_decode_utf8(line);
}

} // verus!
