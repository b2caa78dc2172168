//! Characters and strings: conversions between `String`, characters and
//! bytes, white space, and the quoting of a text value.

use vstd::prelude::*;
use vstd::slice::slice_subrange;
use vstd::string::StringExecFns;
use vstd::utf8::{encode_utf8, valid_utf8};

verus! {

/// `String::from_utf8` of the standard library, with the error dropped. The
/// call succeeds exactly on well-formed UTF-8, and the string it then returns
/// is the one whose UTF-8 encoding is `bytes`.
#[verifier::external_body]
pub(crate) fn string_from_utf8(bytes: Vec<u8>) -> (r: Option<String>)
    ensures
        r is Some <==> valid_utf8(bytes@),
        r matches Some(s) ==> encode_utf8(s@) == bytes@,
{
    String::from_utf8(bytes).ok()
}

/// `String::push` of the standard library: the character is appended at the
/// end and nothing else changes.
#[verifier::external_body]
pub(crate) fn string_push(s: &mut String, c: char)
    ensures
        final(s)@ == old(s)@.push(c),
{
    s.push(c)
}

/// The characters of a string, in order.
pub fn string_chars(s: &str) -> (v: Vec<char>)
    ensures
        v@ == s@,
{
    let mut v: Vec<char> = Vec::new();
    let it = s.chars();
    for c in iter: it
        invariant
            v@ == s@.take(iter.index() as int),
            iter.seq() == s@,
    {
        v.push(c);
    }
    v
}

/// The string made of the given characters, in order.
pub fn chars_to_string(chars: &[char]) -> (s: String)
    ensures
        s@ == chars@,
{
    let mut s = String::new();
    let mut i: usize = 0;
    while i < chars.len()
        invariant
            i <= chars.len(),
            s@ == chars@.take(i as int),
        decreases chars.len() - i,
    {
        string_push(&mut s, chars[i]);
        i += 1;
        assert(chars@.take(i as int) =~= chars@.take(i - 1).push(chars@[i - 1]));
    }
    assert(chars@.take(chars.len() as int) =~= chars@);
    s
}

/// Whether the characters are exactly those of the string.
pub fn chars_match(chars: &[char], s: &str) -> (r: bool)
    ensures
        r == (chars@ == s@),
{
    let v = string_chars(s);
    if v.len() != chars.len() {
        return false;
    }
    let mut i: usize = 0;
    while i < v.len()
        invariant
            i <= v.len(),
            v.len() == chars.len(),
            v@ == s@,
            forall|j: int| 0 <= j < i ==> v@[j] == chars@[j],
        decreases v.len() - i,
    {
        if v[i] != chars[i] {
            assert(v@[i as int] != chars@[i as int]);
            return false;
        }
        i += 1;
    }
    assert(v@ =~= chars@);
    true
}

/// The two strings, one after the other.
pub fn concat(a: &str, b: &str) -> (s: String)
    ensures
        s@ == a@ + b@,
{
    let mut s = a.to_owned();
    s.append(b);
    s
}

/// The encoding of two sequences, one after the other, is the encoding of
/// the first followed by the encoding of the second.
pub proof fn lemma_encode_concat(a: Seq<char>, b: Seq<char>)
    ensures
        encode_utf8(a + b) == encode_utf8(a) + encode_utf8(b),
    decreases a.len(),
{
    if a.len() == 0 {
        assert(a + b =~= b);
        assert(encode_utf8(a) + encode_utf8(b) =~= encode_utf8(b));
    } else {
        assert((a + b).drop_first() =~= a.drop_first() + b);
        lemma_encode_concat(a.drop_first(), b);
        assert(encode_utf8(a + b) =~= encode_utf8(a) + encode_utf8(b));
    }
}

/// Appends the bytes to the output.
pub fn write_bytes(writer: &mut Vec<u8>, bytes: &[u8])
    ensures
        final(writer)@ == old(writer)@ + bytes@,
{
    writer.extend_from_slice(bytes);
    assert(writer@ =~= old(writer)@ + bytes@);
}

/// Appends the UTF-8 encoding of the text to the output.
pub fn write_str(writer: &mut Vec<u8>, text: &str)
    ensures
        final(writer)@ == old(writer)@ + encode_utf8(text@),
{
    write_bytes(writer, text.as_bytes());
}

/// White space as Unicode defines it (`White_Space`): what
/// `trim` removes at both ends of a line.
pub open spec fn is_space(c: char) -> bool {
    let u = c as u32;
    ||| 0x09 <= u <= 0x0D
    ||| u == 0x20
    ||| u == 0x85
    ||| u == 0xA0
    ||| u == 0x1680
    ||| 0x2000 <= u <= 0x200A
    ||| u == 0x2028
    ||| u == 0x2029
    ||| u == 0x202F
    ||| u == 0x205F
    ||| u == 0x3000
}

/// Whether the character is white space.
pub fn is_whitespace(c: char) -> (r: bool)
    ensures
        r == is_space(c),
{
    let u: u32 = c as u32;
    (0x09 <= u && u <= 0x0D) || u == 0x20 || u == 0x85 || u == 0xA0 || u == 0x1680 || (0x2000 <= u
        && u <= 0x200A) || u == 0x2028 || u == 0x2029 || u == 0x202F || u == 0x205F || u == 0x3000
}

/// How many characters of white space `s` begins with.
pub open spec fn leading_spaces(s: Seq<char>) -> nat
    decreases s.len(),
{
    if s.len() > 0 && is_space(s[0]) {
        1 + leading_spaces(s.drop_first())
    } else {
        0
    }
}

/// How many characters of white space `s` ends with.
pub open spec fn trailing_spaces(s: Seq<char>) -> nat
    decreases s.len(),
{
    if s.len() > 0 && is_space(s.last()) {
        1 + trailing_spaces(s.drop_last())
    } else {
        0
    }
}

/// `s` without the white space at its start.
pub open spec fn trim_start(s: Seq<char>) -> Seq<char> {
    s.skip(leading_spaces(s) as int)
}

/// `s` without the white space at its end.
pub open spec fn trim_end(s: Seq<char>) -> Seq<char> {
    s.take(s.len() - trailing_spaces(s))
}

/// `s` without the white space at its start and at its end.
pub open spec fn trim(s: Seq<char>) -> Seq<char> {
    trim_end(trim_start(s))
}

/// A run of white space at the start that is followed by another character,
/// or by the end, is the whole of the leading white space.
pub proof fn lemma_leading_spaces_is(s: Seq<char>, n: int)
    requires
        0 <= n <= s.len(),
        forall|i: int| 0 <= i < n ==> is_space(#[trigger] s[i]),
        n < s.len() ==> !is_space(s[n]),
    ensures
        leading_spaces(s) == n,
    decreases s.len(),
{
    if n > 0 {
        let t = s.drop_first();
        assert(is_space(s[0]));
        assert forall|i: int| 0 <= i < n - 1 implies is_space(#[trigger] t[i]) by {
            assert(t[i] == s[i + 1]);
        }
        lemma_leading_spaces_is(t, n - 1);
    }
}

/// A run of white space at the end that follows another character, or the
/// start, is the whole of the trailing white space.
pub proof fn lemma_trailing_spaces_is(s: Seq<char>, n: int)
    requires
        0 <= n <= s.len(),
        forall|i: int| s.len() - n <= i < s.len() ==> is_space(#[trigger] s[i]),
        n < s.len() ==> !is_space(s[s.len() - n - 1]),
    ensures
        trailing_spaces(s) == n,
    decreases s.len(),
{
    if n > 0 {
        let t = s.drop_last();
        assert(is_space(s[s.len() - 1]));
        assert forall|i: int| t.len() - (n - 1) <= i < t.len() implies is_space(#[trigger] t[i]) by {
            assert(t[i] == s[i]);
        }
        lemma_trailing_spaces_is(t, n - 1);
    }
}

/// A sequence that neither begins nor ends with white space is its own trim.
pub proof fn lemma_trim_fixed(s: Seq<char>)
    requires
        s.len() > 0 ==> !is_space(s[0]) && !is_space(s.last()),
    ensures
        trim(s) == s,
{
    lemma_leading_spaces_is(s, 0);
    assert(trim_start(s) =~= s);
    lemma_trailing_spaces_is(s, 0);
    assert(trim_end(s) =~= s);
}

/// How many characters of white space `s` begins with.
pub fn leading_space_count(s: &[char]) -> (r: usize)
    ensures
        r == leading_spaces(s@),
        r <= s.len(),
{
    let mut n: usize = 0;
    while n < s.len() && is_whitespace(s[n])
        invariant
            n <= s.len(),
            forall|i: int| 0 <= i < n ==> is_space(#[trigger] s@[i]),
        decreases s.len() - n,
    {
        n += 1;
    }
    proof {
        lemma_leading_spaces_is(s@, n as int);
    }
    n
}

/// How many characters of white space `s` ends with.
pub fn trailing_space_count(s: &[char]) -> (r: usize)
    ensures
        r == trailing_spaces(s@),
        r <= s.len(),
{
    let mut n: usize = 0;
    while n < s.len() && is_whitespace(s[s.len() - n - 1])
        invariant
            n <= s.len(),
            forall|i: int| s.len() - n <= i < s.len() ==> is_space(#[trigger] s@[i]),
        decreases s.len() - n,
    {
        n += 1;
    }
    proof {
        lemma_trailing_spaces_is(s@, n as int);
    }
    n
}

/// Where the trim of `s` begins and ends: `s[start..end]` is `trim(s)`.
pub fn trim_bounds(s: &[char]) -> (r: (usize, usize))
    ensures
        r.0 <= r.1 <= s.len(),
        s@.subrange(r.0 as int, r.1 as int) == trim(s@),
{
    let mut start: usize = 0;
    while start < s.len() && is_whitespace(s[start])
        invariant
            start <= s.len(),
            forall|i: int| 0 <= i < start ==> is_space(#[trigger] s@[i]),
        decreases s.len() - start,
    {
        start += 1;
    }
    let mut end: usize = s.len();
    while end > start && is_whitespace(s[end - 1])
        invariant
            start <= end <= s.len(),
            forall|i: int| end <= i < s.len() ==> is_space(#[trigger] s@[i]),
        decreases end,
    {
        end -= 1;
    }
    proof {
        lemma_leading_spaces_is(s@, start as int);
        let t = trim_start(s@);
        assert(t == s@.skip(start as int));
        let n = s.len() - end;
        assert forall|i: int| t.len() - n <= i < t.len() implies is_space(#[trigger] t[i]) by {
            assert(t[i] == s@[i + start]);
        }
        if n < t.len() {
            assert(t[t.len() - n - 1] == s@[end - 1]);
        }
        lemma_trailing_spaces_is(t, n);
        assert(trim_end(t) =~= s@.subrange(start as int, end as int));
    }
    (start, end)
}

/// The trim of `s`, as a part of `s`.
pub fn trimmed(s: &[char]) -> (t: &[char])
    ensures
        t@ == trim(s@),
{
    let (start, end) = trim_bounds(s);
    slice_subrange(s, start, end)
}

/// A text value without the one pair of double quotes around it, if it has
/// one; the white space around the value goes first.
pub open spec fn unquoted(s: Seq<char>) -> Seq<char> {
    let t = trim(s);
    if t.len() >= 2 && t[0] == '"' && t.last() == '"' {
        t.subrange(1, t.len() - 1)
    } else {
        t
    }
}

/// The value between a pair of double quotes.
pub open spec fn quoted(s: Seq<char>) -> Seq<char> {
    seq!['"'] + s + seq!['"']
}

/// Trims the value and removes the one pair of double quotes around it, if
/// there is one.
pub fn parse_quoted_field(s: &[char]) -> (r: String)
    ensures
        r@ == unquoted(s@),
{
    let t = trimmed(s);
    if t.len() >= 2 && t[0] == '"' && t[t.len() - 1] == '"' {
        chars_to_string(slice_subrange(t, 1, t.len() - 1))
    } else {
        chars_to_string(t)
    }
}

/// Puts the value between a pair of double quotes, as it is.
pub fn wrap_with_quotes(s: &str) -> (r: String)
    ensures
        r@ == quoted(s@),
{
    let mut r = String::new();
    string_push(&mut r, '"');
    r.append(s);
    string_push(&mut r, '"');
    assert(r@ =~= quoted(s@));
    r
}

/// The parts, one after the other, with the separator between two of them.
pub open spec fn joined(parts: Seq<Seq<char>>, sep: char) -> Seq<char>
    decreases parts.len(),
{
    if parts.len() == 0 {
        Seq::empty()
    } else if parts.len() == 1 {
        parts[0]
    } else {
        parts[0] + seq![sep] + joined(parts.drop_first(), sep)
    }
}

/// One more part at the end comes after the separator, unless it is the
/// first.
pub proof fn lemma_joined_push(parts: Seq<Seq<char>>, part: Seq<char>, sep: char)
    ensures
        joined(parts.push(part), sep) == if parts.len() == 0 {
            part
        } else {
            joined(parts, sep) + seq![sep] + part
        },
    decreases parts.len(),
{
    let all = parts.push(part);
    if parts.len() == 0 {
    } else if parts.len() == 1 {
        assert(all.drop_first() =~= seq![part]);
        assert(joined(all.drop_first(), sep) == part);
        assert(joined(all, sep) =~= joined(parts, sep) + seq![sep] + part);
    } else {
        assert(all.drop_first() =~= parts.drop_first().push(part));
        lemma_joined_push(parts.drop_first(), part, sep);
        assert(joined(all, sep) =~= joined(parts, sep) + seq![sep] + part);
    }
}

/// The characters of each string.
pub open spec fn string_views(values: Seq<String>) -> Seq<Seq<char>> {
    values.map_values(|value: String| value@)
}

/// Puts the strings one after the other, with the separator between two of
/// them.
pub fn join(values: &Vec<String>, sep: char) -> (r: String)
    ensures
        r@ == joined(string_views(values@), sep),
{
    let ghost all = string_views(values@);
    let mut out = String::new();
    let mut i: usize = 0;
    proof {
        assert(all.take(0) =~= Seq::<Seq<char>>::empty());
    }
    while i < values.len()
        invariant
            i <= values.len(),
            all == string_views(values@),
            out@ == joined(all.take(i as int), sep),
        decreases values.len() - i,
    {
        if i > 0 {
            string_push(&mut out, sep);
        }
        out.append(values[i].as_str());
        proof {
            assert(all.take(i + 1) =~= all.take(i as int).push(values@[i as int]@));
            lemma_joined_push(all.take(i as int), values@[i as int]@, sep);
        }
        i += 1;
    }
    proof {
        assert(all.take(i as int) =~= all);
    }
    out
}

} // verus!
