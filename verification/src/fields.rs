//! What the two text formats share: the eight field names in their fixed
//! order, and how a number, a kind and a status are read from a field.

use vstd::prelude::*;
use crate::decimal::{decimal, lemma_decimal_digits, lemma_read_decimal, number_field};
use crate::error::{invalid_format, ParseError, ParseErrorView};
use crate::lines::one_line;
use crate::types::{Transaction, TransactionView, TxStatus, TxType, views};
use crate::utils::{chars_match, is_space, lemma_trim_fixed, string_chars, trim};

verus! {

/// How many fields a transaction has.
pub const FIELD_COUNT: usize = 8;

/// The name of each field, by its place in the fixed order; the last name
/// for any later place.
pub open spec fn field_name(i: int) -> Seq<char> {
    if i == 0 {
        "TX_ID"@
    } else if i == 1 {
        "TX_TYPE"@
    } else if i == 2 {
        "FROM_USER_ID"@
    } else if i == 3 {
        "TO_USER_ID"@
    } else if i == 4 {
        "AMOUNT"@
    } else if i == 5 {
        "TIMESTAMP"@
    } else if i == 6 {
        "STATUS"@
    } else {
        "DESCRIPTION"@
    }
}

/// The eight field names in their fixed order.
pub open spec fn field_names() -> Seq<Seq<char>> {
    Seq::new(FIELD_COUNT as nat, |i: int| field_name(i))
}

/// The name of the field at place `i`; the last name for any later place.
pub fn field_name_str(i: usize) -> (name: &'static str)
    ensures
        name@ == field_name(i as int),
{
    match i {
        0 => "TX_ID",
        1 => "TX_TYPE",
        2 => "FROM_USER_ID",
        3 => "TO_USER_ID",
        4 => "AMOUNT",
        5 => "TIMESTAMP",
        6 => "STATUS",
        _ => "DESCRIPTION",
    }
}

/// The place of the field with the given name, if there is one. The names
/// are told apart as they are written: upper case is not lower case.
pub open spec fn field_index(name: Seq<char>) -> Option<int> {
    if name == field_name(0) {
        Some(0)
    } else if name == field_name(1) {
        Some(1)
    } else if name == field_name(2) {
        Some(2)
    } else if name == field_name(3) {
        Some(3)
    } else if name == field_name(4) {
        Some(4)
    } else if name == field_name(5) {
        Some(5)
    } else if name == field_name(6) {
        Some(6)
    } else if name == field_name(7) {
        Some(7)
    } else {
        None
    }
}

/// Looks the name up among the eight field names.
pub fn find_field(name: &[char]) -> (r: Option<usize>)
    ensures
        match r {
            Some(i) => i < FIELD_COUNT && field_index(name@) == Some(i as int),
            None => field_index(name@) is None,
        },
{
    let mut i: usize = 0;
    while i < FIELD_COUNT
        invariant
            i <= FIELD_COUNT,
            forall|j: int| 0 <= j < i ==> field_name(j) != name@,
        decreases FIELD_COUNT - i,
    {
        if chars_match(name, field_name_str(i)) {
            return Some(i);
        }
        i += 1;
    }
    None
}

/// The kind a field names, or the format violation of a name that is none.
pub open spec fn kind_field(s: Seq<char>) -> Result<TxType, ParseErrorView> {
    match TxType::of_name(s) {
        Some(kind) => Ok(kind),
        None => Err(ParseErrorView::InvalidFormat("unknown tx type"@)),
    }
}

/// The status a field names, or the format violation of a name that is none.
pub open spec fn status_field(s: Seq<char>) -> Result<TxStatus, ParseErrorView> {
    match TxStatus::of_name(s) {
        Some(status) => Ok(status),
        None => Err(ParseErrorView::InvalidFormat("unknown tx status"@)),
    }
}

/// Reads a kind by its upper-case name.
pub fn parse_kind(s: &[char]) -> (r: Result<TxType, ParseError>)
    ensures
        match r {
            Ok(kind) => kind_field(s@) == Ok::<TxType, ParseErrorView>(kind),
            Err(e) => kind_field(s@) == Err::<TxType, ParseErrorView>(e@),
        },
{
    if chars_match(s, "DEPOSIT") {
        Ok(TxType::Deposit)
    } else if chars_match(s, "TRANSFER") {
        Ok(TxType::Transfer)
    } else if chars_match(s, "WITHDRAWAL") {
        Ok(TxType::Withdrawal)
    } else {
        Err(invalid_format("unknown tx type"))
    }
}

/// Reads a status by its upper-case name.
pub fn parse_status(s: &[char]) -> (r: Result<TxStatus, ParseError>)
    ensures
        match r {
            Ok(status) => status_field(s@) == Ok::<TxStatus, ParseErrorView>(status),
            Err(e) => status_field(s@) == Err::<TxStatus, ParseErrorView>(e@),
        },
{
    if chars_match(s, "SUCCESS") {
        Ok(TxStatus::Success)
    } else if chars_match(s, "FAILURE") {
        Ok(TxStatus::Failure)
    } else if chars_match(s, "PENDING") {
        Ok(TxStatus::Pending)
    } else {
        Err(invalid_format("unknown tx status"))
    }
}

/// The transactions read so far, followed by what the rest of the input
/// gives: its transactions, or its error.
pub open spec fn after(
    done: Seq<TransactionView>,
    rest: Result<Seq<TransactionView>, ParseErrorView>,
) -> Result<Seq<TransactionView>, ParseErrorView> {
    match rest {
        Ok(more) => Ok(done + more),
        Err(e) => Err(e),
    }
}

/// The mathematical value of what a parser returns.
pub open spec fn parsed(r: Result<Vec<Transaction>, ParseError>) -> Result<
    Seq<TransactionView>,
    ParseErrorView,
> {
    match r {
        Ok(txs) => Ok(views(txs@)),
        Err(e) => Err(e@),
    }
}

/// The characters of each field.
pub open spec fn field_views(fields: Seq<Vec<char>>) -> Seq<Seq<char>> {
    fields.map_values(|field: Vec<char>| field@)
}

pub proof fn lemma_after_nothing(rest: Result<Seq<TransactionView>, ParseErrorView>)
    ensures
        after(Seq::empty(), rest) == rest,
{
    if let Ok(more) = rest {
        assert(Seq::<TransactionView>::empty() + more =~= more);
    }
}

pub proof fn lemma_after_one_more(
    done: Seq<TransactionView>,
    tx: TransactionView,
    rest: Result<Seq<TransactionView>, ParseErrorView>,
)
    ensures
        after(done, after(seq![tx], rest)) == after(done.push(tx), rest),
{
    if let Ok(more) = rest {
        assert(done + (seq![tx] + more) =~= done.push(tx) + more);
    }
}

pub proof fn lemma_after_after(
    a: Seq<TransactionView>,
    b: Seq<TransactionView>,
    rest: Result<Seq<TransactionView>, ParseErrorView>,
)
    ensures
        after(a, after(b, rest)) == after(a + b, rest),
{
    if let Ok(more) = rest {
        assert(a + (b + more) =~= (a + b) + more);
    }
}

/// A character of a name or a number: an upper-case letter, a digit or an
/// underscore.
pub open spec fn word_char(c: char) -> bool {
    ('A' <= c <= 'Z') || ('0' <= c <= '9') || c == '_'
}

/// A text of such characters, and of one at least.
pub open spec fn is_word(s: Seq<char>) -> bool {
    s.len() > 0 && forall|i: int| 0 <= i < s.len() ==> word_char(#[trigger] s[i])
}

/// A word stands for itself in every format: it holds no white space, quote,
/// comma, colon or line end.
pub proof fn lemma_word(s: Seq<char>)
    requires
        is_word(s),
    ensures
        trim(s) == s,
        one_line(s),
        forall|i: int|
            0 <= i < s.len() ==> (#[trigger] s[i]) != '"' && s[i] != ',' && s[i] != ':' && !is_space(
                s[i],
            ),
{
    assert forall|i: int| 0 <= i < s.len() implies (#[trigger] s[i]) != '"' && s[i] != ','
        && s[i] != ':' && s[i] != '\n' && !is_space(s[i]) by {
        assert(word_char(s[i]));
    }
    assert(!is_space(s[0]) && !is_space(s.last()));
    lemma_trim_fixed(s);
}

/// Each field name is a word, and no two of them are the same.
pub proof fn lemma_field_names()
    ensures
        forall|i: int| 0 <= i < FIELD_COUNT ==> is_word(#[trigger] field_name(i)),
        forall|i: int| 0 <= i < FIELD_COUNT ==> field_index(#[trigger] field_name(i)) == Some(i),
{
    reveal_strlit("TX_ID");
    reveal_strlit("TX_TYPE");
    reveal_strlit("FROM_USER_ID");
    reveal_strlit("TO_USER_ID");
    reveal_strlit("AMOUNT");
    reveal_strlit("TIMESTAMP");
    reveal_strlit("STATUS");
    reveal_strlit("DESCRIPTION");
    assert(is_word("TX_ID"@));
    assert(is_word("TX_TYPE"@));
    assert(is_word("FROM_USER_ID"@));
    assert(is_word("TO_USER_ID"@));
    assert(is_word("AMOUNT"@));
    assert(is_word("TIMESTAMP"@));
    assert(is_word("STATUS"@));
    assert(is_word("DESCRIPTION"@));
    assert("TX_ID"@.len() == 5);
    assert("TX_TYPE"@.len() == 7);
    assert("FROM_USER_ID"@.len() == 12);
    assert("TO_USER_ID"@.len() == 10);
    assert("AMOUNT"@.len() == 6);
    assert("TIMESTAMP"@.len() == 9);
    assert("STATUS"@[0] == 'S');
    assert("AMOUNT"@[0] == 'A');
    assert("DESCRIPTION"@.len() == 11);
    assert forall|i: int| 0 <= i < FIELD_COUNT implies is_word(#[trigger] field_name(i)) by {}
    assert forall|i: int| 0 <= i < FIELD_COUNT implies field_index(#[trigger] field_name(i))
        == Some(i) by {}
}

/// The name of a kind or of a status is a word that stands for it alone.
pub proof fn lemma_enum_names(kind: TxType, status: TxStatus)
    ensures
        is_word(kind.name()),
        is_word(status.name()),
        kind_field(kind.name()) == Ok::<TxType, ParseErrorView>(kind),
        status_field(status.name()) == Ok::<TxStatus, ParseErrorView>(status),
{
    reveal_strlit("DEPOSIT");
    reveal_strlit("TRANSFER");
    reveal_strlit("WITHDRAWAL");
    reveal_strlit("SUCCESS");
    reveal_strlit("FAILURE");
    reveal_strlit("PENDING");
    assert(is_word("DEPOSIT"@));
    assert(is_word("TRANSFER"@));
    assert(is_word("WITHDRAWAL"@));
    assert(is_word("SUCCESS"@));
    assert(is_word("FAILURE"@));
    assert(is_word("PENDING"@));
    assert("DEPOSIT"@.len() == 7);
    assert("TRANSFER"@.len() == 8);
    assert("WITHDRAWAL"@.len() == 10);
    assert("SUCCESS"@[0] == 'S');
    assert("FAILURE"@[0] == 'F');
    assert("PENDING"@[0] == 'P');
}

/// A number in decimal notation is a word that stands for the number.
pub proof fn lemma_decimal_word(n: u64)
    ensures
        is_word(decimal(n as nat)),
        number_field(decimal(n as nat)) == Ok::<u64, ParseErrorView>(n),
{
    lemma_decimal_digits(n as nat);
    lemma_read_decimal(n as nat);
}

impl core::str::FromStr for TxType {
    type Err = ParseError;

    /// Reads a kind by its upper-case name, as `parse_kind` does.
    fn from_str(s: &str) -> (r: Result<Self, ParseError>)
        ensures
            match r {
                Ok(kind) => kind_field(s@) == Ok::<TxType, ParseErrorView>(kind),
                Err(e) => kind_field(s@) == Err::<TxType, ParseErrorView>(e@),
            },
    {
        parse_kind(string_chars(s).as_slice())
    }
}

impl core::str::FromStr for TxStatus {
    type Err = ParseError;

    /// Reads a status by its upper-case name, as `parse_status` does.
    fn from_str(s: &str) -> (r: Result<Self, ParseError>)
        ensures
            match r {
                Ok(status) => status_field(s@) == Ok::<TxStatus, ParseErrorView>(status),
                Err(e) => status_field(s@) == Err::<TxStatus, ParseErrorView>(e@),
            },
    {
        parse_status(string_chars(s).as_slice())
    }
}

} // verus!
