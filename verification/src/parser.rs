//! One interface for the three formats: a format is chosen by a tag, and the
//! call goes to the functions of that format.

use vstd::prelude::*;
use crate::bin_format::{
    bin_decode, bin_encode, dump_as_bin, fits, fitting_prefix, lemma_fitting_prefix,
    parse_from_bin,
};
use crate::bin_proofs::lemma_bin_round_trip;
use crate::csv_format::{csv_decode, csv_encode, dump_as_csv, parse_from_csv};
use crate::csv_proofs::{csv_exact, lemma_csv_round_trip};
use crate::error::{DumpError, ParseError, ParseErrorView};
use crate::fields::parsed;
use crate::lines::one_line;
use crate::text_format::{dump_as_text, parse_from_text, text_decode, text_encode};
use crate::text_proofs::lemma_text_round_trip;
use crate::types::{SupportedFileFormat, Transaction, TransactionView, views};

verus! {

/// What a format's reader and writer do.
pub trait Parser {
    /// What the bytes hold in this format: the transactions, or the error of
    /// the first place where the bytes stray from the format.
    spec fn decoded(data: Seq<u8>) -> Result<Seq<TransactionView>, ParseErrorView>;

    /// The bytes of the transactions in this format.
    spec fn encoded(txs: Seq<TransactionView>) -> Seq<u8>;

    /// How many transactions from the first on the format can hold.
    spec fn writable(txs: Seq<TransactionView>) -> nat;

    /// Reads the transactions from the bytes.
    fn parse(data: &[u8]) -> (r: Result<Vec<Transaction>, ParseError>)
        ensures
            parsed(r) == Self::decoded(data@),
    ;

    /// Appends the transactions to the output. The first transaction that
    /// the format cannot hold ends the writing with an error; those before it
    /// are written.
    fn dump(writer: &mut Vec<u8>, transactions: &[Transaction]) -> (r: Result<(), DumpError>)
        ensures
            r is Ok <==> Self::writable(views(transactions@)) == transactions@.len(),
            r matches Err(e) ==> e == DumpError::InternalError,
            final(writer)@ == old(writer)@ + Self::encoded(
                views(transactions@).take(Self::writable(views(transactions@)) as int),
            ),
    ;
}

/// The CSV format.
pub struct CsvParser;

/// The binary format.
pub struct BinParser;

/// The text format.
pub struct TextParser;

impl Parser for CsvParser {
    open spec fn decoded(data: Seq<u8>) -> Result<Seq<TransactionView>, ParseErrorView> {
        csv_decode(data)
    }

    open spec fn encoded(txs: Seq<TransactionView>) -> Seq<u8> {
        csv_encode(txs)
    }

    open spec fn writable(txs: Seq<TransactionView>) -> nat {
        txs.len()
    }

    fn parse(data: &[u8]) -> (r: Result<Vec<Transaction>, ParseError>) {
        parse_from_csv(data)
    }

    fn dump(writer: &mut Vec<u8>, transactions: &[Transaction]) -> (r: Result<(), DumpError>) {
        proof {
            let all = views(transactions@);
            assert(all.take(all.len() as int) =~= all);
        }
        dump_as_csv(writer, transactions)
    }
}

impl Parser for BinParser {
    open spec fn decoded(data: Seq<u8>) -> Result<Seq<TransactionView>, ParseErrorView> {
        bin_decode(data)
    }

    open spec fn encoded(txs: Seq<TransactionView>) -> Seq<u8> {
        bin_encode(txs)
    }

    open spec fn writable(txs: Seq<TransactionView>) -> nat {
        fitting_prefix(txs)
    }

    fn parse(data: &[u8]) -> (r: Result<Vec<Transaction>, ParseError>) {
        parse_from_bin(data)
    }

    fn dump(writer: &mut Vec<u8>, transactions: &[Transaction]) -> (r: Result<(), DumpError>) {
        dump_as_bin(writer, transactions)
    }
}

impl Parser for TextParser {
    open spec fn decoded(data: Seq<u8>) -> Result<Seq<TransactionView>, ParseErrorView> {
        text_decode(data)
    }

    open spec fn encoded(txs: Seq<TransactionView>) -> Seq<u8> {
        text_encode(txs)
    }

    open spec fn writable(txs: Seq<TransactionView>) -> nat {
        txs.len()
    }

    fn parse(data: &[u8]) -> (r: Result<Vec<Transaction>, ParseError>) {
        parse_from_text(data)
    }

    fn dump(writer: &mut Vec<u8>, transactions: &[Transaction]) -> (r: Result<(), DumpError>) {
        proof {
            let all = views(transactions@);
            assert(all.take(all.len() as int) =~= all);
        }
        dump_as_text(writer, transactions)
    }
}

/// What the bytes hold in the given format.
pub open spec fn decoded(format: SupportedFileFormat, data: Seq<u8>) -> Result<
    Seq<TransactionView>,
    ParseErrorView,
> {
    match format {
        SupportedFileFormat::Csv => CsvParser::decoded(data),
        SupportedFileFormat::Bin => BinParser::decoded(data),
        SupportedFileFormat::Text => TextParser::decoded(data),
    }
}

/// The bytes of the transactions in the given format.
pub open spec fn encoded(format: SupportedFileFormat, txs: Seq<TransactionView>) -> Seq<u8> {
    match format {
        SupportedFileFormat::Csv => CsvParser::encoded(txs),
        SupportedFileFormat::Bin => BinParser::encoded(txs),
        SupportedFileFormat::Text => TextParser::encoded(txs),
    }
}

/// How many transactions from the first on the given format can hold: all of
/// them in the two text formats, and in the binary format those whose record
/// is not too long for the four bytes of its size.
pub open spec fn writable(format: SupportedFileFormat, txs: Seq<TransactionView>) -> nat {
    match format {
        SupportedFileFormat::Csv => CsvParser::writable(txs),
        SupportedFileFormat::Bin => BinParser::writable(txs),
        SupportedFileFormat::Text => TextParser::writable(txs),
    }
}

/// Reads the transactions that the bytes hold in the given format.
pub fn parse(data: &[u8], format: SupportedFileFormat) -> (r: Result<Vec<Transaction>, ParseError>)
    ensures
        parsed(r) == decoded(format, data@),
{
    match format {
        SupportedFileFormat::Csv => CsvParser::parse(data),
        SupportedFileFormat::Bin => BinParser::parse(data),
        SupportedFileFormat::Text => TextParser::parse(data),
    }
}

/// Appends the transactions to the output in the given format. The first
/// transaction that the format cannot hold ends the writing with an error;
/// those before it are written.
pub fn dump(writer: &mut Vec<u8>, format: SupportedFileFormat, transactions: &[Transaction]) -> (r:
    Result<(), DumpError>)
    ensures
        r is Ok <==> writable(format, views(transactions@)) == transactions@.len(),
        r matches Err(e) ==> e == DumpError::InternalError,
        final(writer)@ == old(writer)@ + encoded(
            format,
            views(transactions@).take(writable(format, views(transactions@)) as int),
        ),
{
    match format {
        SupportedFileFormat::Csv => CsvParser::dump(writer, transactions),
        SupportedFileFormat::Bin => BinParser::dump(writer, transactions),
        SupportedFileFormat::Text => TextParser::dump(writer, transactions),
    }
}

/// Where two lists of transactions first differ: the place, and what each
/// list holds there, if it is that long. Nothing where the lists are equal.
pub fn compare<'a>(lhs: &'a [Transaction], rhs: &'a [Transaction]) -> (r: Option<
    (usize, Option<&'a Transaction>, Option<&'a Transaction>),
>)
    ensures
        r is None <==> views(lhs@) == views(rhs@),
        r matches Some((i, l, r)) ==> {
            &&& views(lhs@).take(i as int) == views(rhs@).take(i as int)
            &&& i <= lhs@.len() && i <= rhs@.len()
            &&& l == (if i < lhs@.len() {
                Some(&lhs@[i as int])
            } else {
                None
            })
            &&& r == (if i < rhs@.len() {
                Some(&rhs@[i as int])
            } else {
                None
            })
            &&& (i < lhs@.len() && i < rhs@.len() ==> lhs@[i as int]@ != rhs@[i as int]@)
            &&& (i < lhs@.len() || i < rhs@.len())
        },
{
    let longest = if lhs.len() > rhs.len() { lhs.len() } else { rhs.len() };
    let mut i: usize = 0;
    while i < longest
        invariant
            i <= longest,
            longest == if lhs.len() > rhs.len() { lhs.len() } else { rhs.len() },
            i <= lhs.len() && i <= rhs.len(),
            forall|j: int| 0 <= j < i ==> lhs@[j]@ == rhs@[j]@,
        decreases longest - i,
    {
        let l = if i < lhs.len() { Some(&lhs[i]) } else { None };
        let r = if i < rhs.len() { Some(&rhs[i]) } else { None };
        let differ = match (l, r) {
            (Some(a), Some(b)) => !(a == b),
            _ => true,
        };
        if differ {
            proof {
                assert(views(lhs@).take(i as int) =~= views(rhs@).take(i as int));
                if views(lhs@) == views(rhs@) {
                    assert(views(lhs@).len() == views(rhs@).len());
                    assert(views(lhs@)[i as int] == views(rhs@)[i as int]);
                }
            }
            return Some((i, l, r));
        }
        i += 1;
    }
    proof {
        assert(views(lhs@) =~= views(rhs@));
    }
    None
}

/// What a format holds of a transaction without change. The binary format
/// holds every transaction whose record is not too long for the four bytes
/// of its size. The two text formats read line by line, so there a
/// description must be one line.
pub open spec fn exact(format: SupportedFileFormat, tx: TransactionView) -> bool {
    match format {
        SupportedFileFormat::Csv => csv_exact(tx),
        SupportedFileFormat::Bin => fits(tx),
        SupportedFileFormat::Text => one_line(tx.description),
    }
}

/// In each format, reading what was written from transactions gives the
/// transactions back, in their order and with every field as it was, as long
/// as the format holds each of them without change; and writing them
/// succeeds.
pub proof fn lemma_round_trip(format: SupportedFileFormat, txs: Seq<TransactionView>)
    requires
        forall|i: int| 0 <= i < txs.len() ==> exact(format, #[trigger] txs[i]),
    ensures
        writable(format, txs) == txs.len(),
        decoded(format, encoded(format, txs)) == Ok::<Seq<TransactionView>, ParseErrorView>(txs),
{
    match format {
        SupportedFileFormat::Csv => {
            assert forall|i: int| 0 <= i < txs.len() implies csv_exact(#[trigger] txs[i]) by {
                assert(exact(format, txs[i]));
            }
            lemma_csv_round_trip(txs);
        },
        SupportedFileFormat::Bin => {
            assert forall|i: int| 0 <= i < txs.len() implies fits(#[trigger] txs[i]) by {
                assert(exact(format, txs[i]));
            }
            lemma_bin_round_trip(txs);
            lemma_fitting_prefix(txs, txs.len() as int);
            assert(txs.skip(txs.len() as int) =~= Seq::<TransactionView>::empty());
        },
        SupportedFileFormat::Text => {
            assert forall|i: int| 0 <= i < txs.len() implies one_line(
                #[trigger] txs[i].description,
            ) by {
                assert(exact(format, txs[i]));
            }
            lemma_text_round_trip(txs);
        },
    }
}

} // verus!
