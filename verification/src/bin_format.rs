//! The binary format: for each transaction a header of eight bytes, then a
//! body of fixed-width fields and the bytes of the description.

use vstd::prelude::*;
use vstd::slice::{slice_subrange, slice_to_vec};
use vstd::string::StringSliceAdditionalSpecFns;
use vstd::utf8::{decode_utf8, encode_utf8, valid_utf8};
use crate::endian::{be_bytes, be_decode, be_encode, be_value, lemma_be_value_bound, lemma_pow256};
use crate::error::{invalid_format, io_error, DumpError, ParseError, ParseErrorView};
use crate::fields::{after, lemma_after_nothing, lemma_after_one_more, parsed};
use crate::types::{Transaction, TransactionView, TxStatus, TxType, views};
use crate::utils::{string_from_utf8, write_bytes};

verus! {

/// The four bytes that open each record: `YPBN`.
pub const MAGIC: [u8; 4] = [0x59, 0x50, 0x42, 0x4E];

/// The size of a record without its description: the fixed fields after the
/// header.
pub const MIN_RECORD_SIZE: u32 = 46;

/// How many bytes a header takes.
pub const HEADER_SIZE: usize = 8;

/// The four bytes that open each record.
pub open spec fn magic_bytes() -> Seq<u8> {
    seq![0x59u8, 0x50u8, 0x42u8, 0x4Eu8]
}

/// The message of a read that ran out of bytes.
pub open spec fn short_message() -> Seq<char> {
    "failed to fill whole buffer"@
}

/// What stands at the start of the rest of the input: nothing at its very
/// end, else a header with the size of the record that follows it. Fewer
/// bytes than a header takes, or other bytes than the magic ones, are an
/// error.
pub open spec fn header_at(rest: Seq<u8>) -> Result<Option<u32>, ParseErrorView> {
    if rest.len() == 0 {
        Ok(None)
    } else if rest.len() < 4 {
        Err(ParseErrorView::InvalidFormat(short_message()))
    } else if rest.take(4) != magic_bytes() {
        Err(ParseErrorView::InvalidFormat("invalid magic"@))
    } else if rest.len() < 8 {
        Err(ParseErrorView::InvalidFormat(short_message()))
    } else {
        Ok(Some(be_value(rest.subrange(4, 8)) as u32))
    }
}

/// The transaction that the body of a record denotes. The body is as long as
/// its header said, and holds the fixed fields at least. The fields are read
/// in their order: an unknown kind or status, a description of another length
/// than the record's size leaves for it, and a description that is not UTF-8
/// are errors, the first of them the one that is returned.
pub open spec fn body_record(body: Seq<u8>) -> Result<TransactionView, ParseErrorView> {
    let desc_len = be_value(body.subrange(42, 46));
    let desc = body.skip(46);
    match TxType::of_code(body[8]) {
        None => Err(ParseErrorView::InvalidFormat("Invalid TxType"@)),
        Some(kind) => match TxStatus::of_code(body[41]) {
            None => Err(ParseErrorView::InvalidFormat("unexpected TxType"@)),
            Some(status) => if body.len() != MIN_RECORD_SIZE + desc_len {
                Err(ParseErrorView::InvalidFormat("mailformed record. record size mismatch"@))
            } else if !valid_utf8(desc) {
                Err(ParseErrorView::IOError("Invalid UTF-8"@))
            } else {
                Ok(
                    TransactionView {
                        id: be_value(body.subrange(0, 8)) as u64,
                        kind,
                        from_user: be_value(body.subrange(9, 17)) as u64,
                        to_user: be_value(body.subrange(17, 25)) as u64,
                        amount: be_value(body.subrange(25, 33)) as u64,
                        timestamp: be_value(body.subrange(33, 41)) as u64,
                        status,
                        description: decode_utf8(desc),
                    },
                )
            },
        },
    }
}

/// What a binary stream holds: one transaction for each record, until the
/// input ends where a header would begin. A size below that of the fixed
/// fields is refused before the body is looked at, and a body shorter than
/// its size is an error too.
pub open spec fn bin_decode(data: Seq<u8>) -> Result<Seq<TransactionView>, ParseErrorView>
    decreases data.len(),
{
    match header_at(data) {
        Err(e) => Err(e),
        Ok(None) => Ok(Seq::empty()),
        Ok(Some(size)) => if size < MIN_RECORD_SIZE {
            Err(ParseErrorView::InvalidFormat("mailformed record. record size too small"@))
        } else if data.len() - 8 < size {
            Err(ParseErrorView::IOError(short_message()))
        } else {
            match body_record(data.subrange(8, 8 + size)) {
                Err(e) => Err(e),
                Ok(tx) => after(seq![tx], bin_decode(data.skip(8 + size))),
            }
        },
    }
}

/// The body of a record: the fixed fields, then the bytes of the
/// description. The length of the description is written in four bytes.
pub open spec fn body_bytes(tx: TransactionView) -> Seq<u8> {
    be_bytes(tx.id as nat, 8) + seq![tx.kind.code()] + be_bytes(tx.from_user as nat, 8) + be_bytes(
        tx.to_user as nat,
        8,
    ) + be_bytes(tx.amount as nat, 8) + be_bytes(tx.timestamp as nat, 8) + seq![tx.status.code()]
        + be_bytes(encode_utf8(tx.description).len(), 4) + encode_utf8(tx.description)
}

/// The size of the body of a record.
pub open spec fn record_size(tx: TransactionView) -> nat {
    MIN_RECORD_SIZE as nat + encode_utf8(tx.description).len()
}

/// Whether the size of the record can be written in the four bytes that the
/// header has for it.
pub open spec fn fits(tx: TransactionView) -> bool {
    record_size(tx) <= u32::MAX
}

/// The bytes of a header: the magic bytes, then the size in four bytes.
pub open spec fn header_bytes(size: u32) -> Seq<u8> {
    magic_bytes() + be_bytes(size as nat, 4)
}

/// The bytes of a record: its header, then its body.
pub open spec fn record_bytes(tx: TransactionView) -> Seq<u8> {
    header_bytes(record_size(tx) as u32) + body_bytes(tx)
}

/// The bytes of a binary stream: the records, one after the other.
pub open spec fn bin_encode(txs: Seq<TransactionView>) -> Seq<u8>
    decreases txs.len(),
{
    if txs.len() == 0 {
        Seq::empty()
    } else {
        record_bytes(txs[0]) + bin_encode(txs.drop_first())
    }
}

/// How many transactions from the first on fit the format.
pub open spec fn fitting_prefix(txs: Seq<TransactionView>) -> nat
    decreases txs.len(),
{
    if txs.len() == 0 || !fits(txs[0]) {
        0
    } else {
        1 + fitting_prefix(txs.drop_first())
    }
}

/// The four bytes from `pos` on.
fn read_magic(data: &[u8], pos: usize) -> (r: [u8; 4])
    requires
        pos + 4 <= data.len(),
    ensures
        r@ == data@.subrange(pos as int, pos + 4),
{
    let r = [data[pos], data[pos + 1], data[pos + 2], data[pos + 3]];
    assert(r@ =~= data@.subrange(pos as int, pos + 4));
    r
}

/// The number in the four bytes from `pos` on.
fn read_u32(data: &[u8], pos: usize) -> (r: u32)
    requires
        pos + 4 <= data.len(),
    ensures
        r == be_value(data@.subrange(pos as int, pos + 4)),
{
    proof {
        lemma_be_value_bound(data@.subrange(pos as int, pos + 4));
        lemma_pow256();
    }
    be_decode(data, pos, 4) as u32
}

/// The number in the eight bytes from `pos` on.
fn read_u64(data: &[u8], pos: usize) -> (r: u64)
    requires
        pos + 8 <= data.len(),
    ensures
        r == be_value(data@.subrange(pos as int, pos + 8)),
{
    be_decode(data, pos, 8)
}

/// The text in the `size` bytes from `pos` on, which must be UTF-8.
fn read_string(size: usize, data: &[u8], pos: usize) -> (r: Result<String, ParseError>)
    requires
        pos + size <= data.len(),
    ensures
        match r {
            Ok(s) => valid_utf8(data@.subrange(pos as int, pos + size)) && s@ == decode_utf8(
                data@.subrange(pos as int, pos + size),
            ),
            Err(e) => !valid_utf8(data@.subrange(pos as int, pos + size)) && e@
                == ParseErrorView::IOError("Invalid UTF-8"@),
        },
{
    let bytes = slice_to_vec(slice_subrange(data, pos, pos + size));
    match string_from_utf8(bytes) {
        Some(s) => {
            proof {
                vstd::utf8::encode_utf8_decode_utf8(s@);
            }
            Ok(s)
        },
        None => Err(io_error("Invalid UTF-8")),
    }
}

/// The kind in the byte at `pos`.
fn read_tx_type(data: &[u8], pos: usize) -> (r: Result<TxType, ParseError>)
    requires
        pos < data.len(),
    ensures
        match r {
            Ok(kind) => TxType::of_code(data@[pos as int]) == Some(kind),
            Err(e) => TxType::of_code(data@[pos as int]) is None && e@
                == ParseErrorView::InvalidFormat("Invalid TxType"@),
        },
{
    match TxType::from_code(data[pos]) {
        Some(kind) => Ok(kind),
        None => Err(invalid_format("Invalid TxType")),
    }
}

/// The status in the byte at `pos`.
fn read_tx_status(data: &[u8], pos: usize) -> (r: Result<TxStatus, ParseError>)
    requires
        pos < data.len(),
    ensures
        match r {
            Ok(status) => TxStatus::of_code(data@[pos as int]) == Some(status),
            Err(e) => TxStatus::of_code(data@[pos as int]) is None && e@
                == ParseErrorView::InvalidFormat("unexpected TxType"@),
        },
{
    match TxStatus::from_code(data[pos]) {
        Some(status) => Ok(status),
        None => Err(invalid_format("unexpected TxType")),
    }
}

/// The header of a record.
pub struct Header {
    pub magic: [u8; 4],
    pub record_size: u32,
}

impl Header {
    /// Reads the header at the start of the rest of the input. At the very
    /// end of the input there is none.
    pub fn read(data: &[u8]) -> (r: Result<Option<Header>, ParseError>)
        ensures
            match r {
                Ok(None) => header_at(data@) == Ok::<Option<u32>, ParseErrorView>(None),
                Ok(Some(header)) => header_at(data@) == Ok::<Option<u32>, ParseErrorView>(
                    Some(header.record_size),
                ) && header.magic@ == magic_bytes(),
                Err(e) => header_at(data@) == Err::<Option<u32>, ParseErrorView>(e@),
            },
    {
        if data.len() == 0 {
            return Ok(None);
        }
        if data.len() < 4 {
            return Err(invalid_format("failed to fill whole buffer"));
        }
        let magic = read_magic(data, 0);
        proof {
            assert(data@.subrange(0, 4) =~= data@.take(4));
            assert(MAGIC@ =~= magic_bytes());
        }
        if !(magic[0] == MAGIC[0] && magic[1] == MAGIC[1] && magic[2] == MAGIC[2] && magic[3]
            == MAGIC[3]) {
            assert(magic@ != magic_bytes());
            return Err(invalid_format("invalid magic"));
        }
        assert(magic@ =~= magic_bytes());
        if data.len() < 8 {
            return Err(invalid_format("failed to fill whole buffer"));
        }
        let record_size = read_u32(data, 4);
        Ok(Some(Header { magic, record_size }))
    }

    /// The header of a record of the given size.
    pub fn new(size: u32) -> (r: Self)
        ensures
            r.magic@ == magic_bytes(),
            r.record_size == size,
    {
        proof {
            assert(MAGIC@ =~= magic_bytes());
        }
        Header { magic: MAGIC, record_size: size }
    }

    /// The eight bytes of the header.
    pub fn dump(&self) -> (r: Vec<u8>)
        ensures
            r@ == self.magic@ + be_bytes(self.record_size as nat, 4),
    {
        let mut res: Vec<u8> = Vec::with_capacity(Header::sizeof());
        write_bytes(&mut res, self.magic.as_slice());
        let size = be_encode(self.record_size as u64, 4);
        write_bytes(&mut res, size.as_slice());
        assert(res@ =~= self.magic@ + be_bytes(self.record_size as nat, 4));
        res
    }

    /// How many bytes a header takes.
    pub fn sizeof() -> (r: usize)
        ensures
            r == HEADER_SIZE,
    {
        HEADER_SIZE
    }
}

/// Reads the transaction in the body of a record. `full_record_size` is the
/// size that the header gave.
fn read_tx(body: &[u8], full_record_size: u32) -> (r: Result<Transaction, ParseError>)
    requires
        body.len() == full_record_size,
        full_record_size >= MIN_RECORD_SIZE,
    ensures
        match r {
            Ok(tx) => body_record(body@) == Ok::<TransactionView, ParseErrorView>(tx@),
            Err(e) => body_record(body@) == Err::<TransactionView, ParseErrorView>(e@),
        },
{
    let id = read_u64(body, 0);
    let kind = read_tx_type(body, 8)?;
    let from_user = read_u64(body, 9);
    let to_user = read_u64(body, 17);
    let amount = read_u64(body, 25);
    let timestamp = read_u64(body, 33);
    let status = read_tx_status(body, 41)?;
    let desc_len = read_u32(body, 42);
    if full_record_size as u64 != MIN_RECORD_SIZE as u64 + desc_len as u64 {
        return Err(invalid_format("mailformed record. record size mismatch"));
    }
    proof {
        assert(body@.subrange(46, 46 + desc_len) =~= body@.skip(46));
    }
    let description = read_string(desc_len as usize, body, 46)?;
    Ok(Transaction { id, kind, from_user, to_user, amount, timestamp, status, description })
}

/// Reads a binary stream: one transaction for each record, until the input
/// ends where a header would begin.
pub fn parse_from_bin(data: &[u8]) -> (r: Result<Vec<Transaction>, ParseError>)
    ensures
        parsed(r) == bin_decode(data@),
{
    let mut result: Vec<Transaction> = Vec::new();
    let mut pos: usize = 0;
    proof {
        assert(data@.skip(0) =~= data@);
        assert(views(result@) =~= Seq::<TransactionView>::empty());
        lemma_after_nothing(bin_decode(data@));
    }
    loop
        invariant
            pos <= data.len(),
            bin_decode(data@) == after(views(result@), bin_decode(data@.skip(pos as int))),
        decreases data.len() - pos,
    {
        let rest = slice_subrange(data, pos, data.len());
        proof {
            assert(rest@ =~= data@.skip(pos as int));
        }
        match Header::read(rest) {
            Ok(Some(header)) => {
                if header.record_size < MIN_RECORD_SIZE {
                    return Err(invalid_format("mailformed record. record size too small"));
                }
                if rest.len() - 8 < header.record_size as usize {
                    return Err(io_error("failed to fill whole buffer"));
                }
                let size = header.record_size as usize;
                let buf = slice_subrange(rest, 8, 8 + size);
                let tx = read_tx(buf, header.record_size)?;
                proof {
                    assert(rest@.skip(8 + size) =~= data@.skip(pos + 8 + size));
                    lemma_after_one_more(
                        views(result@),
                        tx@,
                        bin_decode(data@.skip(pos + 8 + size)),
                    );
                    assert(views(result@.push(tx)) =~= views(result@).push(tx@));
                }
                result.push(tx);
                pos = pos + 8 + size;
            },
            Ok(None) => {
                proof {
                    assert(views(result@) + Seq::<TransactionView>::empty() =~= views(result@));
                }
                return Ok(result);
            },
            Err(err) => {
                return Err(err);
            },
        }
    }
}

/// The size of the fixed fields and the description, without the four bytes
/// that hold the description's length.
pub fn sizeof_tx(tx: &Transaction) -> (r: usize)
    requires
        record_size(tx@) <= usize::MAX,
    ensures
        r == record_size(tx@) - 4,
{
    42 + tx.description.as_str().as_bytes().len()
}

/// The size of the body of the transaction's record.
pub fn calculate_size(tx: &Transaction) -> (r: usize)
    requires
        record_size(tx@) <= usize::MAX,
    ensures
        r == record_size(tx@),
{
    let mut result: usize = 0;
    result += sizeof_tx(tx);
    result += 4;
    result
}

/// The body of the transaction's record.
pub fn dump_tx(tx: &Transaction) -> (r: Vec<u8>)
    ensures
        r@ == body_bytes(tx@),
{
    let mut res: Vec<u8> = Vec::new();
    let description = tx.description.as_str();
    assert(description.spec_bytes() == encode_utf8(tx@.description));
    write_bytes(&mut res, be_encode(tx.id, 8).as_slice());
    res.push(tx.kind.to_code());
    write_bytes(&mut res, be_encode(tx.from_user, 8).as_slice());
    write_bytes(&mut res, be_encode(tx.to_user, 8).as_slice());
    write_bytes(&mut res, be_encode(tx.amount, 8).as_slice());
    write_bytes(&mut res, be_encode(tx.timestamp, 8).as_slice());
    res.push(tx.status.to_code());
    let text = description.as_bytes();
    write_bytes(&mut res, be_encode(text.len() as u64, 4).as_slice());
    write_bytes(&mut res, text);
    assert(res@ =~= body_bytes(tx@));
    res
}

/// The record of the transaction: its header, then its body.
pub fn tx_to_bin(tx: &Transaction) -> (r: Vec<u8>)
    requires
        fits(tx@),
    ensures
        r@ == record_bytes(tx@),
{
    let tx_bytes_size = calculate_size(tx);
    let mut result: Vec<u8> = Vec::with_capacity(tx_bytes_size);
    let raw_header = Header::new(tx_bytes_size as u32).dump();
    let raw_tx = dump_tx(tx);
    write_bytes(&mut result, raw_header.as_slice());
    write_bytes(&mut result, raw_tx.as_slice());
    result
}

pub proof fn lemma_bin_encode_push(txs: Seq<TransactionView>, tx: TransactionView)
    ensures
        bin_encode(txs.push(tx)) == bin_encode(txs) + record_bytes(tx),
    decreases txs.len(),
{
    let all = txs.push(tx);
    if txs.len() == 0 {
        assert(all.drop_first() =~= txs);
        assert(bin_encode(all) =~= bin_encode(txs) + record_bytes(tx));
    } else {
        assert(all.drop_first() =~= txs.drop_first().push(tx));
        lemma_bin_encode_push(txs.drop_first(), tx);
        assert(bin_encode(all) =~= bin_encode(txs) + record_bytes(tx));
    }
}

/// The transactions before place `i` all fit: the count of those that fit
/// from the first on goes on from `i`.
pub proof fn lemma_fitting_prefix(txs: Seq<TransactionView>, i: int)
    requires
        0 <= i <= txs.len(),
        forall|j: int| 0 <= j < i ==> fits(#[trigger] txs[j]),
    ensures
        fitting_prefix(txs) == i + fitting_prefix(txs.skip(i)),
    decreases i,
{
    if i == 0 {
        assert(txs.skip(0) =~= txs);
    } else {
        let rest = txs.drop_first();
        assert(fits(txs[0]));
        assert forall|j: int| 0 <= j < i - 1 implies fits(#[trigger] rest[j]) by {
            assert(rest[j] == txs[j + 1]);
        }
        lemma_fitting_prefix(rest, i - 1);
        assert(rest.skip(i - 1) =~= txs.skip(i));
    }
}

/// Writes the transactions as a binary stream, one record after the other.
/// A transaction whose record is too long for the four bytes of its size
/// ends the writing with an error; the records of the transactions before it
/// are written.
pub fn dump_as_bin(writer: &mut Vec<u8>, transactions: &[Transaction]) -> (r: Result<
    (),
    DumpError,
>)
    ensures
        r is Ok <==> fitting_prefix(views(transactions@)) == transactions@.len(),
        r matches Err(e) ==> e == DumpError::InternalError,
        final(writer)@ == old(writer)@ + bin_encode(
            views(transactions@).take(fitting_prefix(views(transactions@)) as int),
        ),
{
    let ghost all = views(transactions@);
    let mut i: usize = 0;
    proof {
        assert(all.take(0) =~= Seq::<TransactionView>::empty());
        assert(old(writer)@ + bin_encode(all.take(0)) =~= old(writer)@);
    }
    while i < transactions.len()
        invariant
            i <= transactions.len(),
            all == views(transactions@),
            forall|j: int| 0 <= j < i ==> fits(#[trigger] all[j]),
            writer@ == old(writer)@ + bin_encode(all.take(i as int)),
        decreases transactions.len() - i,
    {
        let tx = &transactions[i];
        proof {
            lemma_fitting_prefix(all, i as int);
            assert(all.skip(i as int)[0] == tx@);
        }
        let description = tx.description.as_str();
        assert(description.spec_bytes() == encode_utf8(tx@.description));
        if description.as_bytes().len() > (u32::MAX - MIN_RECORD_SIZE) as usize {
            return Err(DumpError::InternalError);
        }
        assert(fits(tx@));
        let record = tx_to_bin(tx);
        write_bytes(writer, record.as_slice());
        proof {
            assert(all.take(i + 1) =~= all.take(i as int).push(tx@));
            lemma_bin_encode_push(all.take(i as int), tx@);
            assert(old(writer)@ + bin_encode(all.take(i as int)) + record_bytes(tx@) =~= old(
                writer,
            )@ + (bin_encode(all.take(i as int)) + record_bytes(tx@)));
        }
        i += 1;
    }
    proof {
        lemma_fitting_prefix(all, i as int);
        assert(all.skip(i as int) =~= Seq::<TransactionView>::empty());
        assert(all.take(i as int) =~= all);
    }
    Ok(())
}

} // verus!
