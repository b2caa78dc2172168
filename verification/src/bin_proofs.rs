//! What holds of the binary format: reading what was written gives the
//! transactions back, and a stream that strays from the format is refused.

use vstd::prelude::*;
use vstd::utf8::encode_utf8;
use crate::bin_format::{
    bin_decode, bin_encode, body_bytes, body_record, fits, header_at, magic_bytes, record_size,
    MIN_RECORD_SIZE,
};
use crate::endian::{be_bytes, be_value, lemma_be_bytes_len, lemma_be_value_of_bytes, lemma_pow256};
use crate::error::ParseErrorView;
use crate::types::{TransactionView, TxStatus, TxType};

verus! {

/// The body of a record holds the fixed fields and the description: 46 bytes
/// and the bytes of the description.
pub proof fn lemma_body_len(tx: TransactionView)
    ensures
        body_bytes(tx).len() == record_size(tx),
{
    lemma_be_bytes_len(tx.id as nat, 8);
    lemma_be_bytes_len(tx.from_user as nat, 8);
    lemma_be_bytes_len(tx.to_user as nat, 8);
    lemma_be_bytes_len(tx.amount as nat, 8);
    lemma_be_bytes_len(tx.timestamp as nat, 8);
    lemma_be_bytes_len(encode_utf8(tx.description).len(), 4);
}

/// Reading the body of a transaction's record gives the transaction back.
pub proof fn lemma_body_round_trip(tx: TransactionView)
    requires
        fits(tx),
    ensures
        body_record(body_bytes(tx)) == Ok::<TransactionView, ParseErrorView>(tx),
{
    let body = body_bytes(tx);
    let text = encode_utf8(tx.description);
    lemma_body_len(tx);
    lemma_pow256();
    lemma_be_bytes_len(tx.id as nat, 8);
    lemma_be_bytes_len(tx.from_user as nat, 8);
    lemma_be_bytes_len(tx.to_user as nat, 8);
    lemma_be_bytes_len(tx.amount as nat, 8);
    lemma_be_bytes_len(tx.timestamp as nat, 8);
    lemma_be_bytes_len(text.len(), 4);
    assert(body.subrange(0, 8) =~= be_bytes(tx.id as nat, 8));
    assert(body[8] == tx.kind.code());
    assert(body.subrange(9, 17) =~= be_bytes(tx.from_user as nat, 8));
    assert(body.subrange(17, 25) =~= be_bytes(tx.to_user as nat, 8));
    assert(body.subrange(25, 33) =~= be_bytes(tx.amount as nat, 8));
    assert(body.subrange(33, 41) =~= be_bytes(tx.timestamp as nat, 8));
    assert(body[41] == tx.status.code());
    assert(body.subrange(42, 46) =~= be_bytes(text.len(), 4));
    assert(body.skip(46) =~= text);
    lemma_be_value_of_bytes(tx.id as nat, 8);
    lemma_be_value_of_bytes(tx.from_user as nat, 8);
    lemma_be_value_of_bytes(tx.to_user as nat, 8);
    lemma_be_value_of_bytes(tx.amount as nat, 8);
    lemma_be_value_of_bytes(tx.timestamp as nat, 8);
    lemma_be_value_of_bytes(text.len(), 4);
    vstd::utf8::encode_utf8_valid_utf8(tx.description);
    vstd::utf8::encode_utf8_decode_utf8(tx.description);
    assert(TxType::of_code(tx.kind.code()) == Some(tx.kind));
    assert(TxStatus::of_code(tx.status.code()) == Some(tx.status));
}

/// Reading a binary stream that was written from transactions gives the
/// transactions back, in their order and with every field as it was, as long
/// as each of them fits the format.
pub proof fn lemma_bin_round_trip(txs: Seq<TransactionView>)
    requires
        forall|i: int| 0 <= i < txs.len() ==> fits(#[trigger] txs[i]),
    ensures
        bin_decode(bin_encode(txs)) == Ok::<Seq<TransactionView>, ParseErrorView>(txs),
    decreases txs.len(),
{
    if txs.len() == 0 {
        assert(txs =~= Seq::<TransactionView>::empty());
    } else {
        let tx = txs[0];
        let rest = txs.drop_first();
        let size = record_size(tx) as int;
        let data = bin_encode(txs);
        assert(fits(tx));
        assert forall|i: int| 0 <= i < rest.len() implies fits(#[trigger] rest[i]) by {
            assert(rest[i] == txs[i + 1]);
        }
        lemma_bin_round_trip(rest);
        lemma_body_len(tx);
        lemma_body_round_trip(tx);
        lemma_pow256();
        lemma_be_bytes_len(size as nat, 4);
        lemma_be_value_of_bytes(size as nat, 4);
        assert(data.take(4) =~= magic_bytes());
        assert(data.subrange(4, 8) =~= be_bytes(size as nat, 4));
        assert(data.subrange(8, 8 + size) =~= body_bytes(tx));
        assert(data.skip(8 + size) =~= bin_encode(rest));
        assert(header_at(data) == Ok::<Option<u32>, ParseErrorView>(Some(size as u32)));
        assert(seq![tx] + rest =~= txs);
    }
}

/// A stream that begins with other bytes than the magic ones is a format
/// violation, whatever follows.
pub proof fn lemma_bin_magic_is_checked(data: Seq<u8>)
    requires
        data.len() > 0,
        data.len() < 4 || data.take(4) != magic_bytes(),
    ensures
        bin_decode(data) is Err,
        bin_decode(data)->Err_0 is InvalidFormat,
{
}

/// A header with a size below that of the fixed fields is a format
/// violation, whatever follows it: the body is not looked at.
pub proof fn lemma_bin_small_size_is_refused(data: Seq<u8>, size: u32)
    requires
        header_at(data) == Ok::<Option<u32>, ParseErrorView>(Some(size)),
        size < MIN_RECORD_SIZE,
    ensures
        bin_decode(data) == Err::<Seq<TransactionView>, ParseErrorView>(
            ParseErrorView::InvalidFormat("mailformed record. record size too small"@),
        ),
{
}

/// A record whose size is not that of the fixed fields and of the description
/// length that it states is a format violation, whatever its description
/// holds and whatever follows it.
pub proof fn lemma_bin_size_is_checked(data: Seq<u8>, size: u32)
    requires
        header_at(data) == Ok::<Option<u32>, ParseErrorView>(Some(size)),
        size >= MIN_RECORD_SIZE,
        data.len() >= 8 + size,
        size != MIN_RECORD_SIZE + be_value(data.subrange(50, 54)),
    ensures
        bin_decode(data) is Err,
        bin_decode(data)->Err_0 is InvalidFormat,
{
    let body = data.subrange(8, 8 + size);
    assert(body.subrange(42, 46) =~= data.subrange(50, 54));
}

} // verus!
