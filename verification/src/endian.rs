//! Unsigned integers as bytes, the most significant byte first.

use vstd::prelude::*;

verus! {

/// 256 to the power of `n`: how many values `n` bytes can hold.
pub open spec fn pow256(n: nat) -> nat
    decreases n,
{
    if n == 0 {
        1
    } else {
        256 * pow256((n - 1) as nat)
    }
}

/// The last `width` bytes of a number, the most significant byte first.
pub open spec fn be_bytes(v: nat, width: nat) -> Seq<u8>
    decreases width,
{
    if width == 0 {
        Seq::empty()
    } else {
        be_bytes(v / 256, (width - 1) as nat).push((v % 256) as u8)
    }
}

/// The number that bytes denote, the most significant byte first.
pub open spec fn be_value(bytes: Seq<u8>) -> nat
    decreases bytes.len(),
{
    if bytes.len() == 0 {
        0
    } else {
        be_value(bytes.drop_last()) * 256 + bytes.last() as nat
    }
}

pub proof fn lemma_pow256()
    ensures
        pow256(0) == 1,
        pow256(1) == 0x100,
        pow256(2) == 0x1_0000,
        pow256(3) == 0x100_0000,
        pow256(4) == 0x1_0000_0000,
        pow256(5) == 0x100_0000_0000,
        pow256(6) == 0x1_0000_0000_0000,
        pow256(7) == 0x100_0000_0000_0000,
        pow256(8) == 0x1_0000_0000_0000_0000,
{
    reveal_with_fuel(pow256, 9);
}

pub proof fn lemma_be_bytes_len(v: nat, width: nat)
    ensures
        be_bytes(v, width).len() == width,
    decreases width,
{
    if width > 0 {
        lemma_be_bytes_len(v / 256, (width - 1) as nat);
    }
}

/// Bytes denote a number below 256 to the power of their count.
pub proof fn lemma_be_value_bound(bytes: Seq<u8>)
    ensures
        be_value(bytes) < pow256(bytes.len()),
    decreases bytes.len(),
{
    if bytes.len() > 0 {
        lemma_be_value_bound(bytes.drop_last());
        let hi = be_value(bytes.drop_last());
        let p = pow256((bytes.len() - 1) as nat);
        let low = bytes.last() as nat;
        assert(hi * 256 + low < 256 * p) by (nonlinear_arith)
            requires
                hi < p,
                low < 256,
        ;
    }
}

/// The bytes of a number that fits in them denote the number.
pub proof fn lemma_be_value_of_bytes(v: nat, width: nat)
    requires
        v < pow256(width),
    ensures
        be_value(be_bytes(v, width)) == v,
    decreases width,
{
    if width > 0 {
        let bytes = be_bytes(v, width);
        let hi = be_bytes(v / 256, (width - 1) as nat);
        assert(bytes.drop_last() =~= hi);
        assert(v / 256 < pow256((width - 1) as nat)) by (nonlinear_arith)
            requires
                v < 256 * pow256((width - 1) as nat),
        ;
        lemma_be_value_of_bytes(v / 256, (width - 1) as nat);
        assert((v % 256) as u8 as nat == v % 256);
    } else {
        assert(v == 0);
    }
}

/// The last `width` bytes of the number, the most significant byte first.
pub fn be_encode(v: u64, width: usize) -> (r: Vec<u8>)
    ensures
        r@ == be_bytes(v as nat, width as nat),
{
    let mut buf: Vec<u8> = Vec::new();
    let mut k: usize = 0;
    while k < width
        invariant
            k <= width,
            buf.len() == k,
        decreases width - k,
    {
        buf.push(0);
        k += 1;
    }
    let mut rest: u64 = v;
    let mut i: usize = width;
    proof {
        assert(buf@.skip(width as int) =~= Seq::<u8>::empty());
        assert(be_bytes(v as nat, width as nat) + Seq::<u8>::empty() =~= be_bytes(
            v as nat,
            width as nat,
        ));
    }
    while i > 0
        invariant
            i <= width,
            buf.len() == width,
            be_bytes(v as nat, width as nat) == be_bytes(rest as nat, i as nat) + buf@.skip(
                i as int,
            ),
        decreases i,
    {
        let ghost before = buf@;
        i -= 1;
        let low = (rest % 256) as u8;
        buf.set(i, low);
        proof {
            assert(buf@.skip(i as int) =~= seq![low] + before.skip(i + 1));
            assert(be_bytes((rest / 256) as nat, i as nat).push(low) + before.skip(i + 1)
                =~= be_bytes((rest / 256) as nat, i as nat) + (seq![low] + before.skip(i + 1)));
        }
        rest = rest / 256;
    }
    proof {
        assert(buf@.skip(0) =~= buf@);
        assert(Seq::<u8>::empty() + buf@ =~= buf@);
    }
    buf
}

/// The number that the `width` bytes from `pos` on denote, the most
/// significant byte first.
pub fn be_decode(data: &[u8], pos: usize, width: usize) -> (r: u64)
    requires
        width <= 8,
        pos + width <= data.len(),
    ensures
        r == be_value(data@.subrange(pos as int, pos + width)),
{
    let mut acc: u64 = 0;
    let mut k: usize = 0;
    proof {
        lemma_pow256();
    }
    while k < width
        invariant
            k <= width <= 8,
            pos + width <= data.len(),
            acc == be_value(data@.subrange(pos as int, pos + k)),
            acc < pow256(k as nat),
        decreases width - k,
    {
        let byte = data[pos + k];
        proof {
            lemma_pow256();
            let next = data@.subrange(pos as int, pos + k + 1);
            assert(next.drop_last() =~= data@.subrange(pos as int, pos + k));
            assert(next.last() == byte);
            let p = pow256(k as nat);
            assert(acc * 256 + byte < 256 * p) by (nonlinear_arith)
                requires
                    acc < p,
                    byte < 256,
            ;
            assert(pow256(k as nat) <= pow256(7)) by {
                reveal_with_fuel(pow256, 9);
            }
        }
        acc = acc * 256 + byte as u64;
        k += 1;
    }
    acc
}

} // verus!
