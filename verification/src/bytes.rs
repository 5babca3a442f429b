//! Little-endian byte primitives for the snapshot codec: fixed-width
//! integers as byte strings, with encoding and decoding proved inverse.

use vstd::prelude::*;

use crate::errors::DecodeError;

verus! {

/// 256 to the power `n`: the number of values `n` bytes can hold.
pub open spec fn pow256(n: nat) -> int
    decreases n,
{
    if n == 0 {
        1
    } else {
        256 * pow256((n - 1) as nat)
    }
}

/// A nonnegative integer below `pow256(n)` as `n` bytes, least significant
/// first.
pub open spec fn enc_le(x: int, n: nat) -> Seq<u8>
    decreases n,
{
    if n == 0 {
        Seq::empty()
    } else {
        seq![(x % 256) as u8] + enc_le(x / 256, (n - 1) as nat)
    }
}

/// The integer a little-endian byte string stands for.
pub open spec fn dec_le(b: Seq<u8>) -> int
    decreases b.len(),
{
    if b.len() == 0 {
        0
    } else {
        b[0] + 256 * dec_le(b.drop_first())
    }
}

/// The byte string `e` stands at position `pos` of the buffer `b`.
pub open spec fn has_enc(b: Seq<u8>, pos: int, e: Seq<u8>) -> bool {
    &&& 0 <= pos
    &&& pos + e.len() <= b.len()
    &&& b.subrange(pos, pos + e.len()) == e
}

/// An encoding is as long as was asked for.
pub broadcast proof fn lemma_enc_le_len(x: int, n: nat)
    ensures
        (#[trigger] enc_le(x, n)).len() == n,
    decreases n,
{
    if n > 0 {
        lemma_enc_le_len(x / 256, (n - 1) as nat);
    }
}

/// Decoding inverts encoding.
pub proof fn lemma_dec_enc_le(x: int, n: nat)
    requires
        0 <= x < pow256(n),
    ensures
        dec_le(enc_le(x, n)) == x,
    decreases n,
{
    if n > 0 {
        assert(enc_le(x, n).drop_first() =~= enc_le(x / 256, (n - 1) as nat));
        assert(256 * (x / 256) + x % 256 == x);
        assert(x / 256 < pow256((n - 1) as nat));
        lemma_dec_enc_le(x / 256, (n - 1) as nat);
    }
}

/// Encoding inverts decoding: a byte string is the encoding of its value.
pub proof fn lemma_enc_dec_le(b: Seq<u8>)
    ensures
        enc_le(dec_le(b), b.len()) == b,
    decreases b.len(),
{
    if b.len() == 0 {
        assert(enc_le(dec_le(b), b.len()) =~= b);
    } else {
        let t = dec_le(b.drop_first());
        lemma_dec_le_bound(b.drop_first());
        assert((b[0] + 256 * t) % 256 == b[0]);
        assert((b[0] + 256 * t) / 256 == t);
        lemma_enc_dec_le(b.drop_first());
        assert(enc_le(dec_le(b), b.len()) =~= b);
    }
}

/// A byte string's value is nonnegative and below `pow256` of its length.
pub proof fn lemma_dec_le_bound(b: Seq<u8>)
    ensures
        0 <= dec_le(b) < pow256(b.len()),
    decreases b.len(),
{
    if b.len() > 0 {
        lemma_dec_le_bound(b.drop_first());
    }
}

/// Concrete values of `pow256` up to eight bytes.
pub proof fn lemma_pow256_values()
    ensures
        pow256(1) == 0x100,
        pow256(2) == 0x10000,
        pow256(8) == 0x10000000000000000,
{
    reveal_with_fuel(pow256, 9);
}

/// `pow256` is positive.
pub proof fn lemma_pow256_pos(n: nat)
    ensures
        pow256(n) >= 1,
    decreases n,
{
    if n > 0 {
        lemma_pow256_pos((n - 1) as nat);
    }
}

/// `pow256` grows with its argument.
pub proof fn lemma_pow256_le(m: nat, n: nat)
    requires
        m <= n,
    ensures
        pow256(m) <= pow256(n),
    decreases n,
{
    if m < n && n > 0 {
        lemma_pow256_le(m, (n - 1) as nat);
        lemma_pow256_pos((n - 1) as nat);
    }
}

/// A concatenation stands at `pos` exactly when its first part stands at
/// `pos` and its second right after.
pub proof fn lemma_has_enc_split(b: Seq<u8>, pos: int, e1: Seq<u8>, e2: Seq<u8>)
    ensures
        has_enc(b, pos, e1 + e2) <==> (has_enc(b, pos, e1) && has_enc(
            b,
            pos + e1.len(),
            e2,
        )),
{
    let l1 = e1.len() as int;
    let l2 = e2.len() as int;
    if has_enc(b, pos, e1 + e2) {
        assert forall|i: int| 0 <= i < l1 implies b.subrange(pos, pos + l1)[i] == e1[i] by {
            assert(b.subrange(pos, pos + l1 + l2)[i] == b[pos + i]);
            assert((e1 + e2)[i] == e1[i]);
        }
        assert(b.subrange(pos, pos + l1) =~= e1);
        assert forall|i: int| 0 <= i < l2 implies b.subrange(pos + l1, pos + l1 + l2)[i] == e2[i]
        by {
            assert(b.subrange(pos, pos + l1 + l2)[l1 + i] == b[pos + l1 + i]);
            assert((e1 + e2)[l1 + i] == e2[i]);
        }
        assert(b.subrange(pos + l1, pos + l1 + l2) =~= e2);
    }
    if has_enc(b, pos, e1) && has_enc(b, pos + l1, e2) {
        assert(b.subrange(pos, pos + l1 + l2) =~= e1 + e2);
    }
}

/// Read `n` little-endian bytes (at most eight) as one integer. Succeeds
/// exactly when `n` bytes remain, and returns the one value whose encoding
/// stands there.
pub(crate) fn read_le(b: &Vec<u8>, pos: usize, n: usize) -> (r: Result<(u64, usize), DecodeError>)
    requires
        n <= 8,
        pos <= b@.len(),
    ensures
        r is Ok <==> pos + n <= b@.len(),
        r matches Ok((x, end)) ==> end == pos + n && (x as int) < pow256(n as nat) && has_enc(
            b@,
            pos as int,
            enc_le(x as int, n as nat),
        ),
        r matches Ok((x, end)) ==> forall|y: int|
            0 <= y < pow256(n as nat) && has_enc(b@, pos as int, #[trigger] enc_le(y, n as nat))
                ==> y == x as int,
{
    proof {
        lemma_pow256_values();
    }
    let blen = b.len();
    if blen - pos < n {
        return Err(DecodeError);
    }
    let mut acc: u64 = 0;
    let mut k: usize = n;
    while k > 0
        invariant
            pos + n <= blen,
            blen == b@.len(),
            n <= 8,
            k <= n,
            acc as int == dec_le(b@.subrange((pos + k) as int, (pos + n) as int)),
            (acc as int) < pow256((n - k) as nat),
        decreases k,
    {
        proof {
            lemma_pow256_le((n - k) as nat, 7);
            lemma_pow256_values();
            lemma_pow256_le(7, 8);
        }
        k -= 1;
        let byte = b[pos + k];
        proof {
            let s = b@.subrange((pos + k) as int, (pos + n) as int);
            assert(s.drop_first() =~= b@.subrange((pos + k + 1) as int, (pos + n) as int));
            assert(s[0] == b@[(pos + k) as int]);
        }
        acc = (byte as u64) + 256 * acc;
    }
    proof {
        let s = b@.subrange(pos as int, (pos + n) as int);
        lemma_dec_le_bound(s);
        lemma_enc_dec_le(s);
        assert forall|y: int|
            0 <= y < pow256(n as nat) && has_enc(
                b@,
                pos as int,
                #[trigger] enc_le(y, n as nat),
            ) implies y == acc as int by {
            lemma_enc_le_len(y, n as nat);
            lemma_dec_enc_le(y, n as nat);
        }
    }
    Ok((acc, pos + n))
}

/// Append `x` as `n` little-endian bytes.
pub(crate) fn write_le(out: &mut Vec<u8>, x: u64, n: usize)
    requires
        n <= 8,
        (x as int) < pow256(n as nat),
    ensures
        final(out)@ == old(out)@ + enc_le(x as int, n as nat),
{
    let mut v: u64 = x;
    let mut k: usize = 0;
    while k < n
        invariant
            k <= n,
            n <= 8,
            out@ + enc_le(v as int, (n - k) as nat) == old(out)@ + enc_le(x as int, n as nat),
        decreases n - k,
    {
        let ghost prev = out@;
        let ghost vprev = v as int;
        out.push((v % 256) as u8);
        v = v / 256;
        k += 1;
        proof {
            assert(out@ + enc_le(v as int, (n - k) as nat) =~= prev + enc_le(
                vprev,
                (n - k + 1) as nat,
            ));
        }
    }
    proof {
        assert(final(out)@ =~= final(out)@ + enc_le(v as int, 0));
    }
}

} // verus!
