//! Host-order (little-endian) value codec. A stored value is the raw
//! integer read from a byte window; the spec functions here define that
//! integer and the byte image of a value, and the lemmas tie the two
//! together as inverses.

use vstd::prelude::*;

verus! {

/// 256 to the power `n`: the number of byte strings of length `n`.
pub open spec fn pow256(n: nat) -> nat
    decreases n,
{
    if n == 0 {
        1
    } else {
        256 * pow256((n - 1) as nat)
    }
}

/// The integer a little-endian byte string denotes.
pub open spec fn le_val(bs: Seq<u8>) -> nat
    decreases bs.len(),
{
    if bs.len() == 0 {
        0
    } else {
        (bs[0] + 256 * le_val(bs.skip(1))) as nat
    }
}

/// The `w`-byte little-endian image of `v` (truncating above `pow256(w)`).
pub open spec fn le_bytes(v: nat, w: nat) -> Seq<u8>
    decreases w,
{
    if w == 0 {
        Seq::empty()
    } else {
        seq![(v % 256) as u8] + le_bytes(v / 256, (w - 1) as nat)
    }
}

/// The value a signed type of width `w` displays for the bit pattern
/// `bits`: two's complement interpretation.
pub open spec fn signed_of_bits(bits: nat, w: nat) -> int {
    if 2 * bits < pow256(w) {
        bits as int
    } else {
        bits - pow256(w)
    }
}

pub proof fn lemma_pow256_positive(n: nat)
    ensures
        pow256(n) >= 1,
    decreases n,
{
    if n > 0 {
        lemma_pow256_positive((n - 1) as nat);
    }
}

pub proof fn lemma_pow256_monotonic(a: nat, b: nat)
    requires
        a <= b,
    ensures
        pow256(a) <= pow256(b),
    decreases b,
{
    if a < b {
        lemma_pow256_monotonic(a, (b - 1) as nat);
        lemma_pow256_positive((b - 1) as nat);
    }
}

pub proof fn lemma_pow256_16()
    ensures
        pow256(16) == u128::MAX + 1,
{
    reveal_with_fuel(pow256, 17);
}

/// A byte string of length `n` denotes a value below `pow256(n)`.
pub proof fn lemma_le_val_bound(bs: Seq<u8>)
    ensures
        le_val(bs) < pow256(bs.len()),
    decreases bs.len(),
{
    if bs.len() > 0 {
        lemma_le_val_bound(bs.skip(1));
    }
}

/// `le_bytes` produces a string of the requested length.
pub proof fn lemma_le_bytes_len(v: nat, w: nat)
    ensures
        le_bytes(v, w).len() == w,
    decreases w,
{
    if w > 0 {
        lemma_le_bytes_len(v / 256, (w - 1) as nat);
    }
}

/// Decoding the image of a value below `pow256(w)` gives the value back.
pub proof fn lemma_le_val_of_le_bytes(v: nat, w: nat)
    requires
        v < pow256(w),
    ensures
        le_val(le_bytes(v, w)) == v,
    decreases w,
{
    if w > 0 {
        let tail = le_bytes(v / 256, (w - 1) as nat);
        assert(le_bytes(v, w).skip(1) =~= tail);
        assert(v / 256 < pow256((w - 1) as nat)) by {
            lemma_pow256_positive((w - 1) as nat);
        }
        lemma_le_val_of_le_bytes(v / 256, (w - 1) as nat);
    }
}

/// Encoding the value of a byte string at its own length gives the
/// string back.
pub proof fn lemma_le_bytes_of_le_val(bs: Seq<u8>)
    ensures
        le_bytes(le_val(bs), bs.len()) == bs,
    decreases bs.len(),
{
    if bs.len() > 0 {
        let v = le_val(bs);
        let tail = bs.skip(1);
        lemma_le_bytes_of_le_val(tail);
        assert(v == bs[0] + 256 * le_val(tail));
        assert(v % 256 == bs[0] && v / 256 == le_val(tail)) by {
            vstd::arithmetic::div_mod::lemma_fundamental_div_mod_converse(
                v as int,
                256,
                le_val(tail) as int,
                bs[0] as int,
            );
        }
        assert(le_bytes(v, bs.len()) =~= bs);
    }
}

/// Decodes a little-endian byte window into the integer it denotes.
pub fn decode_le(bytes: &[u8]) -> (v: u128)
    requires
        bytes@.len() <= 16,
    ensures
        v == le_val(bytes@),
{
    let n = bytes.len();
    let mut acc: u128 = 0;
    let mut i: usize = n;
    proof {
        assert(bytes@.skip(n as int) =~= Seq::<u8>::empty());
    }
    while i > 0
        invariant
            i <= n,
            n == bytes@.len() <= 16,
            acc == le_val(bytes@.skip(i as int)),
        decreases i,
    {
        proof {
            lemma_le_val_bound(bytes@.skip(i as int));
            lemma_pow256_monotonic((n - i) as nat, 15);
            lemma_pow256_16();
            reveal_with_fuel(pow256, 17);
        }
        i = i - 1;
        let b = bytes[i];
        proof {
            assert(bytes@.skip(i as int).skip(1) =~= bytes@.skip(i + 1));
            assert(bytes@.skip(i as int)[0] == b);
        }
        acc = b as u128 + 256 * acc;
    }
    proof {
        assert(bytes@.skip(0) =~= bytes@);
    }
    acc
}

/// Encodes the low `w` bytes of a value as its little-endian image.
pub fn encode_le(v: u128, w: usize) -> (bs: Vec<u8>)
    ensures
        bs@ == le_bytes(v as nat, w as nat),
        bs@.len() == w,
{
    let mut bs: Vec<u8> = Vec::new();
    let mut cur: u128 = v;
    let mut k: usize = 0;
    while k < w
        invariant
            k <= w,
            bs@.len() == k,
            le_bytes(v as nat, w as nat) =~= bs@ + le_bytes(cur as nat, (w - k) as nat),
        decreases w - k,
    {
        let ghost pre = bs@;
        let ghost precur = cur as nat;
        bs.push((cur % 256) as u8);
        cur = cur / 256;
        k = k + 1;
        proof {
            assert(le_bytes(precur, (w - k + 1) as nat) =~= seq![(precur % 256) as u8] + le_bytes(
                precur / 256,
                (w - k) as nat,
            ));
            assert(pre + le_bytes(precur, (w - k + 1) as nat) =~= bs@ + le_bytes(
                cur as nat,
                (w - k) as nat,
            ));
        }
    }
    proof {
        lemma_le_bytes_len(v as nat, w as nat);
        assert(le_bytes(cur as nat, 0) =~= Seq::<u8>::empty());
        assert(bs@ + le_bytes(cur as nat, 0) =~= bs@);
    }
    bs
}

/// Byte-for-byte equality of two byte strings.
pub fn eq_bytes(a: &[u8], b: &[u8]) -> (r: bool)
    ensures
        r == (a@ == b@),
{
    let n = a.len();
    if n != b.len() {
        assert(a@ != b@) by {
            assert(a@.len() != b@.len());
        }
        return false;
    }
    let mut j: usize = 0;
    while j < n
        invariant
            j <= n,
            n == a@.len() == b@.len(),
            forall|t: int| 0 <= t < j ==> a@[t] == b@[t],
        decreases n - j,
    {
        if a[j] != b[j] {
            return false;
        }
        j = j + 1;
    }
    proof {
        assert(a@ =~= b@);
    }
    true
}

/// Byte-for-byte equality of a window of `buffer` against `pattern`.
pub open spec fn window_matches(buffer: Seq<u8>, pattern: Seq<u8>, off: int) -> bool {
    &&& 0 <= off
    &&& off + pattern.len() <= buffer.len()
    &&& buffer.subrange(off, off + pattern.len() as int) == pattern
}

/// Compares the window of `buffer` at `off` against `pattern`.
pub fn bytes_match(buffer: &[u8], off: usize, pattern: &[u8]) -> (r: bool)
    requires
        off + pattern@.len() <= buffer@.len(),
    ensures
        r == window_matches(buffer@, pattern@, off as int),
{
    let n = pattern.len();
    let m = buffer.len();
    let mut j: usize = 0;
    while j < n
        invariant
            j <= n,
            n == pattern@.len(),
            m == buffer@.len(),
            off + n <= m,
            forall|t: int| 0 <= t < j ==> buffer@[off + t] == pattern@[t],
        decreases n - j,
    {
        if buffer[off + j] != pattern[j] {
            assert(buffer@.subrange(off as int, off + n) != pattern@) by {
                assert(buffer@.subrange(off as int, off + n)[j as int] != pattern@[j as int]);
            }
            return false;
        }
        j = j + 1;
    }
    proof {
        assert(buffer@.subrange(off as int, off + n) =~= pattern@);
    }
    true
}

} // verus!
