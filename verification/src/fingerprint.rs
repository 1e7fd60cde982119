//! 128-bit content fingerprints for change detection.
//!
//! The fingerprint is two independent FNV-1a-64 passes over the bytes with
//! distinct offset bases, combined into a `u128`. It decides whether a file's
//! n-gram set can be reused during an incremental update.
//!
//! This is *not* a cryptographic hash. A collision leaves a stale index entry
//! behind, and at 128 bits an accidental one is negligible for any realistic
//! number of files.

use crate::ngram::{fnv1a, FNV_OFFSET, FNV_PRIME};
use vstd::prelude::*;

verus! {

/// The second, independent offset basis.
pub const FNV_ALT_OFFSET: u64 = 0x9e3779b97f4a7c15;

/// The 128-bit fingerprint of `bytes`: one FNV-1a pass in the upper half, one
/// from another basis in the lower half.
pub open spec fn fingerprint(bytes: Seq<u8>) -> u128 {
    ((fnv1a(FNV_OFFSET, bytes) as u128) << 64) | (fnv1a(FNV_ALT_OFFSET, bytes) as u128)
}

/// Compute the 128-bit fingerprint of `bytes`.
pub fn content_hash(bytes: &[u8]) -> (hash: u128)
    ensures
        hash == fingerprint(bytes@),
{
    let mut a: u64 = FNV_OFFSET;
    let mut b: u64 = FNV_ALT_OFFSET;
    let mut i: usize = 0;
    assert(bytes@.take(0).len() == 0);
    while i < bytes.len()
        invariant
            i <= bytes@.len(),
            a == fnv1a(FNV_OFFSET, bytes@.take(i as int)),
            b == fnv1a(FNV_ALT_OFFSET, bytes@.take(i as int)),
        decreases bytes@.len() - i,
    {
        assert(bytes@.take(i + 1).drop_last() =~= bytes@.take(i as int));
        let byte: u8 = bytes[i];
        a = (a ^ (byte as u64)).wrapping_mul(FNV_PRIME);
        b = (b ^ (byte as u64)).wrapping_mul(FNV_PRIME);
        i += 1;
    }
    assert(bytes@.take(i as int) =~= bytes@);
    ((a as u128) << 64) | (b as u128)
}

/// One step of FNV-1a takes different states, or different bytes, to different
/// states.
proof fn lemma_step_is_one_to_one(x: u64, y: u64)
    requires
        x.wrapping_mul(FNV_PRIME) == y.wrapping_mul(FNV_PRIME),
    ensures
        x == y,
{
    let modulus: int = 0x1_0000_0000_0000_0000;
    // The prime times its inverse is one more than this many times the modulus.
    let inverse: int = 0xce965057aff6957b;
    let extra: int = 0xce9650590f;
    let p: int = FNV_PRIME as int;
    let (d, e) = (x - y, (x * p) / modulus - (y * p) / modulus);
    assert(d * p == e * modulus);
    assert(p * inverse == extra * modulus + 1);
    assert(d == modulus * (e * inverse - d * extra)) by (nonlinear_arith)
        requires
            d * p == e * modulus,
            p * inverse == extra * modulus + 1,
    ;
    let k = e * inverse - d * extra;
    assert(k == 0);
}

/// Contents of the same length that differ in one byte only differ in their
/// FNV-1a hash, from whatever basis.
proof fn lemma_one_byte_changes_hash(basis: u64, x: Seq<u8>, y: Seq<u8>, i: int)
    requires
        x.len() == y.len(),
        0 <= i < x.len(),
        x[i] != y[i],
        forall|j: int| 0 <= j < x.len() && j != i ==> x[j] == y[j],
    ensures
        fnv1a(basis, x) != fnv1a(basis, y),
    decreases x.len(),
{
    let (a, b) = (fnv1a(basis, x.drop_last()), fnv1a(basis, y.drop_last()));
    let (u, v) = (x.last() as u64, y.last() as u64);
    if i == x.len() - 1 {
        assert(x.drop_last() =~= y.drop_last());
        assert(u != v);
        assert(u != v ==> (a ^ u) != (a ^ v)) by (bit_vector);
    } else {
        lemma_one_byte_changes_hash(basis, x.drop_last(), y.drop_last(), i);
        assert(u == v);
        assert(a != b ==> (a ^ u) != (b ^ u)) by (bit_vector);
    }
    if fnv1a(basis, x) == fnv1a(basis, y) {
        lemma_step_is_one_to_one(a ^ u, b ^ v);
    }
}

/// Contents of the same length that differ in one byte only have fingerprints
/// that differ in both halves.
pub proof fn one_byte_changes_both_halves(x: Seq<u8>, y: Seq<u8>, i: int)
    requires
        x.len() == y.len(),
        0 <= i < x.len(),
        x[i] != y[i],
        forall|j: int| 0 <= j < x.len() && j != i ==> x[j] == y[j],
    ensures
        fingerprint(x) >> 64 != fingerprint(y) >> 64,
        fingerprint(x) as u64 != fingerprint(y) as u64,
        fingerprint(x) != fingerprint(y),
{
    lemma_one_byte_changes_hash(FNV_OFFSET, x, y, i);
    lemma_one_byte_changes_hash(FNV_ALT_OFFSET, x, y, i);
    lemma_halves(fnv1a(FNV_OFFSET, x), fnv1a(FNV_ALT_OFFSET, x));
    lemma_halves(fnv1a(FNV_OFFSET, y), fnv1a(FNV_ALT_OFFSET, y));
}

/// The fingerprint takes the bytes one after another: in each half, what there
/// is of the bytes so far is xored with the next byte and multiplied by the FNV
/// prime, modulo 2 to the 64. The halves start from the two offset bases.
pub proof fn fingerprint_takes_byte_after_byte(bytes: Seq<u8>, b: u8)
    ensures
        fingerprint(Seq::empty()) == 0xcbf29ce4842223259e3779b97f4a7c15,
        fingerprint(bytes.push(b)) >> 64 == (((fingerprint(bytes) >> 64) ^ (b as u128))
            * 0x100000001b3) % 0x1_0000_0000_0000_0000,
        fingerprint(bytes.push(b)) as u64 == (((fingerprint(bytes) as u64) ^ (b as u64))
            * 0x100000001b3) % 0x1_0000_0000_0000_0000,
{
    let (h, l) = (fnv1a(FNV_OFFSET, bytes), fnv1a(FNV_ALT_OFFSET, bytes));
    assert(bytes.push(b).drop_last() =~= bytes);
    lemma_halves(h, l);
    lemma_halves(fnv1a(FNV_OFFSET, bytes.push(b)), fnv1a(FNV_ALT_OFFSET, bytes.push(b)));
    assert((h as u128) ^ (b as u128) == (h ^ (b as u64)) as u128) by (bit_vector);
    assert(((0xcbf29ce484222325u64 as u128) << 64) | (0x9e3779b97f4a7c15u64 as u128)
        == 0xcbf29ce4842223259e3779b97f4a7c15u128) by (bit_vector);
}

/// Two contents have one fingerprint exactly if FNV-1a takes them to the same
/// value from both offset bases.
pub proof fn fingerprints_agree_as_fnv1a_does(x: Seq<u8>, y: Seq<u8>)
    ensures
        fingerprint(x) == fingerprint(y) <==> fnv1a(0xcbf29ce484222325, x) == fnv1a(
            0xcbf29ce484222325,
            y,
        ) && fnv1a(0x9e3779b97f4a7c15, x) == fnv1a(0x9e3779b97f4a7c15, y),
{
    lemma_halves(fnv1a(FNV_OFFSET, x), fnv1a(FNV_ALT_OFFSET, x));
    lemma_halves(fnv1a(FNV_OFFSET, y), fnv1a(FNV_ALT_OFFSET, y));
}

/// Two steps over different bytes end elsewhere in the other order.
proof fn lemma_order_changes_state(h: u64, a: u8, b: u8)
    requires
        a != b,
    ensures
        (h ^ (a as u64)).wrapping_mul(FNV_PRIME) ^ (b as u64) != (h ^ (b as u64)).wrapping_mul(
            FNV_PRIME,
        ) ^ (a as u64),
{
    let (u, v) = (h ^ (a as u64), h ^ (b as u64));
    let (x, y) = (u.wrapping_mul(FNV_PRIME), v.wrapping_mul(FNV_PRIME));
    if x ^ (b as u64) == y ^ (a as u64) {
        assert(x < y + 256 && y < x + 256) by (bit_vector)
            requires
                x ^ (b as u64) == y ^ (a as u64),
        ;
        assert(u < v + 256 && v < u + 256 && u != v) by (bit_vector)
            requires
                u == h ^ (a as u64),
                v == h ^ (b as u64),
                a != b,
        ;
        let modulus: int = 0x1_0000_0000_0000_0000;
        let (d, p) = (u - v, FNV_PRIME as int);
        let k = (u * p) / modulus - (v * p) / modulus;
        assert(d * p - k * modulus == x - y);
        assert(d * p == d * 0x100000001b3);
        assert(k == 0) by {
            assert(-0x2_0000_0000_0000 < d * p < 0x2_0000_0000_0000);
        }
    }
}

/// FNV-1a goes by the order of the bytes: swapping two neighbours that differ
/// changes it, from whatever basis.
proof fn lemma_swap_changes_hash(basis: u64, x: Seq<u8>, y: Seq<u8>, i: int)
    requires
        x.len() == y.len(),
        0 <= i,
        i + 1 < x.len(),
        x[i] != x[i + 1],
        y[i] == x[i + 1],
        y[i + 1] == x[i],
        forall|j: int| 0 <= j < x.len() && j != i && j != i + 1 ==> x[j] == y[j],
    ensures
        fnv1a(basis, x) != fnv1a(basis, y),
    decreases x.len(),
{
    let (c, d) = (x.drop_last(), y.drop_last());
    let (a, b) = (fnv1a(basis, c), fnv1a(basis, d));
    let (u, v) = (x.last() as u64, y.last() as u64);
    if i + 1 == x.len() - 1 {
        assert(c.drop_last() =~= d.drop_last());
        lemma_order_changes_state(fnv1a(basis, c.drop_last()), x[i], x[i + 1]);
        assert(a ^ u != b ^ v);
    } else {
        lemma_swap_changes_hash(basis, c, d, i);
        assert(u == v);
        assert(a != b ==> (a ^ u) != (b ^ u)) by (bit_vector);
    }
    if fnv1a(basis, x) == fnv1a(basis, y) {
        lemma_step_is_one_to_one(a ^ u, b ^ v);
    }
}

/// Swapping two neighbouring bytes that differ changes both halves of the
/// fingerprint.
pub proof fn swapping_neighbours_changes_both_halves(x: Seq<u8>, y: Seq<u8>, i: int)
    requires
        x.len() == y.len(),
        0 <= i,
        i + 1 < x.len(),
        x[i] != x[i + 1],
        y[i] == x[i + 1],
        y[i + 1] == x[i],
        forall|j: int| 0 <= j < x.len() && j != i && j != i + 1 ==> x[j] == y[j],
    ensures
        fingerprint(x) >> 64 != fingerprint(y) >> 64,
        fingerprint(x) as u64 != fingerprint(y) as u64,
        fingerprint(x) != fingerprint(y),
{
    lemma_swap_changes_hash(FNV_OFFSET, x, y, i);
    lemma_swap_changes_hash(FNV_ALT_OFFSET, x, y, i);
    lemma_halves(fnv1a(FNV_OFFSET, x), fnv1a(FNV_ALT_OFFSET, x));
    lemma_halves(fnv1a(FNV_OFFSET, y), fnv1a(FNV_ALT_OFFSET, y));
}

/// What is added alike at the end of two contents leaves them with one
/// fingerprint, or with two, as they were.
pub proof fn common_ending_keeps_fingerprints_apart(x: Seq<u8>, y: Seq<u8>, ending: Seq<u8>)
    ensures
        fingerprint(x + ending) == fingerprint(y + ending) <==> fingerprint(x) == fingerprint(y),
    decreases ending.len(),
{
    if ending.len() == 0 {
        assert(x + ending =~= x);
        assert(y + ending =~= y);
    } else {
        let rest = ending.drop_last();
        common_ending_keeps_fingerprints_apart(x, y, rest);
        fingerprints_agree_as_fnv1a_does(x + rest, y + rest);
        fingerprints_agree_as_fnv1a_does(x + ending, y + ending);
        assert((x + ending).drop_last() =~= x + rest);
        assert((y + ending).drop_last() =~= y + rest);
        lemma_common_byte(FNV_OFFSET, x + ending, y + ending);
        lemma_common_byte(FNV_ALT_OFFSET, x + ending, y + ending);
    }
}

proof fn lemma_common_byte(basis: u64, x: Seq<u8>, y: Seq<u8>)
    requires
        x.len() > 0,
        y.len() > 0,
        x.last() == y.last(),
    ensures
        fnv1a(basis, x) == fnv1a(basis, y) <==> fnv1a(basis, x.drop_last()) == fnv1a(
            basis,
            y.drop_last(),
        ),
{
    let (a, b) = (fnv1a(basis, x.drop_last()), fnv1a(basis, y.drop_last()));
    let u = x.last() as u64;
    assert(a != b ==> (a ^ u) != (b ^ u)) by (bit_vector);
    if fnv1a(basis, x) == fnv1a(basis, y) {
        lemma_step_is_one_to_one(a ^ u, b ^ u);
    }
}

proof fn lemma_halves(high: u64, low: u64)
    ensures
        (((high as u128) << 64) | (low as u128)) >> 64 == high as u128,
        (((high as u128) << 64) | (low as u128)) as u64 == low,
{
    assert((((high as u128) << 64) | (low as u128)) >> 64 == high as u128) by (bit_vector);
    assert((((high as u128) << 64) | (low as u128)) as u64 == low) by (bit_vector);
}

} // verus!
