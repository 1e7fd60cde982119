//! Little-endian integers in byte strings.

use vstd::bytes::{
    lemma_auto_spec_u128_to_from_le_bytes, lemma_auto_spec_u32_to_from_le_bytes,
    lemma_auto_spec_u64_to_from_le_bytes, spec_u128_from_le_bytes, spec_u128_to_le_bytes,
    spec_u32_from_le_bytes, spec_u32_to_le_bytes, spec_u64_from_le_bytes, spec_u64_to_le_bytes,
    spec_u64_to_le_bytes_to_open,
    u128_from_le_bytes, u128_to_le_bytes, u32_from_le_bytes, u32_to_le_bytes, u64_from_le_bytes,
    u64_to_le_bytes,
};
use vstd::prelude::*;
use vstd::slice::slice_subrange;

verus! {

/// The eight bytes of `x`, least significant first.
pub open spec fn le_u64(x: u64) -> Seq<u8> {
    spec_u64_to_le_bytes(x)
}

/// The four bytes of `x`, least significant first.
pub open spec fn le_u32(x: u32) -> Seq<u8> {
    spec_u32_to_le_bytes(x)
}

/// The sixteen bytes of `x`, least significant first.
pub open spec fn le_u128(x: u128) -> Seq<u8> {
    spec_u128_to_le_bytes(x)
}

/// The integer in the eight bytes at `at`.
pub open spec fn u64_in(data: Seq<u8>, at: int) -> u64 {
    spec_u64_from_le_bytes(data.subrange(at, at + 8))
}

/// The integer in the four bytes at `at`.
pub open spec fn u32_in(data: Seq<u8>, at: int) -> u32 {
    spec_u32_from_le_bytes(data.subrange(at, at + 4))
}

/// The integer in the sixteen bytes at `at`.
pub open spec fn u128_in(data: Seq<u8>, at: int) -> u128 {
    spec_u128_from_le_bytes(data.subrange(at, at + 16))
}

pub proof fn lemma_le_lengths()
    ensures
        forall|x: u64| (#[trigger] le_u64(x)).len() == 8,
        forall|x: u32| (#[trigger] le_u32(x)).len() == 4,
        forall|x: u128| (#[trigger] le_u128(x)).len() == 16,
{
    lemma_auto_spec_u64_to_from_le_bytes();
    lemma_auto_spec_u32_to_from_le_bytes();
    lemma_auto_spec_u128_to_from_le_bytes();
}

/// An integer written at `at` reads back.
pub proof fn lemma_u64_reads_back(data: Seq<u8>, at: int, x: u64)
    requires
        0 <= at,
        at + 8 <= data.len(),
        data.subrange(at, at + 8) == le_u64(x),
    ensures
        u64_in(data, at) == x,
{
    lemma_auto_spec_u64_to_from_le_bytes();
}

/// An integer written at `at` reads back.
pub proof fn lemma_u32_reads_back(data: Seq<u8>, at: int, x: u32)
    requires
        0 <= at,
        at + 4 <= data.len(),
        data.subrange(at, at + 4) == le_u32(x),
    ensures
        u32_in(data, at) == x,
{
    lemma_auto_spec_u32_to_from_le_bytes();
    assert(spec_u32_to_le_bytes(x).len() == 4);
}

/// An integer written at `at` reads back.
pub proof fn lemma_u128_reads_back(data: Seq<u8>, at: int, x: u128)
    requires
        0 <= at,
        at + 16 <= data.len(),
        data.subrange(at, at + 16) == le_u128(x),
    ensures
        u128_in(data, at) == x,
{
    lemma_auto_spec_u128_to_from_le_bytes();
    assert(spec_u128_to_le_bytes(x).len() == 16);
}

/// The integer in the eight bytes at `at`, if `data` reaches that far.
pub fn u64_at(data: &[u8], at: usize) -> (x: Option<u64>)
    ensures
        x == if at + 8 <= data@.len() {
            Some(u64_in(data@, at as int))
        } else {
            None
        },
{
    if data.len() >= 8 && at <= data.len() - 8 {
        Some(u64_from_le_bytes(slice_subrange(data, at, at + 8)))
    } else {
        None
    }
}

/// The integer in the four bytes at `at`, if `data` reaches that far.
pub fn u32_at(data: &[u8], at: usize) -> (x: Option<u32>)
    ensures
        x == if at + 4 <= data@.len() {
            Some(u32_in(data@, at as int))
        } else {
            None
        },
{
    if data.len() >= 4 && at <= data.len() - 4 {
        Some(u32_from_le_bytes(slice_subrange(data, at, at + 4)))
    } else {
        None
    }
}

/// The integer in the sixteen bytes at `at`, if `data` reaches that far.
pub fn u128_at(data: &[u8], at: usize) -> (x: Option<u128>)
    ensures
        x == if at + 16 <= data@.len() {
            Some(u128_in(data@, at as int))
        } else {
            None
        },
{
    if data.len() >= 16 && at <= data.len() - 16 {
        Some(u128_from_le_bytes(slice_subrange(data, at, at + 16)))
    } else {
        None
    }
}

/// Appends the eight bytes of `x`.
pub fn push_u64(out: &mut Vec<u8>, x: u64)
    ensures
        final(out)@ == old(out)@ + le_u64(x),
{
    let mut bytes = u64_to_le_bytes(x);
    out.append(&mut bytes);
}

/// Appends the four bytes of `x`.
pub fn push_u32(out: &mut Vec<u8>, x: u32)
    ensures
        final(out)@ == old(out)@ + le_u32(x),
{
    let mut bytes = u32_to_le_bytes(x);
    out.append(&mut bytes);
}

/// Appends the sixteen bytes of `x`.
pub fn push_u128(out: &mut Vec<u8>, x: u128)
    ensures
        final(out)@ == old(out)@ + le_u128(x),
{
    let mut bytes = u128_to_le_bytes(x);
    out.append(&mut bytes);
}

/// `value` as a position in memory, if it is one.
pub fn to_position(value: u64) -> (position: Option<usize>)
    ensures
        position == if value <= usize::MAX {
            Some(value as usize)
        } else {
            None
        },
{
    if value <= usize::MAX as u64 {
        Some(value as usize)
    } else {
        None
    }
}

/// Integers are written and read little-endian, the least significant byte
/// first.
pub proof fn integers_are_little_endian(x: u64, y: u32, z: u128, data: Seq<u8>, at: int)
    ensures
        le_u64(x) == seq![
            (x & 0xff) as u8,
            ((x >> 8) & 0xff) as u8,
            ((x >> 16) & 0xff) as u8,
            ((x >> 24) & 0xff) as u8,
            ((x >> 32) & 0xff) as u8,
            ((x >> 40) & 0xff) as u8,
            ((x >> 48) & 0xff) as u8,
            ((x >> 56) & 0xff) as u8,
        ],
        le_u32(y) == spec_u32_to_le_bytes(y),
        le_u128(z) == spec_u128_to_le_bytes(z),
        u64_in(data, at) == spec_u64_from_le_bytes(data.subrange(at, at + 8)),
        u32_in(data, at) == spec_u32_from_le_bytes(data.subrange(at, at + 4)),
        u128_in(data, at) == spec_u128_from_le_bytes(data.subrange(at, at + 16)),
{
    spec_u64_to_le_bytes_to_open(x);
}

} // verus!
