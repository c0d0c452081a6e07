//! Little-endian fields and fixed-size texts inside byte slices.

use crate::text::{from_utf8_lossy, lossy_text};
use vstd::prelude::*;
use vstd::slice::slice_subrange;

verus! {

/// The 16-bit little-endian value at offset `o`.
pub open spec fn le16(b: Seq<u8>, o: int) -> u16 {
    (b[o] + b[o + 1] * 0x100) as u16
}

/// The 32-bit little-endian value at offset `o`.
pub open spec fn le32(b: Seq<u8>, o: int) -> u32 {
    (b[o] + b[o + 1] * 0x100 + b[o + 2] * 0x1_0000 + b[o + 3] * 0x100_0000) as u32
}

/// The 64-bit little-endian value at offset `o`.
pub open spec fn le64(b: Seq<u8>, o: int) -> u64 {
    (le32(b, o) + le32(b, o + 4) * 0x1_0000_0000) as u64
}

/// A 64-bit value out of its low and high halves.
pub open spec fn wide(low: u32, high: u32) -> u64 {
    (low + high * 0x1_0000_0000) as u64
}

pub fn u16_at(b: &[u8], o: usize) -> (v: u16)
    requires
        o + 2 <= b@.len(),
    ensures
        v == le16(b@, o as int),
{
    b[o] as u16 + b[o + 1] as u16 * 0x100
}

pub fn u32_at(b: &[u8], o: usize) -> (v: u32)
    requires
        o + 4 <= b@.len(),
    ensures
        v == le32(b@, o as int),
{
    b[o] as u32 + b[o + 1] as u32 * 0x100 + b[o + 2] as u32 * 0x1_0000 + b[o + 3] as u32
        * 0x100_0000
}

pub fn u64_at(b: &[u8], o: usize) -> (v: u64)
    requires
        o + 8 <= b.len(),
    ensures
        v == le64(b@, o as int),
{
    widen(u32_at(b, o), u32_at(b, o + 4))
}

pub fn widen(low: u32, high: u32) -> (v: u64)
    ensures
        v == wide(low, high),
{
    low as u64 + high as u64 * 0x1_0000_0000
}

/// How many bytes come before the first zero byte, or all of them.
pub open spec fn before_nul(b: Seq<u8>) -> int
    decreases b.len(),
{
    if b.len() == 0 || b[0] == 0 {
        0
    } else {
        1 + before_nul(b.skip(1))
    }
}

pub proof fn lemma_before_nul(b: Seq<u8>, n: int)
    requires
        0 <= n <= b.len(),
        forall|k: int| 0 <= k < n ==> b[k] != 0,
        n < b.len() ==> b[n] == 0,
    ensures
        before_nul(b) == n,
    decreases n,
{
    if n > 0 {
        assert forall|k: int| 0 <= k < n - 1 implies b.skip(1)[k] != 0 by {
            assert(b.skip(1)[k] == b[k + 1]);
        }
        lemma_before_nul(b.skip(1), n - 1);
    }
}

/// The text in a zero-terminated field.
pub open spec fn field_text(b: Seq<u8>) -> Seq<char> {
    lossy_text(b.take(before_nul(b)))
}

/// Decodes a zero-terminated field that may also be filled to its end.
pub fn cstr(b: &[u8]) -> (s: String)
    ensures
        s@ == field_text(b@),
{
    let mut n: usize = 0;
    while n < b.len() && b[n] != 0
        invariant
            n <= b@.len(),
            forall|k: int| 0 <= k < n ==> b@[k] != 0,
        decreases b@.len() - n,
    {
        n = n + 1;
    }
    proof {
        lemma_before_nul(b@, n as int);
        assert(b@.subrange(0, n as int) =~= b@.take(n as int));
    }
    from_utf8_lossy(slice_subrange(b, 0, n))
}

} // verus!
