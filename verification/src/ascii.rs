//! ASCII validation: decide whether every byte of a buffer lies in the range
//! 0x00..=0x7F.
//!
//! The scan processes the bulk of the buffer in fixed-size chunks, packing
//! eight bytes into a machine word and testing all eight high bits at once,
//! then finishes the remainder with a scalar per-byte test. The chunk width
//! is chosen from an [`Accel`] tier so that a caller holding a runtime
//! capability probe can select the widest stride its machine supports; every
//! tier agrees with the scalar definition on every input.

use vstd::prelude::*;

verus! {

/// The scalar reference definition of "all ASCII": every byte is below 0x80.
pub open spec fn is_ascii_seq(s: Seq<u8>) -> bool {
    forall|i: int| 0 <= i < s.len() ==> s[i] < 128
}

/// A vector-width tier for the chunked scan. `Any` selects the widest stride.
#[derive(Clone, Copy, PartialEq, Eq, Structural)]
pub enum Accel {
    AVX2,
    SSE2,
    SSE,
    Any,
}

/// Tests the eight bytes starting at `i` in one word: packs them into a
/// `u64` and checks that no byte has its high bit set.
fn word_all_ascii(s: &[u8], i: usize) -> (r: bool)
    requires
        i + 8 <= s@.len(),
    ensures
        r == forall|j: int| i <= j < i + 8 ==> s@[j] < 128,
{
    let b0 = s[i];
    let b1 = s[i + 1];
    let b2 = s[i + 2];
    let b3 = s[i + 3];
    let b4 = s[i + 4];
    let b5 = s[i + 5];
    let b6 = s[i + 6];
    let b7 = s[i + 7];
    let w: u64 = (b0 as u64) | ((b1 as u64) << 8) | ((b2 as u64) << 16) | ((b3 as u64) << 24)
        | ((b4 as u64) << 32) | ((b5 as u64) << 40) | ((b6 as u64) << 48) | ((b7 as u64) << 56);
    let r = w & 0x8080_8080_8080_8080u64 == 0;
    proof {
        assert((((b0 as u64) | ((b1 as u64) << 8) | ((b2 as u64) << 16) | ((b3 as u64) << 24)
            | ((b4 as u64) << 32) | ((b5 as u64) << 40) | ((b6 as u64) << 48)
            | ((b7 as u64) << 56)) & 0x8080_8080_8080_8080u64 == 0) <==> (b0 < 128 && b1 < 128
            && b2 < 128 && b3 < 128 && b4 < 128 && b5 < 128 && b6 < 128 && b7 < 128))
            by (bit_vector);
    }
    r
}

/// Returns true iff every byte of `slice` is ASCII (0x00..=0x7F).
///
/// The empty buffer is all ASCII; the scan stops at the first violation.
pub fn is_ascii(slice: &[u8]) -> (r: bool)
    ensures
        r == is_ascii_seq(slice@),
{
    is_ascii_auto_simd(slice, Accel::Any)
}

/// Returns true iff every byte of `slice` is ASCII, scanning with the chunk
/// width named by `accel` and narrower strides for the tail.
///
/// Every tier returns the same answer as the scalar definition; `accel` only
/// chooses the stride, so a caller may pass whatever tier a capability probe
/// reported.
pub fn is_ascii_auto_simd(slice: &[u8], accel: Accel) -> (r: bool)
    ensures
        r == is_ascii_seq(slice@),
{
    let wide: usize = match accel {
        Accel::AVX2 => 32,
        Accel::SSE2 => 16,
        Accel::SSE => 8,
        Accel::Any => 32,
    };
    let n: usize = slice.len();
    let mut i: usize = 0;
    if wide >= 32 {
        while n - i >= 32
            invariant
                i <= n,
                n == slice@.len(),
                forall|j: int| 0 <= j < i ==> slice@[j] < 128,
            decreases n - i,
        {
            if !(word_all_ascii(slice, i) && word_all_ascii(slice, i + 8)
                && word_all_ascii(slice, i + 16) && word_all_ascii(slice, i + 24)) {
                proof {
                    lemma_some_byte_high(slice@, i as int, i + 32);
                }
                return false;
            }
            i = i + 32;
        }
    }
    if wide >= 16 {
        while n - i >= 16
            invariant
                i <= n,
                n == slice@.len(),
                forall|j: int| 0 <= j < i ==> slice@[j] < 128,
            decreases n - i,
        {
            if !(word_all_ascii(slice, i) && word_all_ascii(slice, i + 8)) {
                proof {
                    lemma_some_byte_high(slice@, i as int, i + 16);
                }
                return false;
            }
            i = i + 16;
        }
    }
    while n - i >= 8
        invariant
            i <= n,
            n == slice@.len(),
            forall|j: int| 0 <= j < i ==> slice@[j] < 128,
        decreases n - i,
    {
        if !word_all_ascii(slice, i) {
            proof {
                lemma_some_byte_high(slice@, i as int, i + 8);
            }
            return false;
        }
        i = i + 8;
    }
    while i < n
        invariant
            i <= n,
            n == slice@.len(),
            forall|j: int| 0 <= j < i ==> slice@[j] < 128,
        decreases n - i,
    {
        if slice[i] >= 128 {
            return false;
        }
        i = i + 1;
    }
    true
}

/// If some byte in `s[lo..hi]` is not ASCII, the whole buffer is not.
proof fn lemma_some_byte_high(s: Seq<u8>, lo: int, hi: int)
    requires
        0 <= lo <= hi <= s.len(),
        !(forall|j: int| lo <= j < hi ==> s[j] < 128),
    ensures
        !is_ascii_seq(s),
{
    let j = choose|j: int| lo <= j < hi && !(s[j] < 128);
    assert(0 <= j < s.len() && !(s[j] < 128));
}

/// Every all-ASCII buffer satisfies the scalar definition.
pub proof fn lemma_all_low_is_ascii(s: Seq<u8>)
    requires
        forall|i: int| 0 <= i < s.len() ==> s[i] < 128,
    ensures
        is_ascii_seq(s),
{
}

/// Inserting a single byte with its high bit set at any position of any
/// buffer makes the result non-ASCII.
pub proof fn lemma_insert_high_byte(s: Seq<u8>, i: int, b: u8)
    requires
        0 <= i <= s.len(),
        b >= 128,
    ensures
        !is_ascii_seq(s.insert(i, b)),
{
    assert(s.insert(i, b)[i] == b);
}

} // verus!
