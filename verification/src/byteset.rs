//! Byte-set scanning: find the first position in a buffer of any byte from a
//! small fixed set.
//!
//! The set is compiled once into a 256-entry membership table, so a scan
//! tests each byte with one table lookup. Building the table clamps the set:
//! duplicate byte values collapse into one entry, and the table never grows,
//! so a caller may reuse one [`ByteSet`] across many scans.

use vstd::prelude::*;

verus! {

/// A fixed collection of distinct byte values to search for, held as a
/// 256-entry membership table.
pub struct ByteSet {
    table: Vec<bool>,
}

impl View for ByteSet {
    type V = Set<u8>;

    closed spec fn view(&self) -> Set<u8> {
        Set::new(|b: u8| self.table@[b as int])
    }
}

impl ByteSet {
    #[verifier::type_invariant]
    spec fn wf(self) -> bool {
        self.table@.len() == 256
    }

    /// Builds the membership table from the given byte values. Duplicates
    /// collapse, so the resulting set holds exactly the distinct values of
    /// `bytes`.
    pub fn new(bytes: &[u8]) -> (s: ByteSet)
        ensures
            forall|b: u8| s@.contains(b) <==> bytes@.contains(b),
    {
        let mut table: Vec<bool> = Vec::new();
        let mut k: usize = 0;
        while k < 256
            invariant
                k <= 256,
                table@.len() == k,
                forall|t: int| 0 <= t < k ==> table@[t] == false,
            decreases 256 - k,
        {
            table.push(false);
            k = k + 1;
        }
        let n: usize = bytes.len();
        let mut i: usize = 0;
        while i < n
            invariant
                i <= n,
                n == bytes@.len(),
                table@.len() == 256,
                forall|b: u8|
                    table@[b as int] <==> exists|t: int| 0 <= t < i && bytes@[t] == b,
            decreases n - i,
        {
            let b = bytes[i];
            table[b as usize] = true;
            assert(forall|c: u8|
                table@[c as int] <==> exists|t: int| 0 <= t < i + 1 && bytes@[t] == c) by {
                assert(bytes@[i as int] == b);
            }
            i = i + 1;
        }
        ByteSet { table }
    }

    /// Returns true iff `b` is a member of the set.
    pub fn contains(&self, b: u8) -> (r: bool)
        ensures
            r == self@.contains(b),
    {
        proof {
            use_type_invariant(self);
        }
        self.table[b as usize]
    }
}

/// True iff `b` occurs among the first `g` values of `bytes`.
spec fn in_prefix(bytes: Seq<u8>, g: int, b: u8) -> bool {
    exists|t: int| 0 <= t < g && bytes[t] == b
}

/// Relies on memchr::memchr3: the index of the first byte of `haystack`
/// equal to one of the three needles, or `None` when none occurs; a
/// returned index is always less than the haystack's length.
#[verifier::external_body]
fn find_byte3(n1: u8, n2: u8, n3: u8, haystack: &[u8]) -> (r: Option<usize>)
    ensures
        (r matches Some(i) ==> i < haystack@.len() && (haystack@[i as int] == n1
            || haystack@[i as int] == n2 || haystack@[i as int] == n3) && (forall|j: int|
            0 <= j < i ==> haystack@[j] != n1 && haystack@[j] != n2 && haystack@[j] != n3)),
        r is None ==> forall|j: int|
            0 <= j < haystack@.len() ==> haystack@[j] != n1 && haystack@[j] != n2
                && haystack@[j] != n3,
{
    memchr::memchr3(n1, n2, n3, haystack)
}

/// Returns the lowest index in `buf` of any byte that occurs in `bytes`, by
/// chained small-alphabet searches: the set is taken in groups of up to
/// three values, each group is searched over the whole buffer in one call,
/// and the minimum position found is kept.
///
/// This strategy is competitive only when a matching byte sits near the
/// front of the buffer and its group near the front of the set; the
/// table-based [`find_first_of`] is the recommended default.
pub fn find_first_of_chained(buf: &[u8], bytes: &[u8]) -> (r: Option<usize>)
    ensures
        (r matches Some(i) ==> i < buf@.len() && bytes@.contains(buf@[i as int]) && (forall|
            j: int,
        | 0 <= j < i ==> !bytes@.contains(buf@[j]))),
        r is None ==> forall|j: int| 0 <= j < buf@.len() ==> !bytes@.contains(buf@[j]),
{
    let m: usize = bytes.len();
    let mut best: Option<usize> = None;
    let mut g: usize = 0;
    while g < m
        invariant
            g <= m,
            m == bytes@.len(),
            (best matches Some(p) ==> p < buf@.len() && in_prefix(bytes@, g as int, buf@[p as int])
                && (forall|j: int| 0 <= j < p ==> !in_prefix(bytes@, g as int, buf@[j]))),
            best is None ==> forall|j: int|
                0 <= j < buf@.len() ==> !in_prefix(bytes@, g as int, buf@[j]),
        decreases m - g,
    {
        let rem: usize = m - g;
        let n1 = bytes[g];
        let n2 = if rem >= 2 {
            bytes[g + 1]
        } else {
            n1
        };
        let n3 = if rem >= 3 {
            bytes[g + 2]
        } else {
            n2
        };
        let step: usize = if rem >= 3 {
            3
        } else {
            rem
        };
        let found = find_byte3(n1, n2, n3, buf);
        proof {
            assert forall|b: u8|
                in_prefix(bytes@, g + step, b) <==> (in_prefix(bytes@, g as int, b) || b == n1
                    || b == n2 || b == n3) by {
                if in_prefix(bytes@, g + step, b) {
                    let t = choose|t: int| 0 <= t < g + step && bytes@[t] == b;
                    assert(t < g || t == g || t == g + 1 || t == g + 2);
                }
                if b == n1 {
                    assert(bytes@[g as int] == b);
                }
                if b == n2 && rem >= 2 {
                    assert(bytes@[g + 1] == b);
                }
                if b == n3 && rem >= 3 {
                    assert(bytes@[g + 2] == b);
                }
            }
        }
        best = match (best, found) {
            (None, None) => None,
            (None, Some(i)) => Some(i),
            (Some(p), None) => Some(p),
            (Some(p), Some(i)) => if i < p {
                Some(i)
            } else {
                Some(p)
            },
        };
        g = g + step;
    }
    proof {
        assert forall|b: u8| in_prefix(bytes@, m as int, b) <==> bytes@.contains(b) by {
            if bytes@.contains(b) {
                let t = choose|t: int| 0 <= t < bytes@.len() && bytes@[t] == b;
                assert(bytes@[t] == b);
            }
        }
    }
    best
}

/// Returns the lowest index in `buf` of any byte that is a member of `set`,
/// or `None` when no byte of `buf` is in the set (in particular for an empty
/// buffer).
pub fn find_first_of(buf: &[u8], set: &ByteSet) -> (r: Option<usize>)
    ensures
        (r matches Some(i) ==> i < buf@.len() && set@.contains(buf@[i as int]) && (forall|j: int|
            0 <= j < i ==> !set@.contains(buf@[j]))),
        r is None ==> forall|j: int| 0 <= j < buf@.len() ==> !set@.contains(buf@[j]),
{
    let n: usize = buf.len();
    let mut i: usize = 0;
    while i < n
        invariant
            i <= n,
            n == buf@.len(),
            forall|j: int| 0 <= j < i ==> !set@.contains(buf@[j]),
        decreases n - i,
    {
        if set.contains(buf[i]) {
            return Some(i);
        }
        i = i + 1;
    }
    None
}

} // verus!
