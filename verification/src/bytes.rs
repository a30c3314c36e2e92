//! Byte-level scanning helpers shared by the frame decoder and the
//! numeric parser: first occurrence of a byte, and range copies.

use vstd::prelude::*;

verus! {

/// Byte value of the line-feed delimiter that terminates a frame.
pub const LINE_FEED: u8 = 10;

/// Index of the first occurrence of `target` in `s`, or a negative
/// number when `target` does not occur at all.
pub open spec fn find_byte(s: Seq<u8>, target: u8) -> int
    decreases s.len(),
{
    if s.len() == 0 {
        -1
    } else if s[0] == target {
        0
    } else {
        let rest = find_byte(s.skip(1), target);
        if rest < 0 {
            -1
        } else {
            rest + 1
        }
    }
}

/// A non-negative `find_byte` result points at the first occurrence of
/// `target`; a negative result means `target` is absent.
pub proof fn lemma_find_byte(s: Seq<u8>, target: u8)
    ensures
        find_byte(s, target) >= 0 ==> {
            &&& 0 <= find_byte(s, target) < s.len()
            &&& s[find_byte(s, target)] == target
            &&& forall|j: int| 0 <= j < find_byte(s, target) ==> s[j] != target
        },
        find_byte(s, target) < 0 ==> forall|j: int| 0 <= j < s.len() ==> s[j] != target,
    decreases s.len(),
{
    if s.len() == 0 {
    } else if s[0] == target {
    } else {
        lemma_find_byte(s.skip(1), target);
        let r = find_byte(s.skip(1), target);
        if r < 0 {
            assert forall|j: int| 0 <= j < s.len() implies s[j] != target by {
                if j >= 1 {
                    assert(s.skip(1)[j - 1] == s[j]);
                }
            }
        } else {
            assert(s[r + 1] == s.skip(1)[r]);
            assert forall|j: int| 0 <= j < r + 1 implies s[j] != target by {
                if j >= 1 {
                    assert(s.skip(1)[j - 1] == s[j]);
                }
            }
        }
    }
}

/// Conversely: if `target` first occurs at position `i` (or, with
/// `i == s.len()`, not at all), `find_byte` says so.
pub proof fn lemma_find_byte_at(s: Seq<u8>, target: u8, i: int)
    requires
        0 <= i <= s.len(),
        forall|j: int| 0 <= j < i ==> s[j] != target,
        i < s.len() ==> s[i] == target,
    ensures
        i < s.len() ==> find_byte(s, target) == i,
        i == s.len() ==> find_byte(s, target) < 0,
    decreases i,
{
    if s.len() == 0 {
    } else if i == 0 {
    } else {
        assert(forall|j: int| 0 <= j < i - 1 ==> s.skip(1)[j] == s[j + 1]);
        lemma_find_byte_at(s.skip(1), target, i - 1);
    }
}

/// First position of `target` in `s[from..]`, scanning left to right.
pub fn find_byte_from(s: &[u8], from: usize, target: u8) -> (r: Option<usize>)
    requires
        from <= s@.len(),
    ensures
        match r {
            Some(i) => {
                &&& from <= i < s@.len()
                &&& s@[i as int] == target
                &&& forall|j: int| from <= j < i ==> s@[j] != target
            },
            None => forall|j: int| from <= j < s@.len() ==> s@[j] != target,
        },
{
    let mut i: usize = from;
    while i < s.len()
        invariant
            from <= i <= s@.len(),
            forall|j: int| from <= j < i ==> s@[j] != target,
        decreases s@.len() - i,
    {
        if s[i] == target {
            return Some(i);
        }
        i = i + 1;
    }
    None
}

/// The bytes `s[from..to]` as a fresh vector.
pub fn copy_range(s: &[u8], from: usize, to: usize) -> (r: Vec<u8>)
    requires
        from <= to <= s@.len(),
    ensures
        r@ == s@.subrange(from as int, to as int),
{
    let mut r: Vec<u8> = Vec::new();
    let mut i: usize = from;
    while i < to
        invariant
            from <= i <= to <= s@.len(),
            r@ == s@.subrange(from as int, i as int),
        decreases to - i,
    {
        r.push(s[i]);
        proof {
            assert(r@ =~= s@.subrange(from as int, i + 1));
        }
        i = i + 1;
    }
    r
}

} // verus!
