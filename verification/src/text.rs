//! Comparison and scanning of string slices, character by character.
use vstd::prelude::*;
use vstd::std_specs::iter::IteratorSpec;

verus! {

/// Whether two string slices hold the same characters.
pub(crate) fn str_eq(a: &str, b: &str) -> (same: bool)
    ensures
        same == (a@ == b@),
{
    let mut left = a.chars();
    let mut right = b.chars();
    let ghost mut seen: int = 0;
    loop
        invariant
            left.obeys_prophetic_iter_laws(),
            right.obeys_prophetic_iter_laws(),
            0 <= seen <= a@.len(),
            seen <= b@.len(),
            left.remaining() == a@.skip(seen),
            right.remaining() == b@.skip(seen),
            a@.take(seen) == b@.take(seen),
        decreases a@.len() - seen,
    {
        let l = left.next();
        let r = right.next();
        match (l, r) {
            (Some(x), Some(y)) => {
                if x != y {
                    return false;
                }
                proof {
                    seen = seen + 1;
                }
            },
            (None, None) => {
                assert(a@.take(seen) =~= a@);
                assert(b@.take(seen) =~= b@);
                return true;
            },
            _ => {
                return false;
            },
        }
    }
}

/// The position of the first `.` at or behind `from`, or `len` if there is
/// none. Positions count characters, and `len` is the number of characters
/// of `s`.
pub(crate) fn find_dot(s: &str, len: usize, from: usize) -> (at: usize)
    requires
        len == s@.len(),
        from <= len,
    ensures
        from <= at <= s@.len(),
        forall|j: int| from <= j < at ==> s@[j] != '.',
        at < s@.len() ==> s@[at as int] == '.',
{
    let mut chars = s.chars();
    let mut at: usize = 0;
    loop
        invariant
            chars.obeys_prophetic_iter_laws(),
            len == s@.len(),
            from <= len,
            at <= len,
            chars.remaining() == s@.skip(at as int),
            forall|j: int| from <= j < at ==> s@[j] != '.',
        decreases s@.len() - at,
    {
        match chars.next() {
            Some(c) => {
                if at >= from && c == '.' {
                    return at;
                }
                at += 1;
            },
            None => {
                return at;
            },
        }
    }
}

} // verus!
