//! The counting variants, one per traversal idiom.

use vstd::prelude::*;
use vstd::std_specs::iter::IteratorSpec;
use vstd::string::StrSliceExecFns;
use vstd::string::StringSliceAdditionalSpecFns;
use vstd::utf8::is_ascii_chars;
use crate::pairs::adjacent_pairs;
use crate::pairs::lemma_adjacent_pairs_bound;
use crate::pairs::lemma_adjacent_pairs_take_succ;
use crate::pairs::lemma_ascii_bytes_pairs;

verus! {

/// Collects the characters of a string into a vector, one `next` at a time.
fn chars_vec(val: &str) -> (v: Vec<char>)
    ensures
        v@ == val@,
{
    let mut v: Vec<char> = Vec::new();
    let mut it = val.chars();
    loop
        invariant_except_break
            it.remaining() == val@.skip(v@.len() as int),
            v@ == val@.take(v@.len() as int),
            v@.len() <= val@.len(),
        ensures
            v@ == val@,
        decreases val@.len() - v@.len(),
    {
        match it.next() {
            Some(c) => {
                proof {
                    assert(val@.skip(v@.len() as int).drop_first() =~= val@.skip(
                        v@.len() as int + 1,
                    ));
                }
                let ghost k = v@.len() as int;
                v.push(c);
                proof {
                    assert(v@ =~= val@.take(k + 1));
                }
            },
            None => {
                proof {
                    assert(v@.len() == val@.len());
                    assert(val@.take(v@.len() as int) =~= val@);
                }
                break ;
            },
        }
    }
    v
}

/// Windowed-pairs traversal: every window of two consecutive characters is
/// inspected, and the windows whose two members are equal are counted.
pub fn count_doubles_slice(val: &str) -> (total: u64)
    ensures
        total == adjacent_pairs(val@),
{
    let v = chars_vec(val);
    let mut total: u64 = 0;
    if v.len() < 2 {
        return total;
    }
    let mut i: usize = 0;
    while i + 1 < v.len()
        invariant
            v@ == val@,
            2 <= v@.len() <= usize::MAX,
            0 <= i,
            i + 1 <= v@.len(),
            total == adjacent_pairs(v@.take(i as int + 1)),
        decreases v@.len() - i,
    {
        if v[i] == v[i + 1] {
            proof {
                lemma_adjacent_pairs_bound(v@.take(i as int + 1));
            }
            total = total + 1;
        }
        proof {
            lemma_adjacent_pairs_take_succ(v@, i as int + 1);
        }
        i = i + 1;
    }
    proof {
        assert(v@.take(v@.len() as int) =~= v@);
    }
    total
}

/// Peeking traversal: each step consumes the current character, then looks
/// at the next one without consuming it; the pair is counted when the two
/// are equal.
pub fn count_doubles_peek(val: &str) -> (total: u64)
    ensures
        total == adjacent_pairs(val@),
{
    let v = chars_vec(val);
    let n = v.len();
    let mut total: u64 = 0;
    let mut i: usize = 0;
    while i < n
        invariant
            v@ == val@,
            n == v@.len(),
            0 <= i <= v@.len(),
            total == adjacent_pairs(
                v@.take(
                    if i + 1 <= v@.len() {
                        i as int + 1
                    } else {
                        v@.len() as int
                    },
                ),
            ),
        decreases v@.len() - i,
    {
        let c1 = v[i];
        if i + 1 < n {
            let c2 = v[i + 1];
            if c1 == c2 {
                proof {
                    lemma_adjacent_pairs_bound(v@.take(i as int + 1));
                }
                total = total + 1;
            }
            proof {
                lemma_adjacent_pairs_take_succ(v@, i as int + 1);
            }
        }
        i = i + 1;
    }
    proof {
        assert(v@.take(v@.len() as int) =~= v@);
    }
    total
}

/// Pairwise-zip traversal: two character cursors run over the string, the
/// second one element ahead of the first, and the positions where the two
/// agree are counted.
pub fn count_doubles(val: &str) -> (total: u64)
    ensures
        total == adjacent_pairs(val@),
{
    let n = val.unicode_len();
    let mut total: u64 = 0;
    let mut it1 = val.chars();
    let mut it2 = val.chars();
    if it2.next().is_none() {
        return total;
    }
    proof {
        assert(val@.skip(0) =~= val@);
        assert(val@.drop_first() =~= val@.skip(1));
    }
    let ghost mut k: int = 0;
    loop
        invariant_except_break
            n == val@.len(),
            1 <= n,
            0 <= k,
            k + 1 <= n,
            it1.remaining() == val@.skip(k),
            it2.remaining() == val@.skip(k + 1),
            total == adjacent_pairs(val@.take(k + 1)),
        ensures
            total == adjacent_pairs(val@),
        decreases n - k,
    {
        let a = it1.next();
        let b = it2.next();
        match (a, b) {
            (Some(c1), Some(c2)) => {
                proof {
                    assert(val@.skip(k).drop_first() =~= val@.skip(k + 1));
                    assert(val@.skip(k + 1).drop_first() =~= val@.skip(k + 2));
                }
                if c1 == c2 {
                    proof {
                        lemma_adjacent_pairs_bound(val@.take(k + 1));
                    }
                    total = total + 1;
                }
                proof {
                    lemma_adjacent_pairs_take_succ(val@, k + 1);
                    k = k + 1;
                }
            },
            _ => {
                proof {
                    assert(val@.skip(k).len() > 0);
                    assert(val@.skip(k + 1).len() == 0);
                    assert(val@.take(k + 1) =~= val@);
                }
                break ;
            },
        }
    }
    total
}

/// Single-pass traversal that carries the previous character along,
/// reassigning it at every step.
pub fn count_doubles_once(val: &str) -> (total: u64)
    ensures
        total == adjacent_pairs(val@),
{
    let n = val.unicode_len();
    let mut total: u64 = 0;
    let mut chars = val.chars();
    if let Some(c0) = chars.next() {
        let mut c1 = c0;
        proof {
            assert(val@.drop_first() =~= val@.skip(1));
        }
        let ghost mut k: int = 1;
        loop
            invariant_except_break
                n == val@.len(),
                1 <= k <= n,
                chars.remaining() == val@.skip(k),
                c1 == val@[k - 1],
                total == adjacent_pairs(val@.take(k)),
            ensures
                total == adjacent_pairs(val@),
            decreases n - k,
        {
            match chars.next() {
                Some(c2) => {
                    proof {
                        assert(val@.skip(k).drop_first() =~= val@.skip(k + 1));
                    }
                    if c1 == c2 {
                        proof {
                            lemma_adjacent_pairs_bound(val@.take(k));
                        }
                        total = total + 1;
                    }
                    c1 = c2;
                    proof {
                        lemma_adjacent_pairs_take_succ(val@, k);
                        k = k + 1;
                    }
                },
                None => {
                    proof {
                        assert(val@.take(k) =~= val@);
                    }
                    break ;
                },
            }
        }
    }
    total
}

/// The same carried-previous traversal, except that the carried character
/// is replaced by an explicit swap instead of a reassignment.
pub fn count_doubles_memreplace(val: &str) -> (total: u64)
    ensures
        total == adjacent_pairs(val@),
{
    let n = val.unicode_len();
    let mut total: u64 = 0;
    let mut chars = val.chars();
    if let Some(c0) = chars.next() {
        let mut c1 = c0;
        proof {
            assert(val@.drop_first() =~= val@.skip(1));
        }
        let ghost mut k: int = 1;
        loop
            invariant_except_break
                n == val@.len(),
                1 <= k <= n,
                chars.remaining() == val@.skip(k),
                c1 == val@[k - 1],
                total == adjacent_pairs(val@.take(k)),
            ensures
                total == adjacent_pairs(val@),
            decreases n - k,
        {
            match chars.next() {
                Some(c2) => {
                    proof {
                        assert(val@.skip(k).drop_first() =~= val@.skip(k + 1));
                    }
                    if c1 == c2 {
                        proof {
                            lemma_adjacent_pairs_bound(val@.take(k));
                        }
                        total = total + 1;
                    }
                    let mut next = c2;
                    core::mem::swap(&mut c1, &mut next);
                    proof {
                        lemma_adjacent_pairs_take_succ(val@, k);
                        k = k + 1;
                    }
                },
                None => {
                    proof {
                        assert(val@.take(k) =~= val@);
                    }
                    break ;
                },
            }
        }
    }
    total
}

/// One step of the left fold: counts the pair when the carried character
/// equals the next one, and hands the next character back as the new fold
/// state.
fn fold_step(c1: char, c2: char, total: &mut u64) -> (next: char)
    requires
        *old(total) < u64::MAX,
    ensures
        next == c2,
        *final(total) == *old(total) + (if c1 == c2 {
            1int
        } else {
            0int
        }),
{
    if c1 == c2 {
        *total = *total + 1;
    }
    c2
}

/// Running accumulation as a left fold over the characters: the fold state
/// is the previous character, and the counter is updated as a side effect
/// of each fold step.
pub fn count_doubles_fold(val: &str) -> (total: u64)
    ensures
        total == adjacent_pairs(val@),
{
    let n = val.unicode_len();
    let mut total: u64 = 0;
    let mut chars = val.chars();
    if let Some(c0) = chars.next() {
        let mut state = c0;
        proof {
            assert(val@.drop_first() =~= val@.skip(1));
        }
        let ghost mut k: int = 1;
        loop
            invariant_except_break
                n == val@.len(),
                1 <= k <= n,
                chars.remaining() == val@.skip(k),
                state == val@[k - 1],
                total == adjacent_pairs(val@.take(k)),
            ensures
                total == adjacent_pairs(val@),
            decreases n - k,
        {
            match chars.next() {
                Some(c2) => {
                    proof {
                        assert(val@.skip(k).drop_first() =~= val@.skip(k + 1));
                        lemma_adjacent_pairs_bound(val@.take(k));
                    }
                    state = fold_step(state, c2, &mut total);
                    proof {
                        lemma_adjacent_pairs_take_succ(val@, k);
                        k = k + 1;
                    }
                },
                None => {
                    proof {
                        assert(val@.take(k) =~= val@);
                    }
                    break ;
                },
            }
        }
    }
    total
}

/// Carried-previous traversal over the raw UTF-8 bytes of the string. It
/// counts adjacent equal bytes, not characters: on an ASCII string that is
/// the same number, while a string with multi-byte characters may give a
/// different count than the character-based variants, which is expected.
pub fn count_doubles_once_bytes(val: &str) -> (total: u64)
    ensures
        total == adjacent_pairs(val.spec_bytes()),
        is_ascii_chars(val@) ==> total == adjacent_pairs(val@),
{
    let b = val.as_bytes();
    let mut total: u64 = 0;
    if b.len() == 0 {
        proof {
            if is_ascii_chars(val@) {
                lemma_ascii_bytes_pairs(val@);
            }
        }
        return total;
    }
    let mut c1: u8 = b[0];
    let mut i: usize = 1;
    while i < b.len()
        invariant
            b@ == val.spec_bytes(),
            1 <= i <= b@.len(),
            b@.len() <= usize::MAX,
            c1 == b@[i - 1],
            total == adjacent_pairs(b@.take(i as int)),
        decreases b@.len() - i,
    {
        let c2 = b[i];
        if c1 == c2 {
            proof {
                lemma_adjacent_pairs_bound(b@.take(i as int));
            }
            total = total + 1;
        }
        c1 = c2;
        proof {
            lemma_adjacent_pairs_take_succ(b@, i as int);
        }
        i = i + 1;
    }
    proof {
        assert(b@.take(b@.len() as int) =~= b@);
        if is_ascii_chars(val@) {
            lemma_ascii_bytes_pairs(val@);
        }
    }
    total
}

} // verus!

