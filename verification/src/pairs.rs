//! The mathematical model: how many adjacent equal pairs a sequence holds.

use vstd::prelude::*;
use vstd::utf8::encode_utf8;
use vstd::utf8::is_ascii_chars;
use vstd::utf8::is_ascii_chars_encode_utf8;
use vstd::utf8::char_u32_cast;
use vstd::utf8::is_ascii_chars_nat_bound;

verus! {

/// The number of indices `i` in `[0, s.len() - 2]` with `s[i] == s[i + 1]`,
/// defined by peeling the last element off. A run of three equal elements
/// contributes two pairs: each adjacent pair counts on its own.
pub open spec fn adjacent_pairs<T>(s: Seq<T>) -> nat
    decreases s.len(),
{
    if s.len() < 2 {
        0
    } else {
        adjacent_pairs(s.drop_last()) + (if s[s.len() - 2] == s[s.len() - 1] {
            1nat
        } else {
            0nat
        })
    }
}

/// The same count defined by peeling the first element off instead.
pub open spec fn adjacent_pairs_front<T>(s: Seq<T>) -> nat
    decreases s.len(),
{
    if s.len() < 2 {
        0
    } else {
        (if s[0] == s[1] {
            1nat
        } else {
            0nat
        }) + adjacent_pairs_front(s.drop_first())
    }
}

/// Whether a traversal consumes the sequence from the front or from the
/// back makes no difference: both recursions compute the same count.
pub proof fn lemma_adjacent_pairs_front<T>(s: Seq<T>)
    ensures
        adjacent_pairs_front(s) == adjacent_pairs(s),
    decreases s.len(),
{
    if s.len() < 2 {
    } else if s.len() == 2 {
        assert(s.drop_last().len() == 1);
        assert(s.drop_first().len() == 1);
        assert(adjacent_pairs(s.drop_last()) == 0);
        assert(adjacent_pairs_front(s.drop_first()) == 0);
    } else {
        let n = s.len() as int;
        let tail = s.drop_first();
        let init = s.drop_last();
        let mid = init.drop_first();
        let e_first: nat = if s[0] == s[1] {
            1nat
        } else {
            0nat
        };
        let e_last: nat = if s[n - 2] == s[n - 1] {
            1nat
        } else {
            0nat
        };
        lemma_adjacent_pairs_front(tail);
        lemma_adjacent_pairs_front(init);
        lemma_adjacent_pairs_front(mid);
        assert(tail.drop_last() =~= mid);
        // the front recursion, unfolded once on s and once more on init
        assert(adjacent_pairs_front(s) == e_first + adjacent_pairs_front(tail));
        assert(init[0] == s[0] && init[1] == s[1]);
        assert(adjacent_pairs_front(init) == e_first + adjacent_pairs_front(mid));
        // the back recursion, unfolded once on s and once more on tail
        assert(adjacent_pairs(s) == adjacent_pairs(init) + e_last);
        assert(tail[tail.len() - 2] == s[n - 2] && tail[tail.len() - 1] == s[n - 1]);
        assert(adjacent_pairs(tail) == adjacent_pairs(tail.drop_last()) + e_last);
        // both sides reduce to e_first + adjacent_pairs(mid) + e_last
        assert(adjacent_pairs_front(s) == e_first + adjacent_pairs(tail));
        assert(adjacent_pairs(s) == e_first + adjacent_pairs_front(mid) + e_last);
    }
}

/// Growing a prefix by one element adds exactly the pair that ends at the
/// new element.
pub proof fn lemma_adjacent_pairs_take_succ<T>(s: Seq<T>, k: int)
    requires
        1 <= k < s.len(),
    ensures
        adjacent_pairs(s.take(k + 1)) == adjacent_pairs(s.take(k)) + (if s[k - 1] == s[k] {
            1nat
        } else {
            0nat
        }),
{
    assert(s.take(k + 1).drop_last() =~= s.take(k));
}

/// The count is always in range: zero for sequences of length zero or one,
/// and at most `len - 1` otherwise.
pub proof fn lemma_adjacent_pairs_bound<T>(s: Seq<T>)
    ensures
        s.len() <= 1 ==> adjacent_pairs(s) == 0,
        s.len() >= 1 ==> adjacent_pairs(s) <= s.len() - 1,
    decreases s.len(),
{
    if s.len() >= 2 {
        lemma_adjacent_pairs_bound(s.drop_last());
    }
}

/// Mapping each ASCII character to its single code byte keeps the count:
/// the map is injective on code points below 128.
proof fn lemma_adjacent_pairs_map_ascii(s: Seq<char>, b: Seq<u8>)
    requires
        is_ascii_chars(s),
        b.len() == s.len(),
        forall|i: int| 0 <= i < s.len() ==> b[i] == (#[trigger] s[i]) as u8,
    ensures
        adjacent_pairs(b) == adjacent_pairs(s),
    decreases s.len(),
{
    if s.len() >= 2 {
        let init = s.drop_last();
        assert forall|i: int| 0 <= i < init.len() implies '\0' <= #[trigger] init[i] <= '\u{7f}' by {
            assert(init[i] == s[i]);
        }
        assert forall|i: int| 0 <= i < init.len() implies b.drop_last()[i] == (
        #[trigger] init[i]) as u8 by {
            assert(init[i] == s[i]);
            assert(b.drop_last()[i] == b[i]);
        }
        lemma_adjacent_pairs_map_ascii(init, b.drop_last());
        let c1 = s[s.len() - 2];
        let c2 = s[s.len() - 1];
        if b[b.len() - 2] == b[b.len() - 1] {
            // equal single code bytes mean equal code points, hence equal characters
            let u1 = c1 as u32;
            let u2 = c2 as u32;
            is_ascii_chars_nat_bound(s);
            assert(u1 < 128 && u2 < 128);
            assert(c1 as u8 == u1 as u8);
            assert(c2 as u8 == u2 as u8);
            assert((u1 as u8 == u2 as u8 && u1 < 128 && u2 < 128) ==> u1 == u2) by (bit_vector);
            char_u32_cast(c1, u1);
            char_u32_cast(c2, u2);
            assert(c1 == c2);
        }
    }
}

/// On an ASCII string the byte-oriented count agrees with the
/// character-oriented count: each character is encoded as exactly one byte,
/// and equal bytes stand for equal characters.
pub proof fn lemma_ascii_bytes_pairs(s: Seq<char>)
    requires
        is_ascii_chars(s),
    ensures
        adjacent_pairs(encode_utf8(s)) == adjacent_pairs(s),
{
    is_ascii_chars_encode_utf8(s);
    lemma_adjacent_pairs_map_ascii(s, encode_utf8(s));
}

/// Every character-based counting variant returns `adjacent_pairs` of its
/// input's view, a function of the input alone. Hence any two of the
/// variants, and any two calls of the same variant, return equal results on
/// the same string.
pub proof fn lemma_variants_agree(s: Seq<char>, r1: nat, r2: nat)
    requires
        r1 == adjacent_pairs(s),
        r2 == adjacent_pairs(s),
    ensures
        r1 == r2,
{
}

} // verus!
