//! The longest stretch of a text in which no character occurs twice.
use std::collections::HashSet;
use vstd::prelude::*;
use crate::text::chars_of;

verus! {

broadcast use vstd::std_specs::hash::group_hash_axioms;

/// Whether no character occurs twice in the stretch of `t` from `lo` up to,
/// but without, `hi`.
pub open spec fn no_repeat(t: Seq<char>, lo: int, hi: int) -> bool {
    forall|i: int, j: int| lo <= i < j < hi ==> t[i] != t[j]
}

/// Whether the character with the code `x` occurs in the stretch of `t`
/// from `lo` up to, but without, `hi`.
pub open spec fn occurs(t: Seq<char>, lo: int, hi: int, x: u32) -> bool {
    exists|k: int| lo <= k < hi && #[trigger] t[k] as u32 == x
}

/// Whether `n` is the length of the longest stretch of `t` without a
/// character that occurs twice: there is such a stretch of this length,
/// and none that is longer.
pub open spec fn is_longest_without_repeat(t: Seq<char>, n: int) -> bool {
    &&& exists|lo: int, hi: int|
        0 <= lo <= hi <= t.len() && #[trigger] no_repeat(t, lo, hi) && hi - lo == n
    &&& forall|lo: int, hi: int|
        0 <= lo <= hi <= t.len() && #[trigger] no_repeat(t, lo, hi) ==> hi - lo <= n
}

/// The length of the longest stretch of `s` in which no character occurs
/// twice; 0 for the empty text.
pub fn longest_substring_without_repeating_chars(s: String) -> (length: i32)
    requires
        s@.len() <= i32::MAX,
    ensures
        is_longest_without_repeat(s@, length as int),
{
    let chars: Vec<char> = chars_of(s.as_str());
    let ghost t: Seq<char> = chars@;
    let mut max_len: usize = 0;
    let mut start: usize = 0;
    let mut seen: HashSet<u32> = HashSet::new();
    let mut end: usize = 0;
    assert(no_repeat(t, 0, 0));
    while end < chars.len()
        invariant
            t == chars@,
            start <= end <= chars.len(),
            no_repeat(t, start as int, end as int),
            forall|x: u32| seen@.contains(x) <==> occurs(t, start as int, end as int, x),
            forall|lo: int| 0 <= lo < start ==> !#[trigger] no_repeat(t, lo, end as int),
            forall|lo: int, hi: int|
                0 <= lo <= hi <= end && #[trigger] no_repeat(t, lo, hi) ==> hi - lo <= max_len,
            exists|lo: int, hi: int|
                0 <= lo <= hi <= end && #[trigger] no_repeat(t, lo, hi) && hi - lo == max_len,
            max_len <= end,
        decreases chars.len() - end,
    {
        let key: u32 = chars[end] as u32;
        proof {
            assert forall|lo: int| 0 <= lo < start implies !#[trigger] no_repeat(
                t,
                lo,
                end + 1,
            ) by {
                lemma_wider_repeats(t, lo, end as int, lo, end + 1);
            }
        }
        while seen.contains(&key)
            invariant
                t == chars@,
                start <= end < chars.len(),
                key == t[end as int] as u32,
                no_repeat(t, start as int, end as int),
                forall|x: u32| seen@.contains(x) <==> occurs(t, start as int, end as int, x),
                forall|lo: int| 0 <= lo < start ==> !#[trigger] no_repeat(t, lo, end + 1),
            decreases end - start,
        {
            proof {
                assert(occurs(t, start as int, end as int, key));
                let k = choose|k: int| start <= k < end && #[trigger] t[k] as u32 == key;
                lemma_same_code(t[k], t[end as int]);
                assert(!no_repeat(t, start as int, end + 1));
            }
            let first: u32 = chars[start] as u32;
            seen.remove(&first);
            proof {
                assert forall|x: u32| seen@.contains(x) <==> occurs(
                    t,
                    start + 1,
                    end as int,
                    x,
                ) by {
                    if occurs(t, start + 1, end as int, x) {
                        let k = choose|k: int| start + 1 <= k < end && #[trigger] t[k] as u32 == x;
                        assert(t[start as int] != t[k]);
                        if t[start as int] as u32 == t[k] as u32 {
                            lemma_same_code(t[start as int], t[k]);
                        }
                        assert(occurs(t, start as int, end as int, x));
                    }
                    if seen@.contains(x) {
                        assert(occurs(t, start as int, end as int, x));
                        let k = choose|k: int| start <= k < end && #[trigger] t[k] as u32 == x;
                        assert(k != start);
                        assert(occurs(t, start + 1, end as int, x));
                    }
                }
            }
            start = start + 1;
        }
        proof {
            assert forall|i: int, j: int| start <= i < j < end + 1 implies t[i] != t[j] by {
                if j == end {
                    if t[i] == t[j] {
                        assert(t[i] as u32 == key);
                        assert(occurs(t, start as int, end as int, key));
                    }
                }
            }
        }
        seen.insert(key);
        proof {
            assert forall|x: u32| seen@.contains(x) <==> occurs(t, start as int, end + 1, x) by {
                if occurs(t, start as int, end + 1, x) {
                    let k = choose|k: int| start <= k < end + 1 && #[trigger] t[k] as u32 == x;
                    if k < end {
                        assert(occurs(t, start as int, end as int, x));
                    }
                }
                if seen@.contains(x) {
                    if x == key {
                        assert(t[end as int] as u32 == x);
                    } else {
                        assert(occurs(t, start as int, end as int, x));
                        let k = choose|k: int| start <= k < end && #[trigger] t[k] as u32 == x;
                        assert(t[k] as u32 == x);
                    }
                    assert(occurs(t, start as int, end + 1, x));
                }
            }
        }
        let ghost before: usize = max_len;
        if end - start + 1 > max_len {
            max_len = end - start + 1;
        }
        proof {
            assert forall|lo: int, hi: int|
                0 <= lo <= hi <= end + 1 && #[trigger] no_repeat(t, lo, hi) implies hi - lo
                <= max_len by {
                if hi == end + 1 {
                    if lo < start {
                        assert(!no_repeat(t, lo, end + 1));
                    }
                }
            }
            if max_len != before {
                assert(no_repeat(t, start as int, end + 1) && end + 1 - start == max_len);
            } else {
                let (lo, hi) = choose|lo: int, hi: int|
                    0 <= lo <= hi <= end && #[trigger] no_repeat(t, lo, hi) && hi - lo == before;
                assert(no_repeat(t, lo, hi) && hi - lo == max_len);
            }
        }
        end = end + 1;
    }
    max_len as i32
}

/// Two characters with the same code are the same character.
pub proof fn lemma_same_code(a: char, b: char)
    requires
        a as u32 == b as u32,
    ensures
        a == b,
{
    vstd::utf8::char_u32_cast(a, a as u32);
    vstd::utf8::char_u32_cast(b, b as u32);
}

/// A stretch that holds a stretch with a repeated character has a repeated
/// character itself.
pub proof fn lemma_wider_repeats(t: Seq<char>, lo: int, hi: int, wider_lo: int, wider_hi: int)
    requires
        wider_lo <= lo,
        hi <= wider_hi,
        !no_repeat(t, lo, hi),
    ensures
        !no_repeat(t, wider_lo, wider_hi),
{
}

} // verus!
