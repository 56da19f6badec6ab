//! Candidate sets as bitmasks.
//!
//! A cell's remaining candidate digits are held in a `u16`: bit `d` is set
//! exactly when digit `d` (1 through 9) is still possible. Bit 0 and bits
//! above 9 are never set in a well-formed mask.

use vstd::prelude::*;

verus! {

/// Digit `d` is a member of the candidate mask `m`.
pub open spec fn mask_has(m: u16, d: u16) -> bool {
    ((m >> d) & 1) == 1
}

/// A well-formed mask holds digits 1 through 9 only.
pub open spec fn mask_wf(m: u16) -> bool {
    forall|d: u16| mask_has(m, d) ==> 1 <= d <= 9
}

/// Every digit of `m1` is also a digit of `m2`.
pub open spec fn mask_sub(m1: u16, m2: u16) -> bool {
    forall|d: u16| mask_has(m1, d) ==> mask_has(m2, d)
}

/// Number of digits of `m` in the range `lo..=9`.
pub open spec fn mask_count_from(m: u16, lo: int) -> nat
    decreases 10 - lo,
{
    if lo < 1 || lo >= 10 {
        0
    } else {
        (if mask_has(m, lo as u16) {
            1nat
        } else {
            0nat
        }) + mask_count_from(m, lo + 1)
    }
}

/// Number of digits in the mask.
pub open spec fn mask_card(m: u16) -> nat {
    mask_count_from(m, 1)
}

/// Two masks with the same members are the same mask.
pub proof fn lemma_mask_ext(m1: u16, m2: u16)
    requires
        forall|d: u16| mask_has(m1, d) == mask_has(m2, d),
    ensures
        m1 == m2,
{
    assert(m1 == m2) by (bit_vector)
        requires
            mask_has(m1, 0) == mask_has(m2, 0),
            mask_has(m1, 1) == mask_has(m2, 1),
            mask_has(m1, 2) == mask_has(m2, 2),
            mask_has(m1, 3) == mask_has(m2, 3),
            mask_has(m1, 4) == mask_has(m2, 4),
            mask_has(m1, 5) == mask_has(m2, 5),
            mask_has(m1, 6) == mask_has(m2, 6),
            mask_has(m1, 7) == mask_has(m2, 7),
            mask_has(m1, 8) == mask_has(m2, 8),
            mask_has(m1, 9) == mask_has(m2, 9),
            mask_has(m1, 10) == mask_has(m2, 10),
            mask_has(m1, 11) == mask_has(m2, 11),
            mask_has(m1, 12) == mask_has(m2, 12),
            mask_has(m1, 13) == mask_has(m2, 13),
            mask_has(m1, 14) == mask_has(m2, 14),
            mask_has(m1, 15) == mask_has(m2, 15),
    ;
}

/// Counting respects inclusion.
pub proof fn lemma_count_sub(m1: u16, m2: u16, lo: int)
    requires
        mask_sub(m1, m2),
    ensures
        mask_count_from(m1, lo) <= mask_count_from(m2, lo),
    decreases 10 - lo,
{
    if 1 <= lo < 10 {
        lemma_count_sub(m1, m2, lo + 1);
    }
}

/// Counting respects strict inclusion: a digit of `m2` missing from `m1`
/// makes the count strictly larger.
pub proof fn lemma_count_strict(m1: u16, m2: u16, d: u16, lo: int)
    requires
        mask_sub(m1, m2),
        mask_has(m2, d),
        !mask_has(m1, d),
        1 <= lo <= d <= 9,
    ensures
        mask_count_from(m1, lo) < mask_count_from(m2, lo),
    decreases 10 - lo,
{
    if lo == d {
        lemma_count_sub(m1, m2, lo + 1);
    } else {
        lemma_count_strict(m1, m2, d, lo + 1);
    }
}

/// A member in range `lo..=9` gives a count of at least one.
pub proof fn lemma_count_one(m: u16, d: u16, lo: int)
    requires
        mask_has(m, d),
        1 <= lo <= d <= 9,
    ensures
        mask_count_from(m, lo) >= 1,
    decreases 10 - lo,
{
    if lo < d {
        lemma_count_one(m, d, lo + 1);
    }
}

/// Two distinct members give a count of at least two.
pub proof fn lemma_count_two(m: u16, v: u16, w: u16, lo: int)
    requires
        mask_has(m, v),
        mask_has(m, w),
        1 <= lo <= v < w <= 9,
    ensures
        mask_count_from(m, lo) >= 2,
    decreases 10 - lo,
{
    if lo == v {
        lemma_count_one(m, w, lo + 1);
    } else {
        lemma_count_two(m, v, w, lo + 1);
    }
}

/// Three distinct members give a count of at least three.
pub proof fn lemma_count_three(m: u16, v: u16, w: u16, x: u16, lo: int)
    requires
        mask_has(m, v),
        mask_has(m, w),
        mask_has(m, x),
        1 <= lo <= v < w < x <= 9,
    ensures
        mask_count_from(m, lo) >= 3,
    decreases 10 - lo,
{
    if lo == v {
        lemma_count_two(m, w, x, lo + 1);
    } else {
        lemma_count_three(m, v, w, x, lo + 1);
    }
}

/// In a mask of one digit, every member is that digit.
pub proof fn lemma_card_one_unique(m: u16, v: u16, w: u16)
    requires
        mask_card(m) == 1,
        mask_has(m, v),
        mask_has(m, w),
        1 <= v <= 9,
        1 <= w <= 9,
    ensures
        v == w,
{
    if v < w {
        lemma_count_two(m, v, w, 1);
    } else if w < v {
        lemma_count_two(m, w, v, 1);
    }
}

/// A proper well-formed submask is missing some digit of the larger mask.
pub proof fn lemma_proper_sub_witness(m1: u16, m2: u16)
    requires
        mask_sub(m1, m2),
        m1 != m2,
        mask_wf(m1),
        mask_wf(m2),
    ensures
        exists|d: u16| 1 <= d <= 9 && mask_has(m2, d) && !mask_has(m1, d),
{
    if !(exists|d: u16| 1 <= d <= 9 && mask_has(m2, d) && !mask_has(m1, d)) {
        assert forall|d: u16| mask_has(m1, d) == mask_has(m2, d) by {
            if mask_has(m2, d) {
                assert(1 <= d <= 9);
                assert(mask_has(m1, d));
            }
        }
        lemma_mask_ext(m1, m2);
    }
}

/// A proper well-formed submask has strictly fewer digits.
pub proof fn lemma_proper_sub_card(m1: u16, m2: u16)
    requires
        mask_sub(m1, m2),
        m1 != m2,
        mask_wf(m1),
        mask_wf(m2),
    ensures
        mask_card(m1) < mask_card(m2),
{
    lemma_proper_sub_witness(m1, m2);
    let d = choose|d: u16| 1 <= d <= 9 && mask_has(m2, d) && !mask_has(m1, d);
    lemma_count_strict(m1, m2, d, 1);
}

/// A mask whose members all lie in `{a, b}` counts at most one per member
/// still at or above `lo`; in particular it holds at most two digits.
pub proof fn lemma_count_limited2(m: u16, a: u16, b: u16, lo: int)
    requires
        forall|d: u16| mask_has(m, d) ==> d == a || d == b,
        a != b,
    ensures
        mask_count_from(m, lo) <= (if lo <= a { 1nat } else { 0nat }) + (if lo <= b {
            1nat
        } else {
            0nat
        }),
    decreases 10 - lo,
{
    if 1 <= lo < 10 {
        lemma_count_limited2(m, a, b, lo + 1);
        if lo != a && lo != b {
            assert(!mask_has(m, lo as u16));
        }
    }
}

/// A mask whose members all lie in `{a, b, c}` counts at most one per member
/// still at or above `lo`; in particular it holds at most three digits.
pub proof fn lemma_count_limited3(m: u16, a: u16, b: u16, c: u16, lo: int)
    requires
        forall|d: u16| mask_has(m, d) ==> d == a || d == b || d == c,
        a != b,
        a != c,
        b != c,
    ensures
        mask_count_from(m, lo) <= (if lo <= a { 1nat } else { 0nat }) + (if lo <= b {
            1nat
        } else {
            0nat
        }) + (if lo <= c { 1nat } else { 0nat }),
    decreases 10 - lo,
{
    if 1 <= lo < 10 {
        lemma_count_limited3(m, a, b, c, lo + 1);
        if lo != a && lo != b && lo != c {
            assert(!mask_has(m, lo as u16));
        }
    }
}

/// The mask of all nine digits.
pub fn mask_full() -> (r: u16)
    ensures
        forall|d: u16| mask_has(r, d) <==> 1 <= d <= 9,
        mask_wf(r),
{
    proof {
        assert(forall|d: u16| mask_has(0x3feu16, d) <==> (1 <= d && d <= 9)) by (bit_vector);
    }
    0x3feu16
}

/// The empty mask.
pub fn mask_empty() -> (r: u16)
    ensures
        forall|d: u16| !mask_has(r, d),
        mask_wf(r),
        mask_card(r) == 0,
{
    proof {
        assert(forall|d: u16| !mask_has(0u16, d)) by (bit_vector);
        lemma_count_empty(0u16, 1);
    }
    0u16
}

/// A memberless mask counts to zero.
proof fn lemma_count_empty(m: u16, lo: int)
    requires
        forall|d: u16| !mask_has(m, d),
    ensures
        mask_count_from(m, lo) == 0,
    decreases 10 - lo,
{
    if 1 <= lo < 10 {
        lemma_count_empty(m, lo + 1);
    }
}

/// Membership test.
pub fn mask_test(m: u16, d: u8) -> (r: bool)
    requires
        1 <= d <= 9,
    ensures
        r == mask_has(m, d as u16),
{
    ((m >> (d as u16)) & 1) == 1
}

/// Add digit `d` to the mask.
pub fn mask_set(m: u16, d: u8) -> (r: u16)
    requires
        1 <= d <= 9,
    ensures
        forall|e: u16| mask_has(r, e) <==> (mask_has(m, e) || e == d as u16),
        mask_wf(m) ==> mask_wf(r),
{
    let d16 = d as u16;
    let r = m | (1u16 << d16);
    proof {
        assert(forall|e: u16| mask_has(m | (1u16 << d16), e) <==> (mask_has(m, e) || e == d16))
            by (bit_vector)
            requires 1 <= d16 <= 9;
        if mask_wf(m) {
            assert forall|e: u16| mask_has(r, e) implies 1 <= e <= 9 by {
                assert(mask_has(m, e) || e == d16);
            }
        }
    }
    r
}

/// Remove digit `d` from the mask.
pub fn mask_clear(m: u16, d: u8) -> (r: u16)
    requires
        1 <= d <= 9,
    ensures
        forall|e: u16| mask_has(r, e) <==> (mask_has(m, e) && e != d as u16),
        mask_wf(m) ==> mask_wf(r),
        mask_sub(r, m),
{
    let d16 = d as u16;
    let r = m & !(1u16 << d16);
    proof {
        assert(forall|e: u16| mask_has(m & !(1u16 << d16), e) <==> (mask_has(m, e) && e != d16))
            by (bit_vector)
            requires 1 <= d16 <= 9;
        if mask_wf(m) {
            assert forall|e: u16| mask_has(r, e) implies 1 <= e <= 9 by {
                assert(mask_has(m, e));
            }
        }
    }
    r
}

/// Keep only the digits of `m` that are also in `keep`.
pub fn mask_and(m: u16, keep: u16) -> (r: u16)
    ensures
        forall|e: u16| mask_has(r, e) <==> (mask_has(m, e) && mask_has(keep, e)),
        mask_wf(m) ==> mask_wf(r),
        mask_sub(r, m),
{
    let r = m & keep;
    proof {
        assert(forall|e: u16| mask_has(m & keep, e) <==> (mask_has(m, e) && mask_has(keep, e)))
            by (bit_vector);
        if mask_wf(m) {
            assert forall|e: u16| mask_has(r, e) implies 1 <= e <= 9 by {
                assert(mask_has(m, e));
            }
        }
    }
    r
}

/// Remove every digit of `rem` from `m`.
pub fn mask_diff(m: u16, rem: u16) -> (r: u16)
    ensures
        forall|e: u16| mask_has(r, e) <==> (mask_has(m, e) && !mask_has(rem, e)),
        mask_wf(m) ==> mask_wf(r),
        mask_sub(r, m),
{
    let r = m & !rem;
    proof {
        assert(forall|e: u16| mask_has(m & !rem, e) <==> (mask_has(m, e) && !mask_has(rem, e)))
            by (bit_vector);
        if mask_wf(m) {
            assert forall|e: u16| mask_has(r, e) implies 1 <= e <= 9 by {
                assert(mask_has(m, e));
            }
        }
    }
    r
}

/// Number of digits in the mask.
pub fn mask_count(m: u16) -> (r: u8)
    ensures
        r as nat == mask_card(m),
        r <= 9,
{
    let mut c: u8 = 0;
    let mut d: u8 = 1;
    while d <= 9
        invariant
            1 <= d <= 10,
            c < d,
            c as nat + mask_count_from(m, d as int) == mask_card(m),
        decreases 10 - d,
    {
        if mask_test(m, d) {
            c = c + 1;
        }
        d = d + 1;
    }
    proof {
        lemma_count_past_end(m, 10);
    }
    c
}

/// Counting from past nine gives zero.
proof fn lemma_count_past_end(m: u16, lo: int)
    requires
        lo >= 10,
    ensures
        mask_count_from(m, lo) == 0,
{
}

/// Some digit of a non-empty mask.
pub fn mask_pick(m: u16) -> (r: u8)
    requires
        mask_card(m) >= 1,
    ensures
        1 <= r <= 9,
        mask_has(m, r as u16),
{
    let mut d: u8 = 1;
    while d < 9
        invariant
            1 <= d <= 9,
            mask_count_from(m, d as int) == mask_card(m),
            mask_card(m) >= 1,
        decreases 9 - d,
    {
        if mask_test(m, d) {
            return d;
        }
        d = d + 1;
    }
    if mask_test(m, 9) {
        return 9;
    }
    proof {
        lemma_count_past_end(m, 10);
        assert(false);
    }
    9
}

} // verus!
