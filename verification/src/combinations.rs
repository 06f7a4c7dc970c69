//! Selection masks and the order in which five-element selections follow
//! one another.
//!
//! A selection of some of `n` things is a sequence of `n` flags. Read as a
//! binary number, least significant flag first, the selections with a given
//! number of set flags are ordered; `successor` steps from one to the next.
//! `position` counts how many selections of the same size come before a
//! given one, which shows that stepping from the first selection reaches
//! every selection exactly once.

use crate::binomial::{
    binomial, lemma_binomial_above, lemma_binomial_grows, lemma_binomial_nonnegative,
};
use vstd::arithmetic::power2::{lemma_pow2_pos, lemma_pow2_unfold, pow2};
use vstd::prelude::*;

verus! {

/// How many of the first `upto` flags are set.
pub open spec fn count_true(mask: Seq<bool>, upto: int) -> int
    decreases upto,
{
    if upto <= 0 {
        0
    } else {
        count_true(mask, upto - 1) + if mask[upto - 1] {
            1int
        } else {
            0int
        }
    }
}

/// The number of selections with as many set flags among the first `upto`
/// that come before this one: each set flag at place `i`, being the `j`-th
/// set flag from the start, stands for the `binomial(i, j)` selections that
/// keep the `j` lowest set flags below place `i`.
pub open spec fn position(mask: Seq<bool>, upto: int) -> int
    decreases upto,
{
    if upto <= 0 {
        0
    } else {
        position(mask, upto - 1) + if mask[upto - 1] {
            binomial(upto - 1, count_true(mask, upto))
        } else {
            0
        }
    }
}

/// The first `upto` flags read as a binary number, lowest place first.
pub open spec fn pattern(mask: Seq<bool>, upto: int) -> int
    decreases upto,
{
    if upto <= 0 {
        0
    } else {
        pattern(mask, upto - 1) + if mask[upto - 1] {
            pow2((upto - 1) as nat) as int
        } else {
            0
        }
    }
}

/// No flag is set.
pub open spec fn is_blank(mask: Seq<bool>) -> bool {
    forall|i: int| 0 <= i < mask.len() ==> !mask[i]
}

/// The mask of length `n` with no flag set.
pub open spec fn blank(n: nat) -> Seq<bool> {
    Seq::new(n, |i: int| false)
}

/// A mask over `n` things that selects five of them.
pub open spec fn is_choice(mask: Seq<bool>, n: int) -> bool {
    mask.len() == n && count_true(mask, n) == 5
}

/// The selection of the first five of `n` things.
pub open spec fn first_choice(n: nat) -> Seq<bool> {
    Seq::new(n, |i: int| i < 5)
}

/// The first place from `from` on whose flag is set; the length if none is.
pub open spec fn first_true(mask: Seq<bool>, from: int) -> int
    decreases mask.len() - from,
{
    if from < 0 || from >= mask.len() {
        mask.len() as int
    } else if mask[from] {
        from
    } else {
        first_true(mask, from + 1)
    }
}

/// The first place from `from` on whose flag is clear; the length if none
/// is.
pub open spec fn first_false(mask: Seq<bool>, from: int) -> int
    decreases mask.len() - from,
{
    if from < 0 || from >= mask.len() {
        mask.len() as int
    } else if !mask[from] {
        from
    } else {
        first_false(mask, from + 1)
    }
}

/// The next selection with the same number of set flags. The lowest run of
/// set flags gives its top flag to the place above the run and moves the
/// others down to the start. Where nothing is clear above the lowest run,
/// there is no next selection, and the result is blank.
pub open spec fn successor(mask: Seq<bool>) -> Seq<bool> {
    let low = first_true(mask, 0);
    let high = first_false(mask, low);
    if high >= mask.len() {
        blank(mask.len())
    } else {
        Seq::new(
            mask.len(),
            |i: int|
                if i < high {
                    i < high - low - 1
                } else {
                    i == high || mask[i]
                },
        )
    }
}

/// The selection reached from the first one in `k` steps.
pub open spec fn choice_at(n: nat, k: int) -> Seq<bool>
    decreases k,
{
    if k <= 0 {
        first_choice(n)
    } else {
        successor(choice_at(n, k - 1))
    }
}

/// Counts lie between zero and the number of flags counted.
pub proof fn lemma_count_bounds(mask: Seq<bool>, upto: int)
    requires
        0 <= upto,
    ensures
        0 <= count_true(mask, upto) <= upto,
    decreases upto,
{
    if upto > 0 {
        lemma_count_bounds(mask, upto - 1);
    }
}

/// Counting further never counts less.
pub proof fn lemma_count_monotone(mask: Seq<bool>, from: int, upto: int)
    requires
        from <= upto,
    ensures
        count_true(mask, from) <= count_true(mask, upto),
    decreases upto - from,
{
    if from < upto {
        lemma_count_monotone(mask, from, upto - 1);
    }
}

/// Masks that agree from `from` up to `upto`, with equal counts below
/// `from`, gain the same count and the same position over that stretch.
pub proof fn lemma_agree_above(a: Seq<bool>, b: Seq<bool>, from: int, upto: int)
    requires
        0 <= from <= upto,
        count_true(a, from) == count_true(b, from),
        forall|i: int| from <= i < upto ==> a[i] == b[i],
    ensures
        count_true(a, upto) == count_true(b, upto),
        position(a, upto) - position(a, from) == position(b, upto) - position(b, from),
    decreases upto - from,
{
    if from < upto {
        lemma_agree_above(a, b, from, upto - 1);
    }
}

/// A mask whose set flags are the first `c` has position zero.
pub proof fn lemma_low_block(mask: Seq<bool>, c: int, upto: int)
    requires
        0 <= c,
        0 <= upto,
        forall|i: int| 0 <= i < upto ==> mask[i] == (i < c),
    ensures
        count_true(mask, upto) == if c < upto {
            c
        } else {
            upto
        },
        position(mask, upto) == 0,
    decreases upto,
{
    if upto > 0 {
        lemma_low_block(mask, c, upto - 1);
        if mask[upto - 1] {
            lemma_binomial_above(upto - 1, upto);
        }
    }
}

/// A mask whose set flags are all those from place `a` on is the last
/// selection of its size.
pub proof fn lemma_high_block(mask: Seq<bool>, a: int, upto: int)
    requires
        0 <= a <= upto,
        forall|i: int| 0 <= i < upto ==> mask[i] == (i >= a),
    ensures
        count_true(mask, upto) == upto - a,
        position(mask, upto) == binomial(upto, upto - a) - 1,
    decreases upto,
{
    if upto == a {
        lemma_low_block(mask, 0, upto);
    } else {
        lemma_high_block(mask, a, upto - 1);
    }
}

/// What `first_true` finds: the flags before it are clear, and the flag at
/// it is set unless it is the length.
pub proof fn lemma_first_true(mask: Seq<bool>, from: int)
    requires
        0 <= from <= mask.len(),
    ensures
        from <= first_true(mask, from) <= mask.len(),
        forall|i: int| from <= i < first_true(mask, from) ==> !mask[i],
        first_true(mask, from) < mask.len() ==> mask[first_true(mask, from)],
    decreases mask.len() - from,
{
    if from < mask.len() && !mask[from] {
        lemma_first_true(mask, from + 1);
    }
}

/// What `first_false` finds: the flags before it are set, and the flag at
/// it is clear unless it is the length.
pub proof fn lemma_first_false(mask: Seq<bool>, from: int)
    requires
        0 <= from <= mask.len(),
    ensures
        from <= first_false(mask, from) <= mask.len(),
        forall|i: int| from <= i < first_false(mask, from) ==> mask[i],
        first_false(mask, from) < mask.len() ==> !mask[first_false(mask, from)],
    decreases mask.len() - from,
{
    if from < mask.len() && mask[from] {
        lemma_first_false(mask, from + 1);
    }
}

/// A mask whose lowest run of set flags reaches from `low` up to `high` has
/// its first set flag at `low` and its first clear flag after that at
/// `high`.
pub proof fn lemma_lowest_run(mask: Seq<bool>, low: int, high: int)
    requires
        0 <= low < high <= mask.len(),
        forall|i: int| 0 <= i < low ==> !mask[i],
        forall|i: int| low <= i < high ==> mask[i],
        high < mask.len() ==> !mask[high],
    ensures
        first_true(mask, 0) == low,
        first_false(mask, low) == high,
{
    lemma_first_true(mask, 0);
    lemma_first_false(mask, low);
    assert(mask[low]);
}

/// A step keeps the number of set flags and moves one position on; where
/// there is no next selection, the mask was the last of its size.
pub proof fn lemma_successor(mask: Seq<bool>)
    requires
        count_true(mask, mask.len() as int) >= 1,
    ensures
        successor(mask).len() == mask.len(),
        !is_blank(mask),
        is_blank(successor(mask)) ==> position(mask, mask.len() as int) == binomial(
            mask.len() as int,
            count_true(mask, mask.len() as int),
        ) - 1,
        !is_blank(successor(mask)) ==> count_true(successor(mask), mask.len() as int)
            == count_true(mask, mask.len() as int) && position(
            successor(mask),
            mask.len() as int,
        ) == position(mask, mask.len() as int) + 1,
{
    let n = mask.len() as int;
    let low = first_true(mask, 0);
    lemma_first_true(mask, 0);
    if low >= n {
        lemma_low_block(mask, 0, n);
    }
    let high = first_false(mask, low);
    lemma_first_false(mask, low);
    let next = successor(mask);
    assert(mask[low]);
    if high >= n {
        lemma_high_block(mask, low, n);
    } else {
        let run = high - low;
        lemma_high_block(mask, low, high);
        lemma_low_block(next, run - 1, high);
        assert(next[high]);
        assert(count_true(mask, high + 1) == run);
        assert(count_true(next, high + 1) == run);
        assert(position(mask, high + 1) == binomial(high, run) - 1);
        assert(position(next, high + 1) == binomial(high, run));
        lemma_agree_above(next, mask, high + 1, n);
    }
}

/// The position of a selection is smaller than the number of selections of
/// its size.
pub proof fn lemma_position_bound(mask: Seq<bool>, upto: int)
    requires
        0 <= upto,
    ensures
        0 <= position(mask, upto) < binomial(upto, count_true(mask, upto)),
    decreases upto,
{
    if upto > 0 {
        lemma_position_bound(mask, upto - 1);
        lemma_count_bounds(mask, upto - 1);
        let below = count_true(mask, upto - 1);
        if mask[upto - 1] {
            lemma_binomial_nonnegative(upto - 1, below + 1);
        } else {
            lemma_binomial_grows(upto - 1, below);
        }
    }
}

/// Two selections of one size that hold the same position are the same
/// selection.
pub proof fn lemma_position_injective(a: Seq<bool>, b: Seq<bool>, upto: int)
    requires
        0 <= upto <= a.len(),
        upto <= b.len(),
        count_true(a, upto) == count_true(b, upto),
        position(a, upto) == position(b, upto),
    ensures
        forall|i: int| 0 <= i < upto ==> a[i] == b[i],
    decreases upto,
{
    if upto > 0 {
        lemma_position_bound(a, upto - 1);
        lemma_position_bound(b, upto - 1);
        if a[upto - 1] == b[upto - 1] {
            lemma_position_injective(a, b, upto - 1);
        }
    }
}

/// The first selection has five set flags and position zero.
pub proof fn lemma_first_choice(n: nat)
    requires
        n >= 5,
    ensures
        is_choice(first_choice(n), n as int),
        position(first_choice(n), n as int) == 0,
{
    lemma_low_block(first_choice(n), 5, n as int);
}

/// Stepping from the first selection, the `k`-th mask reached is a selection
/// of five with position `k`, for every `k` below the number of five-element
/// subsets.
pub proof fn lemma_choice_at(n: nat, k: int)
    requires
        n >= 5,
        0 <= k < binomial(n as int, 5),
    ensures
        is_choice(choice_at(n, k), n as int),
        position(choice_at(n, k), n as int) == k,
    decreases k,
{
    if k == 0 {
        lemma_first_choice(n);
    } else {
        lemma_choice_at(n, k - 1);
        lemma_successor(choice_at(n, k - 1));
    }
}

/// After as many steps as there are five-element subsets, no selection is
/// left.
pub proof fn lemma_choice_at_end(n: nat)
    requires
        n >= 5,
    ensures
        binomial(n as int, 5) >= 1,
        is_blank(choice_at(n, binomial(n as int, 5))),
        choice_at(n, binomial(n as int, 5)).len() == n,
{
    lemma_first_choice(n);
    lemma_position_bound(first_choice(n), n as int);
    let total = binomial(n as int, 5);
    lemma_choice_at(n, total - 1);
    let last = choice_at(n, total - 1);
    lemma_successor(last);
    if !is_blank(successor(last)) {
        lemma_position_bound(successor(last), n as int);
    }
}

/// Every selection of five out of `n` is reached, at the step that its
/// position names.
pub proof fn lemma_every_choice_is_reached(mask: Seq<bool>, n: nat)
    requires
        n >= 5,
        is_choice(mask, n as int),
    ensures
        0 <= position(mask, n as int) < binomial(n as int, 5),
        choice_at(n, position(mask, n as int)) == mask,
{
    lemma_position_bound(mask, n as int);
    let k = position(mask, n as int);
    lemma_choice_at(n, k);
    lemma_position_injective(choice_at(n, k), mask, n as int);
    assert(choice_at(n, k) =~= mask);
}

/// No selection is reached twice.
pub proof fn lemma_choices_differ(n: nat, j: int, k: int)
    requires
        n >= 5,
        0 <= j < k < binomial(n as int, 5),
    ensures
        choice_at(n, j) != choice_at(n, k),
{
    lemma_choice_at(n, j);
    lemma_choice_at(n, k);
}

/// The binary number of `upto` flags is below two to the power of `upto`.
pub proof fn lemma_pattern_bound(mask: Seq<bool>, upto: int)
    requires
        0 <= upto,
    ensures
        0 <= pattern(mask, upto) < pow2(upto as nat),
    decreases upto,
{
    lemma_pow2_pos(upto as nat);
    if upto > 0 {
        lemma_pattern_bound(mask, upto - 1);
        lemma_pow2_unfold(upto as nat);
    }
}

/// Selections of one size stand in the order of their binary numbers: one
/// comes before another exactly when its number is the smaller.
pub proof fn lemma_position_follows_pattern(a: Seq<bool>, b: Seq<bool>, upto: int)
    requires
        0 <= upto,
        count_true(a, upto) == count_true(b, upto),
    ensures
        pattern(a, upto) < pattern(b, upto) <==> position(a, upto) < position(b, upto),
        pattern(a, upto) == pattern(b, upto) <==> position(a, upto) == position(b, upto),
    decreases upto,
{
    if upto > 0 {
        lemma_pattern_bound(a, upto - 1);
        lemma_pattern_bound(b, upto - 1);
        lemma_position_bound(a, upto - 1);
        lemma_position_bound(b, upto - 1);
        if a[upto - 1] == b[upto - 1] {
            lemma_position_follows_pattern(a, b, upto - 1);
        }
    }
}

/// A step leads to the next greater binary number with as many set flags:
/// the number grows, and no selection of the same size has a number in
/// between. Where there is no next selection, no selection of the same size
/// has a greater number.
pub proof fn lemma_successor_is_next_pattern(mask: Seq<bool>, other: Seq<bool>)
    requires
        count_true(mask, mask.len() as int) >= 1,
        other.len() == mask.len(),
        count_true(other, mask.len() as int) == count_true(mask, mask.len() as int),
    ensures
        !is_blank(successor(mask)) ==> pattern(mask, mask.len() as int) < pattern(
            successor(mask),
            mask.len() as int,
        ) && !(pattern(mask, mask.len() as int) < pattern(other, mask.len() as int) < pattern(
            successor(mask),
            mask.len() as int,
        )),
        is_blank(successor(mask)) ==> pattern(other, mask.len() as int) <= pattern(
            mask,
            mask.len() as int,
        ),
{
    let n = mask.len() as int;
    lemma_successor(mask);
    lemma_position_follows_pattern(mask, other, n);
    lemma_position_bound(other, n);
    if !is_blank(successor(mask)) {
        lemma_position_follows_pattern(mask, successor(mask), n);
        lemma_position_follows_pattern(other, successor(mask), n);
    }
}

} // verus!
