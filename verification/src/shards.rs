//! Splitting trials into shards of nearly equal size.

use vstd::prelude::*;

verus! {

/// The number of trials that one shard runs: an equal share, and one more
/// for each of the first shards until the remainder is used up.
pub open spec fn shard_size(total: int, shards: int, index: int) -> int {
    total / shards + if index < total % shards {
        1int
    } else {
        0int
    }
}

/// The number of trials that the first `upto` shards run together.
pub open spec fn shards_total(total: int, shards: int, upto: int) -> int
    decreases upto,
{
    if upto <= 0 {
        0
    } else {
        shards_total(total, shards, upto - 1) + shard_size(total, shards, upto - 1)
    }
}

/// The shards of the first `upto` places run `upto` equal shares and as
/// much of the remainder as they reach.
proof fn lemma_shards_total_upto(total: int, shards: int, upto: int)
    requires
        0 <= total,
        0 < shards,
        0 <= upto <= shards,
    ensures
        shards_total(total, shards, upto) == upto * (total / shards) + if upto < total % shards {
            upto
        } else {
            total % shards
        },
    decreases upto,
{
    vstd::arithmetic::div_mod::lemma_mod_bound(total, shards);
    if upto > 0 {
        lemma_shards_total_upto(total, shards, upto - 1);
        assert(upto * (total / shards) == (upto - 1) * (total / shards) + total / shards)
            by (nonlinear_arith);
    } else {
        assert(upto * (total / shards) == 0) by (nonlinear_arith)
            requires
                upto == 0,
        ;
    }
}

/// Together the shards run every trial, and no trial twice.
pub proof fn lemma_shards_cover_all_trials(total: int, shards: int)
    requires
        0 <= total,
        0 < shards,
    ensures
        shards_total(total, shards, shards) == total,
{
    lemma_shards_total_upto(total, shards, shards);
    vstd::arithmetic::div_mod::lemma_fundamental_div_mod(total, shards);
    vstd::arithmetic::div_mod::lemma_mod_bound(total, shards);
}

/// No shard runs more than one trial more than another, and none runs more
/// than there are.
pub proof fn lemma_shards_are_balanced(total: int, shards: int, i: int, j: int)
    requires
        0 <= total,
        0 < shards,
        0 <= i < shards,
        0 <= j < shards,
    ensures
        -1 <= shard_size(total, shards, i) - shard_size(total, shards, j) <= 1,
        i <= j ==> shard_size(total, shards, i) >= shard_size(total, shards, j),
        0 <= shard_size(total, shards, i) <= total,
{
    vstd::arithmetic::div_mod::lemma_fundamental_div_mod(total, shards);
    let share = total / shards;
    assert(0 <= share) by (nonlinear_arith)
        requires
            0 <= total,
            0 < shards,
            share == total / shards,
    ;
    assert(share <= shards * share) by (nonlinear_arith)
        requires
            0 <= share,
            1 <= shards,
    ;
}

/// The number of trials for the shard at `thread_index`.
pub fn get_num_sims_for_thread(
    total_num_sims: u64,
    total_num_threads: u64,
    thread_index: u64,
) -> (sims: u64)
    requires
        thread_index < total_num_threads,
    ensures
        sims == shard_size(total_num_sims as int, total_num_threads as int, thread_index as int),
{
    proof {
        lemma_shards_are_balanced(
            total_num_sims as int,
            total_num_threads as int,
            thread_index as int,
            thread_index as int,
        );
    }
    let base_num_sims = total_num_sims / total_num_threads;
    let threads_with_extra = total_num_sims % total_num_threads;
    let this_threads_extra: u64 = if thread_index < threads_with_extra {
        1
    } else {
        0
    };
    base_num_sims + this_threads_extra
}

/// The more shards are counted, the more trials they run together.
pub proof fn lemma_shards_total_grows(total: int, shards: int, from: int, upto: int)
    requires
        0 <= total,
        0 < shards,
        0 <= from <= upto <= shards,
    ensures
        0 <= shards_total(total, shards, from) <= shards_total(total, shards, upto),
    decreases upto,
{
    if upto > 0 {
        lemma_shards_are_balanced(total, shards, upto - 1, upto - 1);
        if from < upto {
            lemma_shards_total_grows(total, shards, from, upto - 1);
        } else {
            lemma_shards_total_grows(total, shards, upto - 1, upto - 1);
        }
    }
}

} // verus!
