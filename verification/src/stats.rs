//! Counting simulated outcomes.
//!
//! An outcome is the list of players who win a trial together, in ascending
//! order. For each outcome the aggregate counts, per hand category, the
//! trials that ended in it.

use crate::hand::{hand_to_index, Hand, NUM_HANDS};
use vstd::prelude::*;

verus! {

/// The sum of the first `upto` counts.
pub open spec fn sum_upto(counts: Seq<u64>, upto: int) -> int
    decreases upto,
{
    if upto <= 0 {
        0
    } else {
        sum_upto(counts, upto - 1) + counts[upto - 1]
    }
}

/// The sum is at least each count that it includes, and none of its parts
/// is negative.
pub proof fn lemma_sum_upto_bounds(counts: Seq<u64>, upto: int, at: int)
    requires
        0 <= at < upto,
    ensures
        counts[at] <= sum_upto(counts, upto),
        0 <= sum_upto(counts, at) <= sum_upto(counts, upto),
    decreases upto,
{
    if at + 1 < upto {
        lemma_sum_upto_bounds(counts, upto - 1, at);
    } else if at > 0 {
        lemma_sum_upto_bounds(counts, at, at - 1);
    }
}

/// Raising one count by one raises the sums that include it by one and
/// leaves the others alone.
pub proof fn lemma_sum_upto_update(counts: Seq<u64>, upto: int, at: int, value: u64)
    requires
        0 <= at < counts.len(),
        0 <= upto <= counts.len(),
    ensures
        sum_upto(counts.update(at, value), upto) == sum_upto(counts, upto) + if at < upto {
            value - counts[at]
        } else {
            0
        },
    decreases upto,
{
    if upto > 0 {
        lemma_sum_upto_update(counts, upto - 1, at, value);
    }
}

/// The counts of two tallies added up, category by category.
pub open spec fn added(a: Seq<u64>, b: Seq<u64>) -> Seq<u64> {
    Seq::new(NUM_HANDS as nat, |i: int| (a[i] + b[i]) as u64)
}

/// Where no count overflows, the sum of added counts is the sum of the
/// sums.
pub proof fn lemma_sum_upto_added(a: Seq<u64>, b: Seq<u64>, upto: int)
    requires
        0 <= upto <= NUM_HANDS,
        a.len() == NUM_HANDS,
        b.len() == NUM_HANDS,
        sum_upto(a, NUM_HANDS as int) + sum_upto(b, NUM_HANDS as int) <= u64::MAX,
    ensures
        sum_upto(added(a, b), upto) == sum_upto(a, upto) + sum_upto(b, upto),
    decreases upto,
{
    if upto > 0 {
        lemma_sum_upto_added(a, b, upto - 1);
        lemma_sum_upto_bounds(a, NUM_HANDS as int, upto - 1);
        lemma_sum_upto_bounds(b, NUM_HANDS as int, upto - 1);
    }
}

/// How often each hand category won, for one outcome.
#[derive(Clone, Copy, Debug)]
pub struct HandStats {
    /// Number of trials per category, weakest category first.
    pub events: [u64; NUM_HANDS],
}

impl HandStats {
    /// The number of trials counted, over all categories.
    pub open spec fn total(&self) -> int {
        sum_upto(self.events@, NUM_HANDS as int)
    }

    /// Counts with one more trial in the given category.
    pub open spec fn bumped(counts: Seq<u64>, category: int) -> Seq<u64> {
        counts.update(category, (counts[category] + 1) as u64)
    }

    /// No trial counted yet.
    pub fn create() -> (stats: HandStats)
        ensures
            forall|i: int| 0 <= i < NUM_HANDS ==> stats.events[i] == 0,
            stats.total() == 0,
    {
        let stats = HandStats { events: [0;NUM_HANDS] };
        proof {
            reveal_with_fuel(sum_upto, 10);
        }
        stats
    }

    /// Counts one more trial won by a hand of this category.
    pub fn add_event(&mut self, hand: &Hand)
        requires
            old(self).events[hand.category()] < u64::MAX,
        ensures
            final(self).events@ == HandStats::bumped(old(self).events@, hand.category()),
            final(self).total() == old(self).total() + 1,
    {
        let event_index: u8 = hand_to_index(hand);
        proof {
            lemma_sum_upto_update(
                self.events@,
                NUM_HANDS as int,
                event_index as int,
                (self.events[event_index as int] + 1) as u64,
            );
        }
        self.events[event_index as usize] += 1;
    }

    /// Adds the counts of another tally to this one.
    pub fn add_stats(&mut self, other: &HandStats)
        requires
            old(self).total() + other.total() <= u64::MAX,
        ensures
            final(self).events@ == added(old(self).events@, other.events@),
            final(self).total() == old(self).total() + other.total(),
    {
        let mut index: usize = 0;
        while index < NUM_HANDS
            invariant
                index <= NUM_HANDS,
                old(self).total() + other.total() <= u64::MAX,
                forall|i: int|
                    0 <= i < index ==> self.events[i] == old(self).events[i] + other.events[i],
                forall|i: int| index <= i < NUM_HANDS ==> self.events[i] == old(self).events[i],
            decreases NUM_HANDS - index,
        {
            proof {
                lemma_sum_upto_bounds(old(self).events@, NUM_HANDS as int, index as int);
                lemma_sum_upto_bounds(other.events@, NUM_HANDS as int, index as int);
            }
            self.events[index] += other.events[index];
            index += 1;
        }
        proof {
            assert forall|i: int| 0 <= i < NUM_HANDS implies self.events@[i] == #[trigger] added(
                old(self).events@,
                other.events@,
            )[i] by {
                lemma_sum_upto_bounds(old(self).events@, NUM_HANDS as int, i);
                lemma_sum_upto_bounds(other.events@, NUM_HANDS as int, i);
            }
            assert(self.events@ =~= added(old(self).events@, other.events@));
            lemma_sum_upto_added(old(self).events@, other.events@, NUM_HANDS as int);
        }
    }

    /// The number of trials counted, over all categories.
    pub fn total_events(&self) -> (total: u64)
        requires
            self.total() <= u64::MAX,
        ensures
            total == self.total(),
    {
        let mut total: u64 = 0;
        let mut index: usize = 0;
        while index < NUM_HANDS
            invariant
                index <= NUM_HANDS,
                total == sum_upto(self.events@, index as int),
                self.total() <= u64::MAX,
            decreases NUM_HANDS - index,
        {
            proof {
                lemma_sum_upto_bounds(self.events@, NUM_HANDS as int, index as int);
                if index + 1 < NUM_HANDS {
                    lemma_sum_upto_bounds(self.events@, NUM_HANDS as int, index + 1);
                }
            }
            total += self.events[index];
            index += 1;
        }
        total
    }
}

/// The counts of one outcome.
#[derive(Debug)]
pub struct OutcomeStats {
    /// The players who win together, in ascending order.
    pub winners: Vec<usize>,
    /// How often each hand category won for them.
    pub stats: HandStats,
}

/// The number of trials that the first `upto` entries count.
pub open spec fn entries_total(entries: Seq<OutcomeStats>, upto: int) -> int
    decreases upto,
{
    if upto <= 0 {
        0
    } else {
        entries_total(entries, upto - 1) + entries[upto - 1].stats.total()
    }
}

/// The first `upto` entries as a map from outcome to counts.
pub open spec fn entries_map(entries: Seq<OutcomeStats>, upto: int) -> Map<Seq<usize>, Seq<u64>>
    decreases upto,
{
    if upto <= 0 {
        Map::empty()
    } else {
        entries_map(entries, upto - 1).insert(
            entries[upto - 1].winners@,
            entries[upto - 1].stats.events@,
        )
    }
}

/// Counts with `n` more trials in the given category.
pub open spec fn raised(counts: Seq<u64>, category: int, n: int) -> Seq<u64> {
    counts.update(category, (counts[category] + n) as u64)
}

/// A map of counts after `n` more trials that all ended in one outcome with
/// a hand of one category.
pub open spec fn recorded(
    map: Map<Seq<usize>, Seq<u64>>,
    winners: Seq<usize>,
    category: int,
    n: int,
) -> Map<Seq<usize>, Seq<u64>> {
    if n <= 0 {
        map
    } else {
        map.insert(winners, raised(counts_in(map, winners), category, n))
    }
}

/// No outcome has two entries.
pub open spec fn distinct_outcomes(entries: Seq<OutcomeStats>) -> bool {
    forall|i: int, j: int|
        0 <= i < j < entries.len() ==> (#[trigger] entries[i]).winners@ != (
        #[trigger] entries[j]).winners@
}

/// Nine counts of zero.
pub open spec fn no_events() -> Seq<u64> {
    Seq::new(NUM_HANDS as nat, |i: int| 0u64)
}

/// The counts that a map holds for an outcome; all zero for one that it
/// does not hold.
pub open spec fn counts_in(map: Map<Seq<usize>, Seq<u64>>, winners: Seq<usize>) -> Seq<u64> {
    if map.dom().contains(winners) {
        map[winners]
    } else {
        no_events()
    }
}

/// Where no outcome has two entries, the map holds each entry's counts
/// under its outcome, and nothing else.
pub proof fn lemma_entries_map(entries: Seq<OutcomeStats>, upto: int)
    requires
        distinct_outcomes(entries),
        0 <= upto <= entries.len(),
    ensures
        forall|i: int|
            0 <= i < upto ==> entries_map(entries, upto).dom().contains(
                (#[trigger] entries[i]).winners@,
            ) && entries_map(entries, upto)[entries[i].winners@] == entries[i].stats.events@,
        forall|key: Seq<usize>| #[trigger]
            entries_map(entries, upto).dom().contains(key) ==> exists|i: int|
                0 <= i < upto && (#[trigger] entries[i]).winners@ == key,
    decreases upto,
{
    if upto > 0 {
        lemma_entries_map(entries, upto - 1);
        let below = entries_map(entries, upto - 1);
        let now = entries_map(entries, upto);
        assert forall|key: Seq<usize>| #[trigger] now.dom().contains(key) implies exists|i: int|
            0 <= i < upto && (#[trigger] entries[i]).winners@ == key by {
            if below.dom().contains(key) {
                let i = choose|i: int| 0 <= i < upto - 1 && (#[trigger] entries[i]).winners@ == key;
                assert(entries[i].winners@ == key);
            } else {
                assert(entries[upto - 1].winners@ == key);
            }
        }
    }
}

/// The total is at least the total of each entry and of each shorter run
/// of entries.
pub proof fn lemma_entries_total_bounds(entries: Seq<OutcomeStats>, upto: int, at: int)
    requires
        0 <= at < upto,
    ensures
        0 <= entries[at].stats.total() <= entries_total(entries, upto),
        0 <= entries_total(entries, at) <= entries_total(entries, upto),
    decreases upto,
{
    lemma_sum_upto_bounds(entries[at].stats.events@, NUM_HANDS as int, 0);
    if at + 1 < upto {
        lemma_sum_upto_bounds(entries[upto - 1].stats.events@, NUM_HANDS as int, 0);
        lemma_entries_total_bounds(entries, upto - 1, at);
    } else if at > 0 {
        lemma_entries_total_bounds(entries, at, at - 1);
    }
}

/// Entries that agree below `upto` give the same map and the same total
/// there.
pub proof fn lemma_entries_agree(a: Seq<OutcomeStats>, b: Seq<OutcomeStats>, upto: int)
    requires
        0 <= upto <= a.len(),
        upto <= b.len(),
        forall|i: int| 0 <= i < upto ==> a[i] == b[i],
    ensures
        entries_map(a, upto) == entries_map(b, upto),
        entries_total(a, upto) == entries_total(b, upto),
    decreases upto,
{
    if upto > 0 {
        lemma_entries_agree(a, b, upto - 1);
    }
}

/// Replacing the counts of one entry replaces them in the map and moves
/// the total by the difference.
pub proof fn lemma_entries_replace(
    entries: Seq<OutcomeStats>,
    at: int,
    entry: OutcomeStats,
    upto: int,
)
    requires
        distinct_outcomes(entries),
        0 <= at < entries.len(),
        0 <= upto <= entries.len(),
        entry.winners@ == entries[at].winners@,
    ensures
        distinct_outcomes(entries.update(at, entry)),
        entries_total(entries.update(at, entry), upto) == entries_total(entries, upto) + if at
            < upto {
            entry.stats.total() - entries[at].stats.total()
        } else {
            0
        },
        entries_map(entries.update(at, entry), upto) =~= if at < upto {
            entries_map(entries, upto).insert(entry.winners@, entry.stats.events@)
        } else {
            entries_map(entries, upto)
        },
    decreases upto,
{
    let changed = entries.update(at, entry);
    assert(distinct_outcomes(changed)) by {
        assert forall|i: int, j: int| 0 <= i < j < changed.len() implies (
        #[trigger] changed[i]).winners@ != (#[trigger] changed[j]).winners@ by {
            assert(entries[i].winners@ != entries[j].winners@);
        }
    }
    if upto > 0 {
        lemma_entries_replace(entries, at, entry, upto - 1);
        if at < upto - 1 {
            assert(entries[at].winners@ != entries[upto - 1].winners@);
        }
    }
}

/// Outcomes and, for each, how often each hand category won it.
#[derive(Debug)]
pub struct EquityAggregate {
    entries: Vec<OutcomeStats>,
}

impl View for EquityAggregate {
    type V = Map<Seq<usize>, Seq<u64>>;

    /// The counts per category, by outcome.
    open spec fn view(&self) -> Map<Seq<usize>, Seq<u64>> {
        entries_map(self.entries(), self.entries().len() as int)
    }
}

impl EquityAggregate {
    /// The entries, one per outcome seen, in the order in which the outcomes
    /// were first seen.
    pub closed spec fn entries(&self) -> Seq<OutcomeStats> {
        self.entries@
    }

    /// No outcome has two entries, and the number of trials fits the
    /// counters.
    pub open spec fn wf(&self) -> bool {
        &&& distinct_outcomes(self.entries())
        &&& self.total() <= u64::MAX
    }

    /// The number of trials counted, over all outcomes and categories.
    pub open spec fn total(&self) -> int {
        entries_total(self.entries(), self.entries().len() as int)
    }

    /// The counts of an outcome; all zero for one not seen.
    pub open spec fn counts(&self, winners: Seq<usize>) -> Seq<u64> {
        counts_in(self@, winners)
    }

    /// No count is greater than the number of all trials counted.
    pub proof fn lemma_counts_within_total(&self, winners: Seq<usize>, category: int)
        requires
            self.wf(),
            0 <= category < NUM_HANDS,
        ensures
            self.counts(winners).len() == NUM_HANDS,
            0 <= self.counts(winners)[category] <= self.total(),
    {
        let entries = self.entries();
        let n = entries.len() as int;
        lemma_counts_len(entries, n, winners);
        lemma_entries_map(entries, n);
        if self@.dom().contains(winners) {
            let i = choose|i: int| 0 <= i < n && (#[trigger] entries[i]).winners@ == winners;
            lemma_entries_total_bounds(entries, n, i);
            lemma_sum_upto_bounds(entries[i].stats.events@, NUM_HANDS as int, category);
        } else if n > 0 {
            lemma_entries_total_bounds(entries, n, 0);
        }
    }

    /// An aggregate that has counted nothing.
    pub fn new() -> (outcomes: EquityAggregate)
        ensures
            outcomes.wf(),
            outcomes@ == Map::<Seq<usize>, Seq<u64>>::empty(),
            outcomes.total() == 0,
            outcomes.entries().len() == 0,
    {
        EquityAggregate { entries: Vec::new() }
    }

    /// The number of outcomes seen.
    pub fn len(&self) -> (n: usize)
        ensures
            n == self.entries().len(),
    {
        self.entries.len()
    }

    /// The entry at a position below `len()`.
    pub fn entry(&self, at: usize) -> (entry: &OutcomeStats)
        requires
            at < self.entries().len(),
        ensures
            *entry == self.entries()[at as int],
    {
        &self.entries[at]
    }

    /// The position of the entry of an outcome, if it has been seen.
    pub fn find(&self, winners: &Vec<usize>) -> (found: Option<usize>)
        requires
            self.wf(),
        ensures
            found is Some <==> self@.dom().contains(winners@),
            found is Some ==> {
                let entry = self.entries()[found->0 as int];
                &&& found->0 < self.entries().len()
                &&& entry.winners@ == winners@
                &&& entry.stats.events@ == self@[winners@]
            },
    {
        let mut at: usize = 0;
        while at < self.entries.len()
            invariant
                at <= self.entries.len(),
                distinct_outcomes(self.entries@),
                forall|i: int| 0 <= i < at ==> (#[trigger] self.entries[i]).winners@ != winners@,
            decreases self.entries.len() - at,
        {
            if same_winners(&self.entries[at].winners, winners) {
                proof {
                    lemma_entries_map(self.entries@, self.entries@.len() as int);
                }
                return Some(at);
            }
            at += 1;
        }
        proof {
            lemma_entries_map(self.entries@, self.entries@.len() as int);
        }
        None
    }

    /// The counts of an outcome, if it has been seen.
    pub fn get(&self, winners: &Vec<usize>) -> (stats: Option<HandStats>)
        requires
            self.wf(),
        ensures
            stats is Some <==> self@.dom().contains(winners@),
            stats is Some ==> stats->0.events@ == self@[winners@],
    {
        match self.find(winners) {
            Some(at) => Some(self.entries[at].stats),
            None => None,
        }
    }

    /// The number of trials counted, over all outcomes and categories.
    pub fn total_events(&self) -> (total: u64)
        requires
            self.wf(),
        ensures
            total == self.total(),
    {
        let mut total: u64 = 0;
        let mut at: usize = 0;
        while at < self.entries.len()
            invariant
                at <= self.entries.len(),
                total == entries_total(self.entries@, at as int),
                entries_total(self.entries@, self.entries@.len() as int) <= u64::MAX,
            decreases self.entries.len() - at,
        {
            proof {
                lemma_entries_total_bounds(self.entries@, self.entries@.len() as int, at as int);
                if at + 1 < self.entries.len() {
                    lemma_entries_total_bounds(
                        self.entries@,
                        self.entries@.len() as int,
                        at + 1,
                    );
                }
            }
            total += self.entries[at].stats.total_events();
            at += 1;
        }
        total
    }

    /// The position of the entry of an outcome; an entry with no trials is
    /// made for an outcome not seen before.
    fn find_or_start(&mut self, winners: &Vec<usize>) -> (at: usize)
        requires
            old(self).wf(),
        ensures
            final(self).wf(),
            final(self).total() == old(self).total(),
            at < final(self).entries().len(),
            final(self).entries()[at as int].winners@ == winners@,
            final(self).entries()[at as int].stats.events@ == old(self).counts(winners@),
            final(self)@ == old(self)@.insert(winners@, old(self).counts(winners@)),
    {
        let ghost before = self.entries@;
        match self.find(winners) {
            Some(at) => {
                assert(self@ =~= old(self)@.insert(winners@, old(self).counts(winners@)));
                at
            },
            None => {
                let fresh = OutcomeStats {
                    winners: copy_winners(winners),
                    stats: HandStats::create(),
                };
                self.entries.push(fresh);
                proof {
                    lemma_entries_map(before, before.len() as int);
                    lemma_entries_agree(before, self.entries@, before.len() as int);
                    assert(fresh.stats.events@ =~= no_events());
                    assert(distinct_outcomes(self.entries@)) by {
                        assert forall|i: int, j: int| 0 <= i < j < self.entries@.len() implies (
                        #[trigger] self.entries@[i]).winners@ != (
                        #[trigger] self.entries@[j]).winners@ by {
                            if j < before.len() {
                                assert(before[i].winners@ != before[j].winners@);
                            } else {
                                assert(before[i].winners@ != winners@);
                            }
                        }
                    }
                }
                self.entries.len() - 1
            },
        }
    }

    /// Counts one more trial that these players won together with this
    /// hand.
    pub fn record(&mut self, winners: &Vec<usize>, hand: &Hand)
        requires
            old(self).wf(),
            old(self).total() < u64::MAX,
        ensures
            final(self).wf(),
            final(self)@ == old(self)@.insert(
                winners@,
                HandStats::bumped(old(self).counts(winners@), hand.category()),
            ),
            final(self).total() == old(self).total() + 1,
    {
        let at = self.find_or_start(winners);
        let ghost started = self.entries@;
        let ghost n = started.len() as int;
        proof {
            lemma_entries_total_bounds(started, n, at as int);
            lemma_sum_upto_bounds(
                started[at as int].stats.events@,
                NUM_HANDS as int,
                hand.category(),
            );
        }
        let mut entry = self.entries.remove(at);
        entry.stats.add_event(hand);
        self.entries.insert(at, entry);
        proof {
            assert(self.entries@ =~= started.update(at as int, entry));
            lemma_entries_replace(started, at as int, entry, n);
            assert(self@ =~= old(self)@.insert(winners@, entry.stats.events@));
        }
    }

    /// Adds a tally to the counts of an outcome.
    pub fn add_counts(&mut self, winners: &Vec<usize>, stats: &HandStats)
        requires
            old(self).wf(),
            old(self).total() + stats.total() <= u64::MAX,
        ensures
            final(self).wf(),
            final(self)@ == old(self)@.insert(
                winners@,
                added(old(self).counts(winners@), stats.events@),
            ),
            final(self).total() == old(self).total() + stats.total(),
    {
        let at = self.find_or_start(winners);
        let ghost started = self.entries@;
        let ghost n = started.len() as int;
        proof {
            lemma_entries_total_bounds(started, n, at as int);
        }
        let mut entry = self.entries.remove(at);
        entry.stats.add_stats(stats);
        self.entries.insert(at, entry);
        proof {
            assert(self.entries@ =~= started.update(at as int, entry));
            lemma_entries_replace(started, at as int, entry, n);
            assert(self@ =~= old(self)@.insert(winners@, entry.stats.events@));
        }
    }

    /// Adds everything that another aggregate has counted to this one.
    pub fn merge(&mut self, other: &EquityAggregate)
        requires
            old(self).wf(),
            other.wf(),
            old(self).total() + other.total() <= u64::MAX,
        ensures
            final(self).wf(),
            final(self).total() == old(self).total() + other.total(),
            final(self)@.dom() == old(self)@.dom().union(other@.dom()),
            forall|winners: Seq<usize>| #[trigger]
                final(self).counts(winners) == added(
                    old(self).counts(winners),
                    other.counts(winners),
                ),
    {
        let mut at: usize = 0;
        proof {
            assert(self@.dom() =~= old(self)@.dom().union(entries_map(other.entries@, 0).dom()));
            assert forall|winners: Seq<usize>| #[trigger]
                self.counts(winners) == added(
                    old(self).counts(winners),
                    counts_in(entries_map(other.entries@, 0), winners),
                ) by {
                lemma_counts_len(self.entries@, self.entries@.len() as int, winners);
                assert(self.counts(winners) =~= added(old(self).counts(winners), no_events()));
            }
        }
        while at < other.entries.len()
            invariant
                at <= other.entries.len(),
                self.wf(),
                other.wf(),
                old(self).total() + other.total() <= u64::MAX,
                self.total() == old(self).total() + entries_total(other.entries@, at as int),
                self@.dom() == old(self)@.dom().union(entries_map(other.entries@, at as int).dom()),
                forall|winners: Seq<usize>| #[trigger]
                    self.counts(winners) == added(
                        old(self).counts(winners),
                        counts_in(entries_map(other.entries@, at as int), winners),
                    ),
            decreases other.entries.len() - at,
        {
            let ghost prior = *self;
            let ghost seen = entries_map(other.entries@, at as int);
            let ghost key = other.entries@[at as int].winners@;
            let ghost more = other.entries@[at as int].stats.events@;
            proof {
                lemma_entries_total_bounds(other.entries@, other.entries@.len() as int, at as int);
                if at + 1 < other.entries.len() {
                    lemma_entries_total_bounds(
                        other.entries@,
                        other.entries@.len() as int,
                        at + 1,
                    );
                }
                lemma_entries_map(other.entries@, at as int);
                assert(!seen.dom().contains(key)) by {
                    if seen.dom().contains(key) {
                        let i = choose|i: int|
                            0 <= i < at && (#[trigger] other.entries@[i]).winners@ == key;
                        assert(other.entries@[i].winners@ != other.entries@[at as int].winners@);
                    }
                }
                lemma_counts_len(old(self).entries@, old(self).entries@.len() as int, key);
            }
            self.add_counts(&other.entries[at].winners, &other.entries[at].stats);
            proof {
                let now = entries_map(other.entries@, at + 1);
                assert(self@.dom() =~= old(self)@.dom().union(now.dom()));
                assert forall|winners: Seq<usize>| #[trigger]
                    self.counts(winners) == added(
                        old(self).counts(winners),
                        counts_in(now, winners),
                    ) by {
                    if winners == key {
                        assert(prior.counts(key) == added(old(self).counts(key), no_events()));
                        assert(self.counts(key) =~= added(old(self).counts(key), more));
                    } else {
                        assert(prior.counts(winners) == added(
                            old(self).counts(winners),
                            counts_in(seen, winners),
                        ));
                    }
                }
            }
            at += 1;
        }
    }
}

/// The counts of an outcome are nine numbers.
pub proof fn lemma_counts_len(entries: Seq<OutcomeStats>, upto: int, winners: Seq<usize>)
    requires
        0 <= upto <= entries.len(),
    ensures
        counts_in(entries_map(entries, upto), winners).len() == NUM_HANDS,
    decreases upto,
{
    if upto > 0 {
        lemma_counts_len(entries, upto - 1, winners);
    }
}

/// Whether two lists of winners are the same list.
pub fn same_winners(a: &Vec<usize>, b: &Vec<usize>) -> (same: bool)
    ensures
        same == (a@ == b@),
{
    if a.len() != b.len() {
        return false;
    }
    let mut at: usize = 0;
    while at < a.len()
        invariant
            at <= a.len(),
            a.len() == b.len(),
            forall|i: int| 0 <= i < at ==> a[i] == b[i],
        decreases a.len() - at,
    {
        if a[at] != b[at] {
            return false;
        }
        at += 1;
    }
    assert(a@ =~= b@);
    true
}

/// A copy of a list of winners.
pub fn copy_winners(winners: &Vec<usize>) -> (copy: Vec<usize>)
    ensures
        copy@ == winners@,
{
    let mut copy: Vec<usize> = Vec::with_capacity(winners.len());
    let mut at: usize = 0;
    while at < winners.len()
        invariant
            at <= winners.len(),
            copy@ == winners@.take(at as int),
        decreases winners.len() - at,
    {
        copy.push(winners[at]);
        assert(winners@.take(at + 1) =~= winners@.take(at as int).push(winners@[at as int]));
        at += 1;
    }
    assert(winners@.take(at as int) =~= winners@);
    copy
}

/// Counts one more trial that these players won together with this hand.
pub fn insert_outcome(outcomes: &mut EquityAggregate, winners: &Vec<usize>, hand: &Hand)
    requires
        old(outcomes).wf(),
        old(outcomes).total() < u64::MAX,
    ensures
        final(outcomes).wf(),
        final(outcomes)@ == old(outcomes)@.insert(
            winners@,
            HandStats::bumped(old(outcomes).counts(winners@), hand.category()),
        ),
        final(outcomes).total() == old(outcomes).total() + 1,
{
    outcomes.record(winners, hand);
}

} // verus!
