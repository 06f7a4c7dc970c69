//! Five-card poker hands and their total order.
//!
//! A hand is one of nine categories, each carrying only the ranks that break
//! ties inside that category. Hands are ordered by category first; two hands
//! of one category are ordered by their tie-break ranks, read in order, the
//! first difference deciding.

use crate::cards::{int_order, order_u8, Rank};
use core::cmp::Ordering;
use vstd::prelude::*;
use vstd::std_specs::cmp::{PartialEqSpecImpl, PartialOrdSpecImpl};
use vstd::std_specs::convert::FromSpecImpl;

verus! {

/// Number of hand categories.
pub const NUM_HANDS: usize = 9;

/// No pair, no straight, no flush: the five ranks, descending.
#[derive(Clone, Copy, Debug, PartialEq, Eq, PartialOrd, Ord, Hash)]
pub struct HiCardStr {
    pub ranks: [Rank; 5],
}

/// One pair: its rank, then the three other ranks, descending.
#[derive(Clone, Copy, Debug, PartialEq, Eq, PartialOrd, Ord, Hash)]
pub struct PairStr {
    pub rank: Rank,
    pub kickers: [Rank; 3],
}

/// Two pairs: the higher pair's rank, the lower pair's rank, the fifth card.
#[derive(Clone, Copy, Debug, PartialEq, Eq, PartialOrd, Ord, Hash)]
pub struct TwoPairStr {
    pub hi_rank: Rank,
    pub lo_rank: Rank,
    pub kicker: Rank,
}

/// Three of a kind: its rank, then the two other ranks, descending.
#[derive(Clone, Copy, Debug, PartialEq, Eq, PartialOrd, Ord, Hash)]
pub struct TripsStr {
    pub rank: Rank,
    pub kickers: [Rank; 2],
}

/// Five consecutive ranks: the rank the run ends on.
#[derive(Clone, Copy, Debug, PartialEq, Eq, PartialOrd, Ord, Hash)]
pub struct StraightStr {
    pub hi_rank: Rank,
}

/// Five cards of one suit: the five ranks, descending.
#[derive(Clone, Copy, Debug, PartialEq, Eq, PartialOrd, Ord, Hash)]
pub struct FlushStr {
    pub ranks: [Rank; 5],
}

/// Three of one rank and two of another.
#[derive(Clone, Copy, Debug, PartialEq, Eq, PartialOrd, Ord, Hash)]
pub struct FullHouseStr {
    pub three_of: Rank,
    pub two_of: Rank,
}

/// Four of a kind: its rank, then the fifth card.
#[derive(Clone, Copy, Debug, PartialEq, Eq, PartialOrd, Ord, Hash)]
pub struct QuadsStr {
    pub rank: Rank,
    pub kicker: Rank,
}

/// A straight in one suit: the rank the run ends on.
#[derive(Clone, Copy, Debug, PartialEq, Eq, PartialOrd, Ord, Hash)]
pub struct StraightFlushStr {
    pub hi_rank: Rank,
}

/// A five-card hand, weakest category first.
#[derive(Clone, Copy, Debug, Eq, Ord, Hash)]
pub enum Hand {
    HiCard(HiCardStr),
    Pair(PairStr),
    TwoPair(TwoPairStr),
    Trips(TripsStr),
    Straight(StraightStr),
    Flush(FlushStr),
    FullHouse(FullHouseStr),
    Quads(QuadsStr),
    StraightFlush(StraightFlushStr),
}

/// The sign of `a - b`: -1, 0 or 1.
pub open spec fn three_way(a: int, b: int) -> int {
    if a < b {
        -1
    } else if a == b {
        0
    } else {
        1
    }
}

/// Each rank is higher than the next.
pub open spec fn strictly_descending(ranks: Seq<Rank>) -> bool {
    forall|i: int, j: int|
        0 <= i < j < ranks.len() ==> (#[trigger] ranks[i]).value() > (#[trigger] ranks[j]).value()
}

/// Lexicographic comparison of two rank sequences from position `i` on, as a
/// sign. The first position where the ranks differ decides; if one sequence
/// ends first, the shorter one is smaller.
pub open spec fn lex_sign_at(a: Seq<Rank>, b: Seq<Rank>, i: int) -> int
    decreases a.len() - i,
{
    if i < 0 || i >= a.len() || i >= b.len() {
        three_way(a.len() as int, b.len() as int)
    } else if a[i].value() != b[i].value() {
        three_way(a[i].value(), b[i].value())
    } else {
        lex_sign_at(a, b, i + 1)
    }
}

/// Lexicographic comparison of two rank sequences, as a sign.
pub open spec fn lex_sign(a: Seq<Rank>, b: Seq<Rank>) -> int {
    lex_sign_at(a, b, 0)
}

impl Hand {
    /// The category of the hand as a number: 0 for high card, 8 for
    /// straight flush.
    pub open spec fn category(self) -> int {
        match self {
            Hand::HiCard(_) => 0,
            Hand::Pair(_) => 1,
            Hand::TwoPair(_) => 2,
            Hand::Trips(_) => 3,
            Hand::Straight(_) => 4,
            Hand::Flush(_) => 5,
            Hand::FullHouse(_) => 6,
            Hand::Quads(_) => 7,
            Hand::StraightFlush(_) => 8,
        }
    }

    /// The ranks that order two hands of the same category, most
    /// significant first.
    pub open spec fn tiebreak(self) -> Seq<Rank> {
        match self {
            Hand::HiCard(h) => h.ranks@,
            Hand::Pair(p) => seq![p.rank] + p.kickers@,
            Hand::TwoPair(t) => seq![t.hi_rank, t.lo_rank, t.kicker],
            Hand::Trips(t) => seq![t.rank] + t.kickers@,
            Hand::Straight(s) => seq![s.hi_rank],
            Hand::Flush(f) => f.ranks@,
            Hand::FullHouse(f) => seq![f.three_of, f.two_of],
            Hand::Quads(q) => seq![q.rank, q.kicker],
            Hand::StraightFlush(s) => seq![s.hi_rank],
        }
    }

    /// How many tie-break ranks a category carries.
    pub open spec fn tiebreak_len(category: int) -> nat {
        if category == 0 || category == 5 {
            5
        } else if category == 1 {
            4
        } else if category == 2 || category == 3 {
            3
        } else if category == 4 || category == 8 {
            1
        } else {
            2
        }
    }

    /// Each rank that the hand carries plays one part only, as in every
    /// hand that distinct cards make: kickers lie apart from the ranks that
    /// make the hand and from one another, in descending order, the higher
    /// of two pairs stands first, and a straight ends on a five at least.
    pub open spec fn wf(self) -> bool {
        match self {
            Hand::HiCard(h) => strictly_descending(h.ranks@),
            Hand::Pair(p) => strictly_descending(p.kickers@) && !p.kickers@.contains(p.rank),
            Hand::TwoPair(t) => t.hi_rank.value() > t.lo_rank.value() && t.kicker != t.hi_rank
                && t.kicker != t.lo_rank,
            Hand::Trips(t) => strictly_descending(t.kickers@) && !t.kickers@.contains(t.rank),
            Hand::Straight(s) => s.hi_rank.value() >= Rank::Five.value(),
            Hand::Flush(f) => strictly_descending(f.ranks@),
            Hand::FullHouse(f) => f.three_of != f.two_of,
            Hand::Quads(q) => q.rank != q.kicker,
            Hand::StraightFlush(s) => s.hi_rank.value() >= Rank::Five.value(),
        }
    }

    /// The order of hands as a sign: negative when `self` is the weaker
    /// hand, zero when the two tie, positive when `self` is the stronger.
    pub open spec fn sign(self, other: Hand) -> int {
        if self.category() != other.category() {
            three_way(self.category(), other.category())
        } else {
            lex_sign(self.tiebreak(), other.tiebreak())
        }
    }

    /// `self` is strictly weaker than `other`.
    pub open spec fn weaker(self, other: Hand) -> bool {
        self.sign(other) < 0
    }

    /// `self` is no stronger than `other`.
    pub open spec fn at_most(self, other: Hand) -> bool {
        self.sign(other) <= 0
    }

    /// The length of the tie-break sequence is fixed by the category.
    pub proof fn lemma_tiebreak_len(self)
        ensures
            0 <= self.category() <= 8,
            self.tiebreak().len() == Hand::tiebreak_len(self.category()),
    {
    }
}

/// A lexicographic sign is -1, 0 or 1.
pub proof fn lemma_lex_sign_range(a: Seq<Rank>, b: Seq<Rank>, i: int)
    ensures
        -1 <= lex_sign_at(a, b, i) <= 1,
    decreases a.len() - i,
{
    if 0 <= i < a.len() && i < b.len() && a[i].value() == b[i].value() {
        lemma_lex_sign_range(a, b, i + 1);
    }
}

/// Swapping the two sequences flips the sign.
pub proof fn lemma_lex_sign_flip(a: Seq<Rank>, b: Seq<Rank>, i: int)
    ensures
        lex_sign_at(a, b, i) == -lex_sign_at(b, a, i),
    decreases a.len() - i,
{
    if 0 <= i < a.len() && i < b.len() && a[i].value() == b[i].value() {
        lemma_lex_sign_flip(a, b, i + 1);
    }
}

/// From position `i` on the sign is zero exactly when the sequences have the
/// same length and the same ranks from `i` on.
pub proof fn lemma_lex_sign_zero(a: Seq<Rank>, b: Seq<Rank>, i: int)
    requires
        0 <= i,
    ensures
        lex_sign_at(a, b, i) == 0 <==> (a.len() == b.len() && forall|k: int|
            i <= k < a.len() ==> a[k] == b[k]),
    decreases a.len() - i,
{
    if i < a.len() && i < b.len() {
        Rank::lemma_value_injective(a[i], b[i]);
        if a[i].value() == b[i].value() {
            lemma_lex_sign_zero(a, b, i + 1);
            if lex_sign_at(a, b, i) == 0 {
                assert forall|k: int| i <= k < a.len() implies a[k] == b[k] by {
                    if k > i {
                    }
                }
            }
        }
    }
}

/// The sign is zero exactly when the sequences are equal.
pub proof fn lemma_lex_sign_equal(a: Seq<Rank>, b: Seq<Rank>)
    ensures
        lex_sign(a, b) == 0 <==> a == b,
{
    lemma_lex_sign_zero(a, b, 0);
    if lex_sign(a, b) == 0 {
        assert(a =~= b);
    }
}

/// Lexicographic comparison is transitive, and strict when either step is.
pub proof fn lemma_lex_sign_transitive(a: Seq<Rank>, b: Seq<Rank>, c: Seq<Rank>, i: int)
    requires
        0 <= i,
        lex_sign_at(a, b, i) <= 0,
        lex_sign_at(b, c, i) <= 0,
    ensures
        lex_sign_at(a, c, i) <= 0,
        lex_sign_at(a, b, i) < 0 || lex_sign_at(b, c, i) < 0 ==> lex_sign_at(a, c, i) < 0,
    decreases a.len() - i,
{
    if i < a.len() && i < b.len() && i < c.len() {
        if a[i].value() == b[i].value() && b[i].value() == c[i].value() {
            lemma_lex_sign_transitive(a, b, c, i + 1);
        }
    }
}

/// A hand of a lower category is weaker than every hand of a higher one.
pub proof fn lemma_category_decides(a: Hand, b: Hand)
    requires
        a.category() < b.category(),
    ensures
        a.weaker(b),
        !b.at_most(a),
{
}

/// Inside one category hands are ordered as their tie-break ranks are,
/// lexicographically, and the two tie-break sequences have one length.
pub proof fn lemma_same_category_is_lexicographic(a: Hand, b: Hand)
    requires
        a.category() == b.category(),
    ensures
        a.sign(b) == lex_sign(a.tiebreak(), b.tiebreak()),
        a.tiebreak().len() == b.tiebreak().len(),
{
    a.lemma_tiebreak_len();
    b.lemma_tiebreak_len();
}

/// Every hand ties with itself.
pub proof fn lemma_order_reflexive(a: Hand)
    ensures
        a.sign(a) == 0,
{
    lemma_lex_sign_equal(a.tiebreak(), a.tiebreak());
}

/// Any two hands are comparable, and swapping them flips the outcome.
pub proof fn lemma_order_total(a: Hand, b: Hand)
    ensures
        -1 <= a.sign(b) <= 1,
        a.sign(b) == -b.sign(a),
        a.weaker(b) || a.sign(b) == 0 || b.weaker(a),
{
    lemma_lex_sign_range(a.tiebreak(), b.tiebreak(), 0);
    lemma_lex_sign_flip(a.tiebreak(), b.tiebreak(), 0);
}

/// Two hands tie exactly when they are the same hand.
pub proof fn lemma_order_antisymmetric(a: Hand, b: Hand)
    ensures
        a.sign(b) == 0 <==> a == b,
        a.at_most(b) && b.at_most(a) <==> a == b,
{
    lemma_order_total(a, b);
    lemma_order_reflexive(a);
    if a.sign(b) == 0 {
        lemma_lex_sign_equal(a.tiebreak(), b.tiebreak());
        let s = a.tiebreak();
        let t = b.tiebreak();
        assert(s == t);
        match (a, b) {
            (Hand::HiCard(x), Hand::HiCard(y)) => {
                assert(x.ranks =~= y.ranks);
            },
            (Hand::Pair(x), Hand::Pair(y)) => {
                assert(s[0] == x.rank && t[0] == y.rank);
                assert forall|k: int| 0 <= k < 3 implies x.kickers[k] == y.kickers[k] by {
                    assert(s[k + 1] == x.kickers@[k]);
                    assert(t[k + 1] == y.kickers@[k]);
                }
                assert(x.kickers =~= y.kickers);
            },
            (Hand::TwoPair(x), Hand::TwoPair(y)) => {
                assert(s[0] == x.hi_rank && s[1] == x.lo_rank && s[2] == x.kicker);
                assert(t[0] == y.hi_rank && t[1] == y.lo_rank && t[2] == y.kicker);
            },
            (Hand::Trips(x), Hand::Trips(y)) => {
                assert(s[0] == x.rank && t[0] == y.rank);
                assert forall|k: int| 0 <= k < 2 implies x.kickers[k] == y.kickers[k] by {
                    assert(s[k + 1] == x.kickers@[k]);
                    assert(t[k + 1] == y.kickers@[k]);
                }
                assert(x.kickers =~= y.kickers);
            },
            (Hand::Straight(x), Hand::Straight(y)) => {
                assert(s[0] == x.hi_rank && t[0] == y.hi_rank);
            },
            (Hand::Flush(x), Hand::Flush(y)) => {
                assert(x.ranks =~= y.ranks);
            },
            (Hand::FullHouse(x), Hand::FullHouse(y)) => {
                assert(s[0] == x.three_of && s[1] == x.two_of);
                assert(t[0] == y.three_of && t[1] == y.two_of);
            },
            (Hand::Quads(x), Hand::Quads(y)) => {
                assert(s[0] == x.rank && s[1] == x.kicker);
                assert(t[0] == y.rank && t[1] == y.kicker);
            },
            (Hand::StraightFlush(x), Hand::StraightFlush(y)) => {
                assert(s[0] == x.hi_rank && t[0] == y.hi_rank);
            },
            _ => {},
        }
    }
}

/// The order of hands is transitive, and strict when either step is.
pub proof fn lemma_order_transitive(a: Hand, b: Hand, c: Hand)
    requires
        a.at_most(b),
        b.at_most(c),
    ensures
        a.at_most(c),
        a.weaker(b) || b.weaker(c) ==> a.weaker(c),
{
    lemma_lex_sign_range(a.tiebreak(), b.tiebreak(), 0);
    lemma_lex_sign_range(b.tiebreak(), c.tiebreak(), 0);
    if a.category() == b.category() && b.category() == c.category() {
        lemma_lex_sign_transitive(a.tiebreak(), b.tiebreak(), c.tiebreak(), 0);
    }
}

/// The category of a hand as a number: 0 for high card, 8 for straight
/// flush.
pub fn hand_to_index(hand: &Hand) -> (i: u8)
    ensures
        i == hand.category(),
        i < NUM_HANDS,
{
    match hand {
        Hand::HiCard(_) => 0,
        Hand::Pair(_) => 1,
        Hand::TwoPair(_) => 2,
        Hand::Trips(_) => 3,
        Hand::Straight(_) => 4,
        Hand::Flush(_) => 5,
        Hand::FullHouse(_) => 6,
        Hand::Quads(_) => 7,
        Hand::StraightFlush(_) => 8,
    }
}

/// Appends every element of `src` to `dest`.
pub fn copy_all<T: Copy>(dest: &mut Vec<T>, src: &[T])
    ensures
        final(dest)@ == old(dest)@ + src@,
{
    let ghost before = dest@;
    let mut i: usize = 0;
    while i < src.len()
        invariant
            i <= src.len(),
            dest@ == before + src@.take(i as int),
        decreases src.len() - i,
    {
        dest.push(src[i]);
        assert(src@.take(i + 1) =~= src@.take(i as int).push(src@[i as int]));
        i += 1;
    }
    assert(src@.take(i as int) =~= src@);
}

/// Lexicographic comparison of two rank sequences.
pub fn compare_ranks(a: &Vec<Rank>, b: &Vec<Rank>) -> (r: Ordering)
    ensures
        r == int_order(lex_sign(a@, b@), 0),
{
    let mut i: usize = 0;
    let ghost mut at: int = 0;
    while i < a.len() && i < b.len()
        invariant
            at == i,
            i <= a.len(),
            i <= b.len(),
            lex_sign(a@, b@) == lex_sign_at(a@, b@, at),
        decreases a.len() - i,
    {
        let x: u8 = a[i].index();
        let y: u8 = b[i].index();
        if x != y {
            return order_u8(x, y);
        }
        i += 1;
        proof {
            at = at + 1;
        }
    }
    if a.len() < b.len() {
        Ordering::Less
    } else if a.len() == b.len() {
        Ordering::Equal
    } else {
        Ordering::Greater
    }
}

/// Orders two hands of the same category by their tie-break ranks.
pub fn cmp_same_type_hand(this: &Hand, other: &Hand) -> (r: Ordering)
    requires
        this.category() == other.category(),
    ensures
        r == int_order(this.sign(*other), 0),
{
    let mut these: Vec<Rank> = Vec::with_capacity(5);
    let mut those: Vec<Rank> = Vec::with_capacity(5);
    match (this, other) {
        (Hand::HiCard(x), Hand::HiCard(y)) => {
            copy_all(&mut these, &x.ranks);
            copy_all(&mut those, &y.ranks);
        },
        (Hand::Pair(x), Hand::Pair(y)) => {
            these.push(x.rank);
            those.push(y.rank);
            copy_all(&mut these, &x.kickers);
            copy_all(&mut those, &y.kickers);
        },
        (Hand::TwoPair(x), Hand::TwoPair(y)) => {
            these.push(x.hi_rank);
            those.push(y.hi_rank);
            these.push(x.lo_rank);
            those.push(y.lo_rank);
            these.push(x.kicker);
            those.push(y.kicker);
        },
        (Hand::Trips(x), Hand::Trips(y)) => {
            these.push(x.rank);
            those.push(y.rank);
            copy_all(&mut these, &x.kickers);
            copy_all(&mut those, &y.kickers);
        },
        (Hand::Straight(x), Hand::Straight(y)) => {
            these.push(x.hi_rank);
            those.push(y.hi_rank);
        },
        (Hand::Flush(x), Hand::Flush(y)) => {
            copy_all(&mut these, &x.ranks);
            copy_all(&mut those, &y.ranks);
        },
        (Hand::FullHouse(x), Hand::FullHouse(y)) => {
            these.push(x.three_of);
            those.push(y.three_of);
            these.push(x.two_of);
            those.push(y.two_of);
        },
        (Hand::Quads(x), Hand::Quads(y)) => {
            these.push(x.rank);
            those.push(y.rank);
            these.push(x.kicker);
            those.push(y.kicker);
        },
        (Hand::StraightFlush(x), Hand::StraightFlush(y)) => {
            these.push(x.hi_rank);
            those.push(y.hi_rank);
        },
        _ => {},
    }
    assert(these@ =~= this.tiebreak());
    assert(those@ =~= other.tiebreak());
    compare_ranks(&these, &those)
}

impl PartialOrd for Hand {
    fn partial_cmp(&self, other: &Hand) -> (r: Option<Ordering>) {
        let this_index: u8 = hand_to_index(self);
        let other_index: u8 = hand_to_index(other);
        if this_index != other_index {
            Some(order_u8(this_index, other_index))
        } else {
            Some(cmp_same_type_hand(self, other))
        }
    }
}

impl PartialOrdSpecImpl for Hand {
    open spec fn obeys_partial_cmp_spec() -> bool {
        true
    }

    open spec fn partial_cmp_spec(&self, other: &Hand) -> Option<Ordering> {
        Some(int_order(self.sign(*other), 0))
    }
}

impl PartialEq for Hand {
    fn eq(&self, other: &Hand) -> (r: bool) {
        proof {
            lemma_order_antisymmetric(*self, *other);
        }
        match self.partial_cmp(other) {
            Some(Ordering::Equal) => true,
            _ => false,
        }
    }
}

impl PartialEqSpecImpl for Hand {
    open spec fn obeys_eq_spec() -> bool {
        true
    }

    open spec fn eq_spec(&self, other: &Hand) -> bool {
        *self == *other
    }
}

impl From<Hand> for u8 {
    fn from(hand: Hand) -> (i: u8) {
        hand_to_index(&hand)
    }
}

impl FromSpecImpl<Hand> for u8 {
    open spec fn obeys_from_spec() -> bool {
        true
    }

    open spec fn from_spec(hand: Hand) -> u8 {
        hand.category() as u8
    }
}

} // verus!
