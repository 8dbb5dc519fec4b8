use crate::table::{
    all_valid, chosen_from, count_card, count_num, count_num_ge, count_num_gt, count_shape,
    lemma_count_card_pos, lemma_count_card_push, lemma_count_card_remove, lemma_count_card_split,
    lemma_count_card_zero, lemma_count_num_ge_full, lemma_count_num_ge_push,
    lemma_count_num_ge_remove, lemma_count_num_ge_zero, lemma_count_num_gt_le_len,
    lemma_count_num_gt_push, lemma_count_num_gt_remove, lemma_count_num_gt_zero,
    lemma_count_num_push, lemma_count_num_zero, lemma_count_shape_le_len,
    lemma_count_shape_pair_le, num_count, shape_count, Card,
};
use vstd::prelude::*;
use vstd::string::StringExecFns;

verus! {

// ---------------------------------------------------------------------------
// What a pool of cards contains, stated over the counting model.
// ---------------------------------------------------------------------------

/// A pool a grade can be computed from: 5 to 7 real cards (duplicates are not
/// ruled out; a grade is defined for any such pool).
pub open spec fn pool_ok(s: Seq<Card>) -> bool {
    5 <= s.len() <= 7 && all_valid(s)
}

/// Rank `n` occurs in the pool.
pub open spec fn has_num(s: Seq<Card>, n: int) -> bool {
    count_num(s, n) > 0
}

/// The five ranks `t-4 ..= t` all occur: a straight whose top rank is `t`.
pub open spec fn run_at(s: Seq<Card>, t: int) -> bool {
    4 <= t < 13 && forall|k: int| t - 4 <= k <= t ==> has_num(s, k)
}

/// An ordinary (ace-high-capable) straight exists.
pub open spec fn has_run(s: Seq<Card>) -> bool {
    exists|t: int| run_at(s, t)
}

/// `t` is the top rank of the best ordinary straight in the pool.
pub open spec fn best_run(s: Seq<Card>, t: int) -> bool {
    run_at(s, t) && forall|u: int| t < u < 13 ==> !run_at(s, u)
}

/// The wheel: ranks 2,3,4,5 plus the ace playing low.
pub open spec fn wheel_at(s: Seq<Card>) -> bool {
    has_num(s, 0) && has_num(s, 1) && has_num(s, 2) && has_num(s, 3) && has_num(s, 12)
}

pub open spec fn has_straight(s: Seq<Card>) -> bool {
    has_run(s) || wheel_at(s)
}

/// Suit `sh` covers at least five cards of the pool.
pub open spec fn flush_shape(s: Seq<Card>, sh: int) -> bool {
    0 <= sh < 4 && count_shape(s, sh) >= 5
}

pub open spec fn has_flush(s: Seq<Card>) -> bool {
    exists|sh: int| flush_shape(s, sh)
}

/// The cards of the pool whose suit is `sh`, in pool order.
pub open spec fn of_shape(s: Seq<Card>, sh: int) -> Seq<Card> {
    s.filter(|c: Card| c.shape == sh)
}

/// The cards of the pool whose rank is `n`, in pool order.
pub open spec fn with_num(s: Seq<Card>, n: int) -> Seq<Card> {
    s.filter(|c: Card| c.num == n)
}

/// The cards of the pool whose rank is not `n`, in pool order.
pub open spec fn without_num(s: Seq<Card>, n: int) -> Seq<Card> {
    s.filter(|c: Card| c.num != n)
}

/// The cards of the pool whose rank is neither `n1` nor `n2`, in pool order.
pub open spec fn without_two_nums(s: Seq<Card>, n1: int, n2: int) -> Seq<Card> {
    s.filter(|c: Card| c.num != n1 && c.num != n2)
}

/// Suit `sh` has five or more cards and those cards contain a straight.
pub open spec fn straight_flush_shape(s: Seq<Card>, sh: int) -> bool {
    flush_shape(s, sh) && has_straight(of_shape(s, sh))
}

pub open spec fn has_straight_flush(s: Seq<Card>) -> bool {
    exists|sh: int| straight_flush_shape(s, sh)
}

pub open spec fn quad_num(s: Seq<Card>, n: int) -> bool {
    0 <= n < 13 && count_num(s, n) == 4
}

pub open spec fn has_quad(s: Seq<Card>) -> bool {
    exists|n: int| quad_num(s, n)
}

pub open spec fn trip_num(s: Seq<Card>, n: int) -> bool {
    0 <= n < 13 && count_num(s, n) == 3
}

pub open spec fn has_trip(s: Seq<Card>) -> bool {
    exists|n: int| trip_num(s, n)
}

pub open spec fn pair_num(s: Seq<Card>, n: int) -> bool {
    0 <= n < 13 && count_num(s, n) == 2
}

pub open spec fn has_pair(s: Seq<Card>) -> bool {
    exists|n: int| pair_num(s, n)
}

/// A full house: some rank appears three times, and a second rank appears
/// three or two times.
pub open spec fn has_full_house(s: Seq<Card>) -> bool {
    exists|n: int, m: int|
        trip_num(s, n) && n != m && (trip_num(s, m) || pair_num(s, m))
}

pub open spec fn has_two_pairs(s: Seq<Card>) -> bool {
    exists|n: int, m: int| pair_num(s, n) && pair_num(s, m) && n != m
}

/// The strongest hand category the pool achieves, from 8 (straight flush)
/// down to 0 (high card), testing the categories in descending strength.
pub open spec fn best_category(s: Seq<Card>) -> int {
    if has_straight_flush(s) {
        8
    } else if has_quad(s) {
        7
    } else if has_full_house(s) {
        6
    } else if has_flush(s) {
        5
    } else if has_straight(s) {
        4
    } else if has_trip(s) {
        3
    } else if has_two_pairs(s) {
        2
    } else if has_pair(s) {
        1
    } else {
        0
    }
}

// ---------------------------------------------------------------------------
// What a correct five-card selection looks like, per category.
// ---------------------------------------------------------------------------

/// `v` is the highest rank present in `s`.
pub open spec fn is_max_num(s: Seq<Card>, v: int) -> bool {
    count_num_gt(s, v) == 0 && count_num_ge(s, v) >= 1
}

/// The selection consists of five cards drawn from the pool, no physical card
/// twice.
pub open spec fn sel_from(sel: Seq<Card>, s: Seq<Card>) -> bool {
    sel.len() == 5 && crate::table::chosen_from(sel, s)
}

/// Position `i` of `sel` carries the `(i+1)`-th highest rank of `s`, counting
/// repeated ranks separately. This pins every rank of the selection: fewer
/// than `i+1` cards of the pool beat it, and at least `i+1` tie or beat it.
pub open spec fn top_ranks(s: Seq<Card>, sel: Seq<Card>) -> bool {
    forall|i: int|
        0 <= i < sel.len() ==> #[trigger] count_num_gt(s, sel[i].num as int) <= i
            && count_num_ge(s, sel[i].num as int) >= i + 1
}

/// `j` points at the last card of maximal rank in `s`: no card outranks it,
/// and every later card ranks strictly below it.
pub open spec fn is_last_max(s: Seq<Card>, j: int) -> bool {
    &&& 0 <= j < s.len()
    &&& (forall|u: int| 0 <= u < s.len() ==> (#[trigger] s[u]).num <= s[j].num)
    &&& (forall|u: int| j < u < s.len() ==> (#[trigger] s[u]).num < s[j].num)
}

/// The exact `k`-card selection the engine makes from `s`: repeatedly take
/// the last card of maximal rank. Highest ranks come first; among cards of
/// equal rank the one later in pool order comes first.
pub open spec fn top_k_sel(s: Seq<Card>, k: int) -> Seq<Card>
    decreases k,
{
    if k <= 0 || s.len() == 0 {
        Seq::empty()
    } else {
        let j = choose|j: int| is_last_max(s, j);
        seq![s[j]] + top_k_sel(s.remove(j), k - 1)
    }
}

/// The five cards of the best straight of `pool`, highest rank first; for the
/// wheel the ace comes last, in the least significant slot.
pub open spec fn best_straight_sel(pool: Seq<Card>, sel: Seq<Card>) -> bool {
    if has_run(pool) {
        exists|t: int|
            #[trigger] best_run(pool, t) && (forall|i: int|
                0 <= i < 5 ==> (#[trigger] sel[i].num) as int == t - i && sel[i] == with_num(
                    pool,
                    t - i,
                )[0])
    } else {
        sel.len() == 5 && sel[0].num == 3 && sel[1].num == 2 && sel[2].num == 1 && sel[3].num == 0
            && sel[4].num == 12 && sel[0] == with_num(pool, 3)[0] && sel[1] == with_num(pool, 2)[0]
            && sel[2] == with_num(pool, 1)[0] && sel[3] == with_num(pool, 0)[0] && sel[4]
            == with_num(pool, 12)[0]
    }
}

/// Four cards of rank `n` followed by the highest-ranking remaining card.
pub open spec fn quad_sel(s: Seq<Card>, n: int, sel: Seq<Card>) -> bool {
    sel_from(sel, s) && (forall|i: int| 0 <= i < 4 ==> (#[trigger] sel[i].num) as int == n)
        && is_max_num(without_num(s, n), sel[4].num as int) && sel.subrange(0, 4) == with_num(
        s,
        n,
    ).reverse() && sel[4] == top_k_sel(without_num(s, n), 1)[0]
}

/// `t3` is the highest rank appearing three times; `p` fills the pair slot:
/// the next triplet if one exists, otherwise the highest pair.
pub open spec fn full_house_nums(s: Seq<Card>, t3: int, p: int) -> bool {
    trip_num(s, t3) && (forall|u: int| t3 < u < 13 ==> !trip_num(s, u)) && if (exists|m: int|
        m != t3 && trip_num(s, m)) {
        trip_num(s, p) && p != t3 && (forall|u: int|
            p < u < 13 && u != t3 ==> !trip_num(s, u))
    } else {
        pair_num(s, p) && (forall|u: int| p < u < 13 ==> !pair_num(s, u))
    }
}

/// Three cards of rank `t3`, then two cards of rank `p`.
pub open spec fn full_house_sel(s: Seq<Card>, t3: int, p: int, sel: Seq<Card>) -> bool {
    sel_from(sel, s) && (sel[0].num as int) == t3 && (sel[1].num as int) == t3 && (sel[2].num
        as int) == t3 && (sel[3].num as int) == p && (sel[4].num as int) == p && sel.subrange(0, 3)
        == with_num(s, t3).reverse() && sel.subrange(3, 5) == with_num(s, p).reverse().take(2)
}

/// Five cards of suit `sh` carrying the five highest ranks of that suit.
pub open spec fn flush_sel(s: Seq<Card>, sh: int, sel: Seq<Card>) -> bool {
    sel_from(sel, s) && (forall|i: int| 0 <= i < 5 ==> (#[trigger] sel[i].shape) as int == sh)
        && top_ranks(of_shape(s, sh), sel) && sel == top_k_sel(of_shape(s, sh), 5)
}

/// Three cards of rank `n` followed by the two highest remaining kickers.
pub open spec fn trip_sel(s: Seq<Card>, n: int, sel: Seq<Card>) -> bool {
    sel_from(sel, s) && (forall|i: int| 0 <= i < 3 ==> (#[trigger] sel[i].num) as int == n)
        && top_ranks(without_num(s, n), sel.subrange(3, 5)) && sel.subrange(0, 3) == with_num(
        s,
        n,
    ).reverse() && sel.subrange(3, 5) == top_k_sel(without_num(s, n), 2)
}

/// `p1 > p2` are the two highest ranks appearing exactly twice.
pub open spec fn two_pair_nums(s: Seq<Card>, p1: int, p2: int) -> bool {
    pair_num(s, p1) && pair_num(s, p2) && p2 < p1 && (forall|u: int|
        p1 < u < 13 ==> !pair_num(s, u)) && (forall|u: int| p2 < u < p1 ==> !pair_num(s, u))
}

/// Two cards of rank `p1`, two of rank `p2`, then the best remaining kicker.
pub open spec fn two_pair_sel(s: Seq<Card>, p1: int, p2: int, sel: Seq<Card>) -> bool {
    sel_from(sel, s) && (sel[0].num as int) == p1 && (sel[1].num as int) == p1 && (sel[2].num
        as int) == p2 && (sel[3].num as int) == p2 && is_max_num(
        without_two_nums(s, p1, p2),
        sel[4].num as int,
    ) && sel.subrange(0, 2) == with_num(s, p1).reverse() && sel.subrange(2, 4) == with_num(
        s,
        p2,
    ).reverse() && sel[4] == top_k_sel(without_two_nums(s, p1, p2), 1)[0]
}

/// Two cards of rank `p` followed by the three highest remaining kickers.
pub open spec fn one_pair_sel(s: Seq<Card>, p: int, sel: Seq<Card>) -> bool {
    sel_from(sel, s) && (sel[0].num as int) == p && (sel[1].num as int) == p && top_ranks(
        without_num(s, p),
        sel.subrange(2, 5),
    ) && sel.subrange(0, 2) == with_num(s, p).reverse() && sel.subrange(2, 5) == top_k_sel(
        without_num(s, p),
        3,
    )
}

/// The five highest-ranking cards of the pool.
pub open spec fn top_sel(s: Seq<Card>, sel: Seq<Card>) -> bool {
    sel_from(sel, s) && top_ranks(s, sel) && sel == top_k_sel(s, 5)
}

/// The whole grading contract: `cat` is the best category the pool achieves
/// and `sel` the five cards selected for it, most significant first, drawn
/// from the pool and picked as the category demands.
pub open spec fn graded(s: Seq<Card>, cat: int, sel: Seq<Card>) -> bool {
    &&& cat == best_category(s)
    &&& sel_from(sel, s)
    &&& all_valid(sel)
    &&& (cat == 8 ==> exists|sh: int|
        #[trigger] straight_flush_shape(s, sh) && (forall|i: int|
            0 <= i < 5 ==> (#[trigger] sel[i].shape) as int == sh) && best_straight_sel(
            of_shape(s, sh),
            sel,
        ))
    &&& (cat == 7 ==> exists|n: int| #[trigger] quad_num(s, n) && quad_sel(s, n, sel))
    &&& (cat == 6 ==> exists|t3: int, p: int|
        #[trigger] full_house_nums(s, t3, p) && full_house_sel(s, t3, p, sel))
    &&& (cat == 5 ==> exists|sh: int| #[trigger] flush_shape(s, sh) && flush_sel(s, sh, sel))
    &&& (cat == 4 ==> best_straight_sel(s, sel))
    &&& (cat == 3 ==> exists|n: int|
        #[trigger] trip_num(s, n) && (forall|u: int| 0 <= u < n ==> !trip_num(s, u)) && trip_sel(
            s,
            n,
            sel,
        ))
    &&& (cat == 2 ==> exists|p1: int, p2: int|
        #[trigger] two_pair_nums(s, p1, p2) && two_pair_sel(s, p1, p2, sel))
    &&& (cat == 1 ==> exists|p: int|
        #[trigger] pair_num(s, p) && (forall|u: int| 0 <= u < p ==> !pair_num(s, u))
            && one_pair_sel(s, p, sel))
    &&& (cat == 0 ==> top_ranks(s, sel))
}

// ---------------------------------------------------------------------------
// Grade: a category plus the five cards selected to represent it, listed
// from most to least significant.
// ---------------------------------------------------------------------------

#[derive(Copy, Clone, Debug)]
pub enum Grade {
    StraightFlush((Card, Card, Card, Card, Card)),
    FourOfAKind((Card, Card, Card, Card, Card)),
    FullHouse((Card, Card, Card, Card, Card)),
    Flush((Card, Card, Card, Card, Card)),
    Straight((Card, Card, Card, Card, Card)),
    ThreeOfAKind((Card, Card, Card, Card, Card)),
    TwoPairs((Card, Card, Card, Card, Card)),
    OnePair((Card, Card, Card, Card, Card)),
    Top((Card, Card, Card, Card, Card)),
}

impl Grade {
    /// The five selected cards, as the carried tuple.
    pub open spec fn spec_cards(self) -> (Card, Card, Card, Card, Card) {
        match self {
            Grade::StraightFlush(t) => t,
            Grade::FourOfAKind(t) => t,
            Grade::FullHouse(t) => t,
            Grade::Flush(t) => t,
            Grade::Straight(t) => t,
            Grade::ThreeOfAKind(t) => t,
            Grade::TwoPairs(t) => t,
            Grade::OnePair(t) => t,
            Grade::Top(t) => t,
        }
    }

    /// The five selected cards, most significant first.
    pub open spec fn sel(self) -> Seq<Card> {
        let t = self.spec_cards();
        seq![t.0, t.1, t.2, t.3, t.4]
    }

    /// The category's strength, 8 for a straight flush down to 0 for a bare
    /// high card.
    pub open spec fn category(self) -> int {
        match self {
            Grade::StraightFlush(_) => 8,
            Grade::FourOfAKind(_) => 7,
            Grade::FullHouse(_) => 6,
            Grade::Flush(_) => 5,
            Grade::Straight(_) => 4,
            Grade::ThreeOfAKind(_) => 3,
            Grade::TwoPairs(_) => 2,
            Grade::OnePair(_) => 1,
            Grade::Top(_) => 0,
        }
    }

    /// Everything comparison looks at: the category, then the five selected
    /// ranks in stored order.
    pub open spec fn value(self) -> Seq<int> {
        let t = self.spec_cards();
        seq![
            self.category(),
            t.0.num as int,
            t.1.num as int,
            t.2.num as int,
            t.3.num as int,
            t.4.num as int,
        ]
    }
}

/// The strict grade order: category first, then the selected ranks compared
/// left to right.
pub open spec fn grade_lt(a: Grade, b: Grade) -> bool {
    let x = a.value();
    let y = b.value();
    ||| x[0] < y[0]
    ||| (x[0] == y[0] && x[1] < y[1])
    ||| (x[0] == y[0] && x[1] == y[1] && x[2] < y[2])
    ||| (x[0] == y[0] && x[1] == y[1] && x[2] == y[2] && x[3] < y[3])
    ||| (x[0] == y[0] && x[1] == y[1] && x[2] == y[2] && x[3] == y[3] && x[4] < y[4])
    ||| (x[0] == y[0] && x[1] == y[1] && x[2] == y[2] && x[3] == y[3] && x[4] == y[4] && x[5]
        < y[5])
}

/// Two grades tie when category and all five selected ranks agree; the suits
/// of the selected cards never matter.
pub open spec fn grade_eq(a: Grade, b: Grade) -> bool {
    a.value() == b.value()
}

impl Grade {
    /// The comparison key as a flat tuple: the category code and the five
    /// selected ranks.
    pub fn as_value(&self) -> (r: (u8, usize, usize, usize, usize, usize))
        ensures
            r.0 as int == self.value()[0],
            r.1 as int == self.value()[1],
            r.2 as int == self.value()[2],
            r.3 as int == self.value()[3],
            r.4 as int == self.value()[4],
            r.5 as int == self.value()[5],
    {
        match self {
            Grade::StraightFlush((a, b, c, d, e)) => (8, a.num, b.num, c.num, d.num, e.num),
            Grade::FourOfAKind((a, b, c, d, e)) => (7, a.num, b.num, c.num, d.num, e.num),
            Grade::FullHouse((a, b, c, d, e)) => (6, a.num, b.num, c.num, d.num, e.num),
            Grade::Flush((a, b, c, d, e)) => (5, a.num, b.num, c.num, d.num, e.num),
            Grade::Straight((a, b, c, d, e)) => (4, a.num, b.num, c.num, d.num, e.num),
            Grade::ThreeOfAKind((a, b, c, d, e)) => (3, a.num, b.num, c.num, d.num, e.num),
            Grade::TwoPairs((a, b, c, d, e)) => (2, a.num, b.num, c.num, d.num, e.num),
            Grade::OnePair((a, b, c, d, e)) => (1, a.num, b.num, c.num, d.num, e.num),
            Grade::Top((a, b, c, d, e)) => (0, a.num, b.num, c.num, d.num, e.num),
        }
    }
}

impl Grade {
    /// The five selected cards, most significant first, as a tuple.
    pub fn cards5(&self) -> (t: (Card, Card, Card, Card, Card))
        ensures
            t == self.spec_cards(),
    {
        match self {
            Grade::StraightFlush(t) => *t,
            Grade::FourOfAKind(t) => *t,
            Grade::FullHouse(t) => *t,
            Grade::Flush(t) => *t,
            Grade::Straight(t) => *t,
            Grade::ThreeOfAKind(t) => *t,
            Grade::TwoPairs(t) => *t,
            Grade::OnePair(t) => *t,
            Grade::Top(t) => *t,
        }
    }

    /// The display label of the category, as it opens the rendered string.
    pub open spec fn spec_label(self) -> Seq<char> {
        match self {
            Grade::StraightFlush(_) => "Straight Flush\t: "@,
            Grade::FourOfAKind(_) => "Four Of A Kind\t: "@,
            Grade::FullHouse(_) => "Full House\t\t: "@,
            Grade::Flush(_) => "Flush\t\t: "@,
            Grade::Straight(_) => "Straight\t\t: "@,
            Grade::ThreeOfAKind(_) => "Three Of A Kind\t: "@,
            Grade::TwoPairs(_) => "TwoPairs\t\t: "@,
            Grade::OnePair(_) => "One Pair\t\t: "@,
            Grade::Top(_) => "Top\t\t\t: "@,
        }
    }

    /// Category label followed by the five selected cards.
    pub fn to_string(&self) -> (r: String)
        ensures
            r@.len() >= self.spec_label().len(),
            r@.subrange(0, self.spec_label().len() as int) == self.spec_label(),
    {
        let label = match self {
            Grade::StraightFlush(_) => String::from_str("Straight Flush\t: "),
            Grade::FourOfAKind(_) => String::from_str("Four Of A Kind\t: "),
            Grade::FullHouse(_) => String::from_str("Full House\t\t: "),
            Grade::Flush(_) => String::from_str("Flush\t\t: "),
            Grade::Straight(_) => String::from_str("Straight\t\t: "),
            Grade::ThreeOfAKind(_) => String::from_str("Three Of A Kind\t: "),
            Grade::TwoPairs(_) => String::from_str("TwoPairs\t\t: "),
            Grade::OnePair(_) => String::from_str("One Pair\t\t: "),
            Grade::Top(_) => String::from_str("Top\t\t\t: "),
        };
        proof {
            assert(label@ == self.spec_label());
        }
        let t = self.cards5();
        let mut out = label;
        out.append(t.0.to_string().as_str());
        out.append(" ");
        out.append(t.1.to_string().as_str());
        out.append(" ");
        out.append(t.2.to_string().as_str());
        out.append(" ");
        out.append(t.3.to_string().as_str());
        out.append(" ");
        out.append(t.4.to_string().as_str());
        proof {
            assert(out@.subrange(0, self.spec_label().len() as int) =~= self.spec_label());
        }
        out
    }
}

impl PartialEq for Grade {
    fn eq(&self, other: &Self) -> (r: bool) {
        let a = self.as_value();
        let b = other.as_value();
        if a.0 == b.0 && a.1 == b.1 && a.2 == b.2 && a.3 == b.3 && a.4 == b.4 && a.5 == b.5 {
            proof {
                assert(self.value() =~= other.value());
            }
            true
        } else {
            proof {
                if self.value() == other.value() {
                    assert(self.value()[0] == other.value()[0]);
                    assert(self.value()[1] == other.value()[1]);
                    assert(self.value()[2] == other.value()[2]);
                    assert(self.value()[3] == other.value()[3]);
                    assert(self.value()[4] == other.value()[4]);
                    assert(self.value()[5] == other.value()[5]);
                }
            }
            false
        }
    }
}

impl vstd::std_specs::cmp::PartialEqSpecImpl for Grade {
    open spec fn obeys_eq_spec() -> bool {
        true
    }

    open spec fn eq_spec(&self, other: &Grade) -> bool {
        grade_eq(*self, *other)
    }
}

impl PartialOrd for Grade {
    fn partial_cmp(&self, other: &Self) -> (r: Option<core::cmp::Ordering>) {
        let a = self.as_value();
        let b = other.as_value();
        let ord = if a.0 != b.0 {
            if a.0 < b.0 {
                core::cmp::Ordering::Less
            } else {
                core::cmp::Ordering::Greater
            }
        } else if a.1 != b.1 {
            if a.1 < b.1 {
                core::cmp::Ordering::Less
            } else {
                core::cmp::Ordering::Greater
            }
        } else if a.2 != b.2 {
            if a.2 < b.2 {
                core::cmp::Ordering::Less
            } else {
                core::cmp::Ordering::Greater
            }
        } else if a.3 != b.3 {
            if a.3 < b.3 {
                core::cmp::Ordering::Less
            } else {
                core::cmp::Ordering::Greater
            }
        } else if a.4 != b.4 {
            if a.4 < b.4 {
                core::cmp::Ordering::Less
            } else {
                core::cmp::Ordering::Greater
            }
        } else if a.5 != b.5 {
            if a.5 < b.5 {
                core::cmp::Ordering::Less
            } else {
                core::cmp::Ordering::Greater
            }
        } else {
            proof {
                assert(self.value() =~= other.value());
            }
            core::cmp::Ordering::Equal
        };
        Some(ord)
    }
}

impl vstd::std_specs::cmp::PartialOrdSpecImpl for Grade {
    open spec fn obeys_partial_cmp_spec() -> bool {
        true
    }

    open spec fn partial_cmp_spec(&self, other: &Grade) -> Option<core::cmp::Ordering> {
        if grade_lt(*self, *other) {
            Some(core::cmp::Ordering::Less)
        } else if grade_lt(*other, *self) {
            Some(core::cmp::Ordering::Greater)
        } else {
            Some(core::cmp::Ordering::Equal)
        }
    }
}

// ---------------------------------------------------------------------------
// Laws of the grade order.
// ---------------------------------------------------------------------------

/// The grade order is a strict total order: for any two grades exactly one of
/// `a < b`, `b < a`, `a ties b` holds.
pub proof fn lemma_grade_order_trichotomy(a: Grade, b: Grade)
    ensures
        grade_lt(a, b) || grade_lt(b, a) || grade_eq(a, b),
        grade_lt(a, b) ==> !grade_lt(b, a) && !grade_eq(a, b),
        grade_lt(b, a) ==> !grade_lt(a, b) && !grade_eq(a, b),
        grade_eq(a, b) ==> !grade_lt(a, b) && !grade_lt(b, a),
{
    if !grade_lt(a, b) && !grade_lt(b, a) {
        assert(a.value() =~= b.value());
    }
}

/// The grade order is transitive.
pub proof fn lemma_grade_order_transitive(a: Grade, b: Grade, c: Grade)
    ensures
        grade_lt(a, b) && grade_lt(b, c) ==> grade_lt(a, c),
{
}

/// A higher category always wins, whatever cards are carried: a straight
/// flush beats four of a kind, which beats a full house, and so on down to
/// the bare high card.
pub proof fn lemma_category_dominates(a: Grade, b: Grade)
    ensures
        a.category() < b.category() ==> grade_lt(a, b),
{
}

/// The wheel straight (ranks 5,4,3,2 and the ace played low) sorts below a
/// 6-high straight and above any three of a kind: whenever grading some pool
/// `ws` yields the wheel (a straight with no higher run), grading some pool
/// `ss` yields a 6-high straight, and `t` is any three-of-a-kind grade, the
/// wheel sits strictly between them.
pub proof fn lemma_wheel_straight_order(ws: Seq<Card>, w: Grade, ss: Seq<Card>, s6: Grade, t: Grade)
    requires
        w.category() == 4,
        graded(ws, 4, w.sel()),
        !has_run(ws),
        s6.category() == 4,
        graded(ss, 4, s6.sel()),
        best_run(ss, 4),
        t.category() == 3,
    ensures
        grade_lt(w, s6),
        grade_lt(t, w),
{
    assert(w.value()[1] == w.sel()[0].num as int);
    assert(w.sel()[0].num == 3);
    assert(s6.value()[1] == s6.sel()[0].num as int);
    let tb = choose|tb: int|
        #[trigger] best_run(ss, tb) && (forall|i: int|
            0 <= i < 5 ==> (#[trigger] s6.sel()[i].num) as int == tb - i);
    assert(tb == 4) by {
        if tb < 4 {
            assert(!run_at(ss, 4));
        }
        if tb > 4 {
            assert(!run_at(ss, tb));
        }
    }
    assert(s6.sel()[0].num == 4);
    assert(t.value()[0] == 3 && w.value()[0] == 4);
}

// ---------------------------------------------------------------------------
// Facts about the filtered views of a pool.
// ---------------------------------------------------------------------------

proof fn lemma_of_shape_props(s: Seq<Card>, sh: int)
    ensures
        of_shape(s, sh).len() == count_shape(s, sh),
        forall|i: int| 0 <= i < of_shape(s, sh).len() ==> (#[trigger] of_shape(s, sh)[i]).shape
            == sh,
        forall|c: Card| #[trigger] count_card(of_shape(s, sh), c) == (if c.shape == sh {
            count_card(s, c)
        } else {
            0nat
        }),
    decreases s.len(),
{
    reveal(Seq::filter);
    if s.len() > 0 {
        lemma_of_shape_props(s.drop_last(), sh);
        let dl = s.drop_last();
        let fdl = of_shape(dl, sh);
        assert forall|c: Card| #[trigger] count_card(of_shape(s, sh), c) == (if c.shape == sh {
            count_card(s, c)
        } else {
            0nat
        }) by {
            if s.last().shape == sh {
                lemma_count_card_push(fdl, c, s.last());
            }
        }
    }
}

proof fn lemma_of_shape_take_step(s: Seq<Card>, i: int, sh: int)
    requires
        0 <= i < s.len(),
    ensures
        of_shape(s.take(i + 1), sh) == (if s[i].shape == sh {
            of_shape(s.take(i), sh).push(s[i])
        } else {
            of_shape(s.take(i), sh)
        }),
{
    reveal(Seq::filter);
    assert(s.take(i + 1).drop_last() =~= s.take(i));
    assert(s.take(i + 1).last() == s[i]);
}

proof fn lemma_without_num_props(s: Seq<Card>, n: int)
    ensures
        without_num(s, n).len() + count_num(s, n) == s.len(),
        forall|i: int| 0 <= i < without_num(s, n).len() ==> (#[trigger] without_num(s, n)[i]).num
            != n,
        forall|c: Card| #[trigger] count_card(without_num(s, n), c) == (if c.num != n {
            count_card(s, c)
        } else {
            0nat
        }),
    decreases s.len(),
{
    reveal(Seq::filter);
    if s.len() > 0 {
        lemma_without_num_props(s.drop_last(), n);
        let fdl = without_num(s.drop_last(), n);
        assert forall|c: Card| #[trigger] count_card(without_num(s, n), c) == (if c.num != n {
            count_card(s, c)
        } else {
            0nat
        }) by {
            if s.last().num != n {
                lemma_count_card_push(fdl, c, s.last());
            }
        }
    }
}

proof fn lemma_without_num_take_step(s: Seq<Card>, i: int, n: int)
    requires
        0 <= i < s.len(),
    ensures
        without_num(s.take(i + 1), n) == (if s[i].num != n {
            without_num(s.take(i), n).push(s[i])
        } else {
            without_num(s.take(i), n)
        }),
{
    reveal(Seq::filter);
    assert(s.take(i + 1).drop_last() =~= s.take(i));
    assert(s.take(i + 1).last() == s[i]);
}

proof fn lemma_without_two_props(s: Seq<Card>, n1: int, n2: int)
    ensures
        without_two_nums(s, n1, n2).len() <= s.len(),
        without_two_nums(s, n1, n2).len() + count_num(s, n1) + count_num(s, n2) >= s.len(),
        forall|i: int|
            0 <= i < without_two_nums(s, n1, n2).len() ==> (#[trigger] without_two_nums(
                s,
                n1,
                n2,
            )[i]).num != n1 && without_two_nums(s, n1, n2)[i].num != n2,
        forall|c: Card| #[trigger] count_card(without_two_nums(s, n1, n2), c) == (if c.num != n1
            && c.num != n2 {
            count_card(s, c)
        } else {
            0nat
        }),
    decreases s.len(),
{
    reveal(Seq::filter);
    if s.len() > 0 {
        lemma_without_two_props(s.drop_last(), n1, n2);
        let fdl = without_two_nums(s.drop_last(), n1, n2);
        assert forall|c: Card| #[trigger] count_card(without_two_nums(s, n1, n2), c) == (if c.num
            != n1 && c.num != n2 {
            count_card(s, c)
        } else {
            0nat
        }) by {
            if s.last().num != n1 && s.last().num != n2 {
                lemma_count_card_push(fdl, c, s.last());
            }
        }
    }
}

proof fn lemma_without_two_take_step(s: Seq<Card>, i: int, n1: int, n2: int)
    requires
        0 <= i < s.len(),
    ensures
        without_two_nums(s.take(i + 1), n1, n2) == (if s[i].num != n1 && s[i].num != n2 {
            without_two_nums(s.take(i), n1, n2).push(s[i])
        } else {
            without_two_nums(s.take(i), n1, n2)
        }),
{
    reveal(Seq::filter);
    assert(s.take(i + 1).drop_last() =~= s.take(i));
    assert(s.take(i + 1).last() == s[i]);
}

proof fn lemma_with_num_props(s: Seq<Card>, n: int)
    ensures
        with_num(s, n).len() == count_num(s, n),
        forall|i: int| 0 <= i < with_num(s, n).len() ==> (#[trigger] with_num(s, n)[i]).num == n,
    decreases s.len(),
{
    reveal(Seq::filter);
    if s.len() > 0 {
        lemma_with_num_props(s.drop_last(), n);
    }
}

proof fn lemma_with_num_split(s: Seq<Card>, k: int, n: int)
    requires
        0 <= k <= s.len(),
    ensures
        with_num(s, n) == with_num(s.subrange(0, k), n) + with_num(
            s.subrange(k, s.len() as int),
            n,
        ),
{
    assert(s =~= s.subrange(0, k) + s.subrange(k, s.len() as int));
    Seq::filter_distributes_over_add(
        s.subrange(0, k),
        s.subrange(k, s.len() as int),
        |c: Card| c.num == n,
    );
}

proof fn lemma_with_num_singleton(x: Card, n: int)
    ensures
        with_num(seq![x], n) == (if x.num == n {
            seq![x]
        } else {
            Seq::<Card>::empty()
        }),
{
    reveal(Seq::filter);
    assert(with_num(Seq::<Card>::empty(), n) =~= Seq::<Card>::empty());
    assert(seq![x].drop_last() =~= Seq::<Card>::empty());
    assert(Seq::<Card>::empty().push(x) =~= seq![x]);
}

/// At most one position can be the last maximum.
proof fn lemma_last_max_unique(s: Seq<Card>, a: int, b: int)
    requires
        is_last_max(s, a),
        is_last_max(s, b),
    ensures
        a == b,
{
    if a < b {
        assert(s[b].num < s[a].num);
        assert(s[a].num <= s[b].num);
    }
    if b < a {
        assert(s[a].num < s[b].num);
        assert(s[b].num <= s[a].num);
    }
}

/// Every card of a selection drawn from a pool occurs in the pool.
proof fn lemma_chosen_elements(a: Seq<Card>, b: Seq<Card>)
    requires
        chosen_from(a, b),
    ensures
        forall|i: int| 0 <= i < a.len() ==> b.contains(#[trigger] a[i]),
{
    assert forall|i: int| 0 <= i < a.len() implies b.contains(#[trigger] a[i]) by {
        lemma_count_card_zero(a, a[i]);
        assert(count_card(a, a[i]) > 0);
        let j = lemma_count_card_pos(b, a[i]);
        assert(b[j] == a[i]);
    }
}

/// A selection drawn from an all-valid pool is itself all valid.
proof fn lemma_chosen_valid(a: Seq<Card>, b: Seq<Card>)
    requires
        chosen_from(a, b),
        all_valid(b),
    ensures
        all_valid(a),
{
    lemma_chosen_elements(a, b);
}

proof fn lemma_chosen_trans(a: Seq<Card>, b: Seq<Card>, c: Seq<Card>)
    requires
        chosen_from(a, b),
        chosen_from(b, c),
    ensures
        chosen_from(a, c),
{
}

/// Pairwise different cards that each occur in the pool form a selection the
/// pool can supply.
proof fn lemma_distinct_chosen(sel: Seq<Card>, s: Seq<Card>)
    requires
        forall|i: int, j: int| 0 <= i < j < sel.len() ==> sel[i] != sel[j],
        forall|i: int| 0 <= i < sel.len() ==> s.contains(#[trigger] sel[i]),
    ensures
        chosen_from(sel, s),
{
    assert forall|c: Card| #[trigger] count_card(sel, c) <= count_card(s, c) by {
        if count_card(sel, c) > 0 {
            let i = lemma_count_card_pos(sel, c);
            lemma_count_card_remove(sel, i, c);
            if count_card(sel, c) >= 2 {
                let j = lemma_count_card_pos(sel.remove(i), c);
                assert(false);
            }
            assert(count_card(sel, c) == 1);
            assert(s.contains(sel[i]));
            let w = choose|j: int| 0 <= j < s.len() && s[j] == sel[i];
            assert(s[w] == c);
            lemma_count_card_zero(s, c);
        }
    }
}

// ---------------------------------------------------------------------------
// Exec helpers: filters, searches and the top-rank extractor.
// ---------------------------------------------------------------------------





/// The highest rank below `bound` occurring exactly `k` times, if any.
fn highest_num_with_count_below(cards: &Vec<Card>, k: usize, bound: usize) -> (r: Option<usize>)
    requires
        bound <= 13,
    ensures
        r is Some <==> exists|n: int| 0 <= n < bound && count_num(cards@, n) == k,
        r matches Some(n) ==> n < bound && count_num(cards@, n as int) == k && forall|u: int|
            n < u < bound ==> count_num(cards@, u) != k,
{
    let mut n: usize = bound;
    while n > 0
        invariant
            n <= bound,
            forall|u: int| n <= u < bound ==> count_num(cards@, u) != k,
        decreases n,
    {
        n = n - 1;
        if num_count(cards, n) == k {
            return Some(n);
        }
    }
    None
}


/// The cards whose rank is not `n`, in pool order.
fn filter_without_num(cards: &Vec<Card>, n: usize) -> (r: Vec<Card>)
    ensures
        r@ == without_num(cards@, n as int),
{
    let mut r: Vec<Card> = Vec::new();
    let mut i: usize = 0;
    while i < cards.len()
        invariant
            i <= cards@.len(),
            r@ == without_num(cards@.take(i as int), n as int),
        decreases cards@.len() - i,
    {
        proof {
            lemma_without_num_take_step(cards@, i as int, n as int);
        }
        if cards[i].num != n {
            r.push(cards[i]);
        }
        i = i + 1;
    }
    proof {
        assert(cards@.take(cards@.len() as int) =~= cards@);
    }
    r
}

/// The cards whose rank is neither `n1` nor `n2`, in pool order.
fn filter_without_two(cards: &Vec<Card>, n1: usize, n2: usize) -> (r: Vec<Card>)
    ensures
        r@ == without_two_nums(cards@, n1 as int, n2 as int),
{
    let mut r: Vec<Card> = Vec::new();
    let mut i: usize = 0;
    while i < cards.len()
        invariant
            i <= cards@.len(),
            r@ == without_two_nums(cards@.take(i as int), n1 as int, n2 as int),
        decreases cards@.len() - i,
    {
        proof {
            lemma_without_two_take_step(cards@, i as int, n1 as int, n2 as int);
        }
        if cards[i].num != n1 && cards[i].num != n2 {
            r.push(cards[i]);
        }
        i = i + 1;
    }
    proof {
        assert(cards@.take(cards@.len() as int) =~= cards@);
    }
    r
}

/// The first card of rank `n` in pool order.
fn pick_num(cards: &Vec<Card>, n: usize) -> (c: Card)
    requires
        has_num(cards@, n as int),
    ensures
        c.num == n,
        cards@.contains(c),
        c == with_num(cards@, n as int)[0],
{
    let mut i: usize = 0;
    while i < cards.len()
        invariant
            i <= cards@.len(),
            has_num(cards@, n as int),
            forall|j: int| 0 <= j < i ==> cards@[j].num != n,
        decreases cards@.len() - i,
    {
        if cards[i].num == n {
            proof {
                lemma_with_num_split(cards@, i as int, n as int);
                lemma_with_num_props(cards@.subrange(0, i as int), n as int);
                lemma_count_num_zero(cards@.subrange(0, i as int), n as int);
                let rest = cards@.subrange(i as int, cards@.len() as int);
                lemma_with_num_split(rest, 1, n as int);
                assert(rest.subrange(0, 1) =~= seq![cards@[i as int]]);
                lemma_with_num_singleton(cards@[i as int], n as int);
                assert(with_num(cards@, n as int)[0] == cards@[i as int]);
            }
            return cards[i];
        }
        i = i + 1;
    }
    proof {
        lemma_count_num_zero(cards@, n as int);
    }
    cards[0]
}

/// All cards of rank `n`, in reverse pool order.
fn rev_with_num(cards: &Vec<Card>, n: usize) -> (r: Vec<Card>)
    ensures
        r@ == with_num(cards@, n as int).reverse(),
        r@.len() == count_num(cards@, n as int),
        forall|i: int| 0 <= i < r@.len() ==> (#[trigger] r@[i]).num == n,
        forall|c: Card| #[trigger] count_card(r@, c) == (if c.num == n as int {
            count_card(cards@, c)
        } else {
            0nat
        }),
{
    let mut r: Vec<Card> = Vec::new();
    let mut j: usize = cards.len();
    while j > 0
        invariant
            j <= cards@.len(),
            r@ == with_num(cards@.subrange(j as int, cards@.len() as int), n as int).reverse(),
            r@.len() == count_num(cards@.subrange(j as int, cards@.len() as int), n as int),
            forall|i: int| 0 <= i < r@.len() ==> (#[trigger] r@[i]).num == n,
            forall|c: Card| #[trigger] count_card(r@, c) == (if c.num == n as int {
                count_card(cards@.subrange(j as int, cards@.len() as int), c)
            } else {
                0nat
            }),
        decreases j,
    {
        j = j - 1;
        let ghost tail = cards@.subrange(j + 1, cards@.len() as int);
        let ghost tail2 = cards@.subrange(j as int, cards@.len() as int);
        proof {
            assert(tail2 =~= seq![cards@[j as int]] + tail);
            crate::table::lemma_count_num_split(tail2, 1, n as int);
            assert(tail2.subrange(0, 1) =~= seq![cards@[j as int]]);
            assert(tail2.subrange(1, tail2.len() as int) =~= tail);
            crate::table::lemma_count_num_singleton(cards@[j as int], n as int);
            lemma_with_num_split(tail2, 1, n as int);
            lemma_with_num_singleton(cards@[j as int], n as int);
            if cards@[j as int].num == n {
                assert(with_num(tail2, n as int) =~= seq![cards@[j as int]] + with_num(
                    tail,
                    n as int,
                ));
                assert(with_num(tail2, n as int).reverse() =~= with_num(
                    tail,
                    n as int,
                ).reverse().push(cards@[j as int]));
            } else {
                assert(with_num(tail2, n as int) =~= with_num(tail, n as int));
            }
        }
        let ghost old_r = r@;
        if cards[j].num == n {
            r.push(cards[j]);
        }
        proof {
            assert forall|c: Card| #[trigger] count_card(r@, c) == (if c.num == n as int {
                count_card(tail2, c)
            } else {
                0nat
            }) by {
                crate::table::lemma_count_card_split(tail2, 1, c);
                assert(tail2.subrange(0, 1) =~= seq![cards@[j as int]]);
                assert(tail2.subrange(1, tail2.len() as int) =~= tail);
                crate::table::lemma_count_card_singleton(cards@[j as int], c);
                if cards@[j as int].num == n {
                    crate::table::lemma_count_card_push(old_r, c, cards@[j as int]);
                }
            }
        }
    }
    proof {
        assert(cards@.subrange(0, cards@.len() as int) =~= cards@);
    }
    r
}

/// Picks the `k` highest-ranking cards of the pool, highest first; among
/// cards of equal rank the one later in pool order goes first.
fn take_top_k(pool: &Vec<Card>, k: usize) -> (r: Vec<Card>)
    requires
        k <= pool@.len(),
    ensures
        r@ == top_k_sel(pool@, k as int),
        r@.len() == k,
        chosen_from(r@, pool@),
        top_ranks(pool@, r@),
        forall|a: int, b: int| 0 <= a <= b < k ==> r@[a].num >= r@[b].num,
{
    let mut rest: Vec<Card> = Vec::new();
    let mut i: usize = 0;
    while i < pool.len()
        invariant
            i <= pool@.len(),
            rest@ == pool@.take(i as int),
        decreases pool@.len() - i,
    {
        rest.push(pool[i]);
        proof {
            assert(rest@ =~= pool@.take(i + 1));
        }
        i = i + 1;
    }
    proof {
        assert(pool@.take(pool@.len() as int) =~= pool@);
    }
    let mut r: Vec<Card> = Vec::new();
    while r.len() < k
        invariant
            r@.len() <= k <= pool@.len(),
            r@.len() + rest@.len() == pool@.len(),
            forall|c: Card| #[trigger] count_card(r@, c) + count_card(rest@, c) == count_card(
                pool@,
                c,
            ),
            forall|v: int| #[trigger] count_num_gt(r@, v) + count_num_gt(rest@, v)
                == count_num_gt(pool@, v),
            forall|v: int| #[trigger] count_num_ge(r@, v) + count_num_ge(rest@, v)
                == count_num_ge(pool@, v),
            forall|a: int, b: int| 0 <= a <= b < r@.len() ==> r@[a].num >= r@[b].num,
            forall|a: int, j: int|
                0 <= a < r@.len() && 0 <= j < rest@.len() ==> (#[trigger] rest@[j]).num <= (
                #[trigger] r@[a]).num,
            top_ranks(pool@, r@),
            r@ + top_k_sel(rest@, k - r@.len()) == top_k_sel(pool@, k as int),
        decreases k - r@.len(),
    {
        let mut mi: usize = 0;
        let mut mj: usize = 1;
        while mj < rest.len()
            invariant
                mi < mj <= rest@.len(),
                forall|j: int| 0 <= j < mj ==> (#[trigger] rest@[j]).num <= rest@[mi as int].num,
                forall|j: int| mi < j < mj ==> (#[trigger] rest@[j]).num < rest@[mi as int].num,
            decreases rest@.len() - mj,
        {
            if rest[mj].num >= rest[mi].num {
                mi = mj;
            }
            mj = mj + 1;
        }
        let m = rest[mi];
        let ghost old_r = r@;
        let ghost old_rest = rest@;
        let ghost i0 = r@.len() as int;
        proof {
            assert(is_last_max(old_rest, mi as int));
        }
        r.push(m);
        rest.remove(mi);
        proof {
            let kk = k - old_r.len();
            let jc = choose|j: int| is_last_max(old_rest, j);
            lemma_last_max_unique(old_rest, jc, mi as int);
            assert(top_k_sel(old_rest, kk) == seq![m] + top_k_sel(
                old_rest.remove(mi as int),
                kk - 1,
            ));
            assert(r@ + top_k_sel(rest@, k - r@.len()) =~= old_r + (seq![m] + top_k_sel(
                old_rest.remove(mi as int),
                kk - 1,
            )));
        }
        proof {
            assert forall|c: Card| #[trigger] count_card(r@, c) + count_card(rest@, c)
                == count_card(pool@, c) by {
                lemma_count_card_push(old_r, c, m);
                lemma_count_card_remove(old_rest, mi as int, c);
            }
            assert forall|v: int| #[trigger] count_num_gt(r@, v) + count_num_gt(rest@, v)
                == count_num_gt(pool@, v) by {
                lemma_count_num_gt_push(old_r, m, v);
                lemma_count_num_gt_remove(old_rest, mi as int, v);
            }
            assert forall|v: int| #[trigger] count_num_ge(r@, v) + count_num_ge(rest@, v)
                == count_num_ge(pool@, v) by {
                lemma_count_num_ge_push(old_r, m, v);
                lemma_count_num_ge_remove(old_rest, mi as int, v);
            }
            assert forall|i: int|
                0 <= i < r@.len() implies #[trigger] count_num_gt(pool@, r@[i].num as int) <= i
                && count_num_ge(pool@, r@[i].num as int) >= i + 1 by {
                if i == i0 {
                    assert(r@[i] == m);
                    lemma_count_num_gt_zero(old_rest, m.num as int);
                    lemma_count_num_gt_le_len(old_r, m.num as int);
                    lemma_count_num_ge_full(old_r, m.num as int);
                    lemma_count_num_ge_zero(old_rest, m.num as int);
                    assert(old_rest[mi as int].num >= m.num);
                }
            }
        }
    }
    proof {
        assert forall|c: Card| #[trigger] count_card(r@, c) <= count_card(pool@, c) by {}
        assert(top_k_sel(rest@, 0) == Seq::<Card>::empty());
        assert(r@ =~= r@ + Seq::<Card>::empty());
    }
    r
}



/// Whether rank `n` occurs in the pool.
fn has_num_exec(cards: &Vec<Card>, n: usize) -> (r: bool)
    ensures
        r == has_num(cards@, n as int),
{
    num_count(cards, n) > 0
}

impl Grade {
    /// Per-suit occurrence counts of the pool.
    pub fn shape_counts(cards: &Vec<Card>) -> (r: Vec<usize>)
        ensures
            r@.len() == 4,
            forall|sh: int| 0 <= sh < 4 ==> r@[sh] == count_shape(cards@, sh),
    {
        let mut r: Vec<usize> = Vec::new();
        let mut sh: usize = 0;
        while sh < 4
            invariant
                sh <= 4,
                r@.len() == sh,
                forall|u: int| 0 <= u < sh ==> r@[u] == count_shape(cards@, u),
            decreases 4 - sh,
        {
            let c = shape_count(cards, sh);
            r.push(c);
            sh = sh + 1;
        }
        r
    }

    /// Per-rank occurrence counts of the pool.
    pub fn num_counts(cards: &Vec<Card>) -> (r: Vec<usize>)
        ensures
            r@.len() == 13,
            forall|n: int| 0 <= n < 13 ==> r@[n] == count_num(cards@, n),
    {
        let mut r: Vec<usize> = Vec::new();
        let mut n: usize = 0;
        while n < 13
            invariant
                n <= 13,
                r@.len() == n,
                forall|u: int| 0 <= u < n ==> r@[u] == count_num(cards@, u),
            decreases 13 - n,
        {
            let c = num_count(cards, n);
            r.push(c);
            n = n + 1;
        }
        r
    }

    /// The lowest suit covering at least `threshold` cards, if any.
    pub fn get_major_shape(cards: &Vec<Card>, threshold: usize) -> (r: Option<usize>)
        ensures
            r is Some <==> exists|sh: int| 0 <= sh < 4 && count_shape(cards@, sh) >= threshold,
            r matches Some(sh) ==> sh < 4 && count_shape(cards@, sh as int) >= threshold && forall|
                u: int,
            | 0 <= u < sh ==> count_shape(cards@, u) < threshold,
    {
        let mut sh: usize = 0;
        while sh < 4
            invariant
                sh <= 4,
                forall|u: int| 0 <= u < sh ==> count_shape(cards@, u) < threshold,
            decreases 4 - sh,
        {
            if shape_count(cards, sh) >= threshold {
                return Some(sh);
            }
            sh = sh + 1;
        }
        None
    }

    /// The lowest rank occurring exactly `num_of_cards` times, if any.
    pub fn get_major_num(cards: &Vec<Card>, num_of_cards: usize) -> (r: Option<usize>)
        ensures
            r is Some <==> exists|n: int| 0 <= n < 13 && count_num(cards@, n) == num_of_cards,
            r matches Some(n) ==> n < 13 && count_num(cards@, n as int) == num_of_cards && forall|
                u: int,
            | 0 <= u < n ==> count_num(cards@, u) != num_of_cards,
    {
        let mut n: usize = 0;
        while n < 13
            invariant
                n <= 13,
                forall|u: int| 0 <= u < n ==> count_num(cards@, u) != num_of_cards,
            decreases 13 - n,
        {
            if num_count(cards, n) == num_of_cards {
                return Some(n);
            }
            n = n + 1;
        }
        None
    }

    /// The cards of suit `shape`, in pool order.
    pub fn filter_by_shape(cards: &Vec<Card>, shape: usize) -> (r: Vec<Card>)
        ensures
            r@ == of_shape(cards@, shape as int),
    {
        let mut r: Vec<Card> = Vec::new();
        let mut i: usize = 0;
        while i < cards.len()
            invariant
                i <= cards@.len(),
                r@ == of_shape(cards@.take(i as int), shape as int),
            decreases cards@.len() - i,
        {
            proof {
                lemma_of_shape_take_step(cards@, i as int, shape as int);
            }
            if cards[i].shape == shape {
                r.push(cards[i]);
            }
            i = i + 1;
        }
        proof {
            assert(cards@.take(cards@.len() as int) =~= cards@);
        }
        r
    }

    /// The five highest-ranking cards of the pool, highest first.
    pub fn take_highest_5_cards(cards: &Vec<Card>) -> (r: (Card, Card, Card, Card, Card))
        requires
            cards@.len() >= 5,
        ensures
            top_sel(cards@, seq![r.0, r.1, r.2, r.3, r.4]),
    {
        let v = take_top_k(cards, 5);
        let r = (v[0], v[1], v[2], v[3], v[4]);
        proof {
            assert(seq![r.0, r.1, r.2, r.3, r.4] =~= v@);
        }
        r
    }

    /// The five highest-ranking cards of the pool, highest first.
    pub fn extract_top5(cards: &Vec<Card>) -> (r: (Card, Card, Card, Card, Card))
        requires
            cards@.len() >= 5,
        ensures
            top_sel(cards@, seq![r.0, r.1, r.2, r.3, r.4]),
    {
        Self::take_highest_5_cards(cards)
    }

    /// Detects a flush: five or more cards of one suit; selects the top five
    /// ranks of that suit.
    pub fn is_flush(cards: &Vec<Card>) -> (r: Option<Grade>)
        requires
            pool_ok(cards@),
        ensures
            r is Some <==> has_flush(cards@),
            r matches Some(g) ==> g is Flush && (exists|sh: int|
                #[trigger] flush_shape(cards@, sh) && flush_sel(cards@, sh, g.sel())),
    {
        match Self::get_major_shape(cards, 5) {
            None => None,
            Some(sh) => {
                let suited = Self::filter_by_shape(cards, sh);
                proof {
                    lemma_of_shape_props(cards@, sh as int);
                }
                let five = take_top_k(&suited, 5);
                let g = Grade::Flush((five[0], five[1], five[2], five[3], five[4]));
                proof {
                    assert(g.sel() =~= five@);
                    lemma_chosen_elements(five@, suited@);
                    assert forall|i: int| 0 <= i < 5 implies (#[trigger] g.sel()[i].shape) as int
                        == sh as int by {
                        assert(suited@.contains(five@[i]));
                        let j = choose|j: int| 0 <= j < suited@.len() && suited@[j] == five@[i];
                    }
                    assert forall|c: Card| #[trigger] count_card(suited@, c) <= count_card(
                        cards@,
                        c,
                    ) by {}
                    lemma_chosen_trans(five@, suited@, cards@);
                    assert(flush_shape(cards@, sh as int));
                    assert(flush_sel(cards@, sh as int, g.sel()));
                }
                Some(g)
            },
        }
    }

    /// Detects a straight: five consecutive ranks, scanning from the highest
    /// possible top rank downwards, with the wheel (ace played low) as the
    /// final case. Selects one card per rank, top rank first; in the wheel the
    /// ace sits in the last, least significant slot.
    pub fn is_straight(cards: &Vec<Card>) -> (r: Option<Grade>)
        requires
            pool_ok(cards@),
        ensures
            r is Some <==> has_straight(cards@),
            r matches Some(g) ==> g is Straight && sel_from(g.sel(), cards@)
                && best_straight_sel(cards@, g.sel()),
    {
        let mut t: usize = 12;
        while t >= 4
            invariant
                3 <= t <= 12,
                pool_ok(cards@),
                forall|u: int| t < u < 13 ==> !run_at(cards@, u),
            decreases t,
        {
            let ok = has_num_exec(cards, t) && has_num_exec(cards, t - 1) && has_num_exec(
                cards,
                t - 2,
            ) && has_num_exec(cards, t - 3) && has_num_exec(cards, t - 4);
            if ok {
                proof {
                    assert forall|k: int| t - 4 <= k <= t implies has_num(cards@, k) by {
                        assert(k == t - 4 || k == t - 3 || k == t - 2 || k == t - 1 || k == t);
                    }
                    assert(run_at(cards@, t as int));
                }
                let c0 = pick_num(cards, t);
                let c1 = pick_num(cards, t - 1);
                let c2 = pick_num(cards, t - 2);
                let c3 = pick_num(cards, t - 3);
                let c4 = pick_num(cards, t - 4);
                let g = Grade::Straight((c0, c1, c2, c3, c4));
                proof {
                    let sel = g.sel();
                    assert(sel =~= seq![c0, c1, c2, c3, c4]);
                    lemma_distinct_chosen(sel, cards@);
                    assert(best_run(cards@, t as int));
                    assert(forall|i: int|
                        0 <= i < 5 ==> (#[trigger] sel[i].num) as int == t - i);
                    assert(best_straight_sel(cards@, sel));
                }
                return Some(g);
            }
            proof {
                assert(!run_at(cards@, t as int));
            }
            t = t - 1;
        }
        proof {
            assert(!has_run(cards@));
        }
        let w = has_num_exec(cards, 0) && has_num_exec(cards, 1) && has_num_exec(cards, 2)
            && has_num_exec(cards, 3) && has_num_exec(cards, 12);
        if w {
            let c0 = pick_num(cards, 3);
            let c1 = pick_num(cards, 2);
            let c2 = pick_num(cards, 1);
            let c3 = pick_num(cards, 0);
            let c4 = pick_num(cards, 12);
            let g = Grade::Straight((c0, c1, c2, c3, c4));
            proof {
                let sel = g.sel();
                assert(sel =~= seq![c0, c1, c2, c3, c4]);
                lemma_distinct_chosen(sel, cards@);
                assert(best_straight_sel(cards@, sel));
            }
            Some(g)
        } else {
            proof {
                assert(!wheel_at(cards@));
            }
            None
        }
    }

    /// Detects a straight flush: when one suit covers five or more cards,
    /// re-runs the straight detector on that suit alone and reclassifies a
    /// positive result.
    pub fn is_straight_flush(cards: &Vec<Card>) -> (r: Option<Grade>)
        requires
            pool_ok(cards@),
        ensures
            r is Some <==> has_straight_flush(cards@),
            r matches Some(g) ==> g is StraightFlush && sel_from(g.sel(), cards@) && (exists|
                sh: int,
            |
                #[trigger] straight_flush_shape(cards@, sh) && (forall|i: int|
                    0 <= i < 5 ==> (#[trigger] g.sel()[i].shape) as int == sh)
                    && best_straight_sel(of_shape(cards@, sh), g.sel())),
    {
        match Self::get_major_shape(cards, 5) {
            None => None,
            Some(sh) => {
                let suited = Self::filter_by_shape(cards, sh);
                proof {
                    lemma_of_shape_props(cards@, sh as int);
                    crate::table::lemma_count_shape_le_len(cards@, sh as int);
                    assert forall|c: Card| #[trigger] count_card(suited@, c) <= count_card(
                        cards@,
                        c,
                    ) by {}
                    lemma_chosen_valid(suited@, cards@);
                }
                match Self::is_straight(&suited) {
                    Some(g) => match g {
                        Grade::Straight(tup) => {
                            let sf = Grade::StraightFlush(tup);
                            proof {
                                assert(sf.sel() =~= g.sel());
                                lemma_chosen_trans(sf.sel(), suited@, cards@);
                                lemma_chosen_elements(sf.sel(), suited@);
                                assert forall|i: int|
                                    0 <= i < 5 implies (#[trigger] sf.sel()[i].shape) as int
                                    == sh as int by {
                                    assert(suited@.contains(sf.sel()[i]));
                                    let j = choose|j: int|
                                        0 <= j < suited@.len() && suited@[j] == sf.sel()[i];
                                }
                                assert(straight_flush_shape(cards@, sh as int));
                            }
                            Some(sf)
                        },
                        _ => {
                            proof {
                                assert(false);
                            }
                            None
                        },
                    },
                    None => {
                        proof {
                            assert forall|sh2: int| !straight_flush_shape(cards@, sh2) by {
                                if flush_shape(cards@, sh2) {
                                    if sh2 != sh as int {
                                        lemma_count_shape_pair_le(cards@, sh as int, sh2);
                                    }
                                }
                            }
                        }
                        None
                    },
                }
            },
        }
    }

    /// Detects four of a kind: the four cards of the quadrupled rank plus the
    /// highest-ranking remaining card as kicker.
    pub fn is_four_of_a_kind(cards: &Vec<Card>) -> (r: Option<Grade>)
        requires
            pool_ok(cards@),
        ensures
            r is Some <==> has_quad(cards@),
            r matches Some(g) ==> g is FourOfAKind && (exists|n: int|
                #[trigger] quad_num(cards@, n) && quad_sel(cards@, n, g.sel())),
    {
        match Self::get_major_num(cards, 4) {
            None => None,
            Some(n) => {
                let quad = rev_with_num(cards, n);
                let others = filter_without_num(cards, n);
                proof {
                    lemma_without_num_props(cards@, n as int);
                }
                let kick = take_top_k(&others, 1);
                let g = Grade::FourOfAKind((quad[0], quad[1], quad[2], quad[3], kick[0]));
                proof {
                    let sel = g.sel();
                    assert(sel =~= quad@ + kick@);
                    assert forall|c: Card| #[trigger] count_card(sel, c) <= count_card(
                        cards@,
                        c,
                    ) by {
                        lemma_count_card_split(sel, 4, c);
                        assert(sel.subrange(0, 4) =~= quad@);
                        assert(sel.subrange(4, 5) =~= kick@);
                        assert(count_card(kick@, c) <= count_card(others@, c));
                    }
                    assert(quad_num(cards@, n as int));
                    assert(sel.subrange(0, 4) =~= quad@);
                    assert(sel[4] == kick@[0]);
                    assert(quad_sel(cards@, n as int, sel));
                }
                Some(g)
            },
        }
    }

    /// Detects a full house. The highest triplet fills the "three" slot; a
    /// second triplet, if present, supplies the pair, otherwise the highest
    /// pair does.
    pub fn is_full_house(cards: &Vec<Card>) -> (r: Option<Grade>)
        requires
            pool_ok(cards@),
        ensures
            r is Some <==> has_full_house(cards@),
            r matches Some(g) ==> g is FullHouse && (exists|t3: int, p: int|
                #[trigger] full_house_nums(cards@, t3, p) && full_house_sel(
                    cards@,
                    t3,
                    p,
                    g.sel(),
                )),
    {
        let t3 = match highest_num_with_count_below(cards, 3, 13) {
            None => {
                proof {
                    assert(!has_full_house(cards@));
                }
                return None;
            },
            Some(t3) => t3,
        };
        let trips = rev_with_num(cards, t3);
        match highest_num_with_count_below(cards, 3, t3) {
            Some(t2) => {
                let pairc = rev_with_num(cards, t2);
                let g = Grade::FullHouse((trips[0], trips[1], trips[2], pairc[0], pairc[1]));
                proof {
                    let sel = g.sel();
                    assert(sel =~= trips@ + pairc@.subrange(0, 2));
                    assert forall|c: Card| #[trigger] count_card(sel, c) <= count_card(
                        cards@,
                        c,
                    ) by {
                        lemma_count_card_split(sel, 3, c);
                        assert(sel.subrange(0, 3) =~= trips@);
                        assert(sel.subrange(3, 5) =~= pairc@.subrange(0, 2));
                        lemma_count_card_split(pairc@, 2, c);
                    }
                    assert(trip_num(cards@, t2 as int));
                    assert(exists|m: int| m != t3 as int && #[trigger] trip_num(cards@, m));
                    assert(full_house_nums(cards@, t3 as int, t2 as int));
                    assert(sel.subrange(0, 3) =~= trips@);
                    assert(sel.subrange(3, 5) =~= pairc@.subrange(0, 2));
                    assert(pairc@.subrange(0, 2) =~= with_num(
                        cards@,
                        t2 as int,
                    ).reverse().take(2));
                    assert(full_house_sel(cards@, t3 as int, t2 as int, sel));
                }
                Some(g)
            },
            None => {
                match highest_num_with_count_below(cards, 2, 13) {
                    None => {
                        proof {
                            assert(!has_full_house(cards@));
                        }
                        None
                    },
                    Some(p) => {
                        let pairc = rev_with_num(cards, p);
                        let g = Grade::FullHouse(
                            (trips[0], trips[1], trips[2], pairc[0], pairc[1]),
                        );
                        proof {
                            let sel = g.sel();
                            assert(sel =~= trips@ + pairc@);
                            assert forall|c: Card| #[trigger] count_card(sel, c) <= count_card(
                                cards@,
                                c,
                            ) by {
                                lemma_count_card_split(sel, 3, c);
                                assert(sel.subrange(0, 3) =~= trips@);
                                assert(sel.subrange(3, 5) =~= pairc@);
                            }
                            assert(!(exists|m: int| m != t3 as int && trip_num(cards@, m)));
                            assert(full_house_nums(cards@, t3 as int, p as int));
                            assert(sel.subrange(0, 3) =~= trips@);
                            assert(sel.subrange(3, 5) =~= pairc@);
                            assert(pairc@ =~= with_num(cards@, p as int).reverse().take(2));
                            assert(full_house_sel(cards@, t3 as int, p as int, sel));
                        }
                        Some(g)
                    },
                }
            },
        }
    }

    /// Detects three of a kind: the triplet plus the two highest remaining
    /// kickers.
    pub fn is_three_of_a_kind(cards: &Vec<Card>) -> (r: Option<Grade>)
        requires
            pool_ok(cards@),
        ensures
            r is Some <==> has_trip(cards@),
            r matches Some(g) ==> g is ThreeOfAKind && (exists|n: int|
                #[trigger] trip_num(cards@, n) && (forall|u: int|
                    0 <= u < n ==> !trip_num(cards@, u)) && trip_sel(cards@, n, g.sel())),
    {
        match Self::get_major_num(cards, 3) {
            None => None,
            Some(n) => {
                let trips = rev_with_num(cards, n);
                let others = filter_without_num(cards, n);
                proof {
                    lemma_without_num_props(cards@, n as int);
                }
                let kicks = take_top_k(&others, 2);
                let g = Grade::ThreeOfAKind((trips[0], trips[1], trips[2], kicks[0], kicks[1]));
                proof {
                    let sel = g.sel();
                    assert(sel =~= trips@ + kicks@);
                    assert forall|c: Card| #[trigger] count_card(sel, c) <= count_card(
                        cards@,
                        c,
                    ) by {
                        lemma_count_card_split(sel, 3, c);
                        assert(sel.subrange(0, 3) =~= trips@);
                        assert(sel.subrange(3, 5) =~= kicks@);
                        assert(count_card(kicks@, c) <= count_card(others@, c));
                    }
                    assert(sel.subrange(0, 3) =~= trips@);
                    assert(sel.subrange(3, 5) =~= kicks@);
                    assert(trip_num(cards@, n as int));
                    assert(trip_sel(cards@, n as int, sel));
                }
                Some(g)
            },
        }
    }

    /// Detects two pairs: the two highest-ranking pairs plus the single best
    /// remaining kicker.
    pub fn is_two_pairs(cards: &Vec<Card>) -> (r: Option<Grade>)
        requires
            pool_ok(cards@),
        ensures
            r is Some <==> has_two_pairs(cards@),
            r matches Some(g) ==> g is TwoPairs && (exists|p1: int, p2: int|
                #[trigger] two_pair_nums(cards@, p1, p2) && two_pair_sel(
                    cards@,
                    p1,
                    p2,
                    g.sel(),
                )),
    {
        let p1 = match highest_num_with_count_below(cards, 2, 13) {
            None => {
                proof {
                    assert(!has_two_pairs(cards@));
                }
                return None;
            },
            Some(p1) => p1,
        };
        let p2 = match highest_num_with_count_below(cards, 2, p1) {
            None => {
                proof {
                    assert(!has_two_pairs(cards@));
                }
                return None;
            },
            Some(p2) => p2,
        };
        let pa = rev_with_num(cards, p1);
        let pb = rev_with_num(cards, p2);
        let others = filter_without_two(cards, p1, p2);
        proof {
            lemma_without_two_props(cards@, p1 as int, p2 as int);
        }
        let k = take_top_k(&others, 1);
        let g = Grade::TwoPairs((pa[0], pa[1], pb[0], pb[1], k[0]));
        proof {
            let sel = g.sel();
            assert(sel =~= pa@ + pb@ + k@);
            assert forall|c: Card| #[trigger] count_card(sel, c) <= count_card(cards@, c) by {
                lemma_count_card_split(sel, 4, c);
                assert(sel.subrange(0, 4) =~= pa@ + pb@);
                assert(sel.subrange(4, 5) =~= k@);
                lemma_count_card_split(pa@ + pb@, 2, c);
                assert((pa@ + pb@).subrange(0, 2) =~= pa@);
                assert((pa@ + pb@).subrange(2, 4) =~= pb@);
                assert(count_card(k@, c) <= count_card(others@, c));
            }
            assert(two_pair_nums(cards@, p1 as int, p2 as int));
            assert(sel.subrange(0, 2) =~= pa@);
            assert(sel.subrange(2, 4) =~= pb@);
            assert(sel[0] == pa@[0] && sel[1] == pa@[1] && sel[2] == pb@[0] && sel[3] == pb@[1]
                && sel[4] == k@[0]);
            assert(count_num_gt(others@, k@[0].num as int) <= 0);
            assert(count_num_ge(others@, k@[0].num as int) >= 1);
            assert(two_pair_sel(cards@, p1 as int, p2 as int, sel));
        }
        Some(g)
    }

    /// Detects one pair: the first (lowest) paired rank plus the three
    /// highest remaining kickers.
    pub fn is_one_pair(cards: &Vec<Card>) -> (r: Option<Grade>)
        requires
            pool_ok(cards@),
        ensures
            r is Some <==> has_pair(cards@),
            r matches Some(g) ==> g is OnePair && (exists|p: int|
                #[trigger] pair_num(cards@, p) && (forall|u: int|
                    0 <= u < p ==> !pair_num(cards@, u)) && one_pair_sel(cards@, p, g.sel())),
    {
        match Self::get_major_num(cards, 2) {
            None => None,
            Some(p) => {
                let pair = rev_with_num(cards, p);
                let others = filter_without_num(cards, p);
                proof {
                    lemma_without_num_props(cards@, p as int);
                }
                let kicks = take_top_k(&others, 3);
                let g = Grade::OnePair((pair[0], pair[1], kicks[0], kicks[1], kicks[2]));
                proof {
                    let sel = g.sel();
                    assert(sel =~= pair@ + kicks@);
                    assert forall|c: Card| #[trigger] count_card(sel, c) <= count_card(
                        cards@,
                        c,
                    ) by {
                        lemma_count_card_split(sel, 2, c);
                        assert(sel.subrange(0, 2) =~= pair@);
                        assert(sel.subrange(2, 5) =~= kicks@);
                        assert(count_card(kicks@, c) <= count_card(others@, c));
                    }
                    assert(sel.subrange(0, 2) =~= pair@);
                    assert(sel.subrange(2, 5) =~= kicks@);
                    assert(pair_num(cards@, p as int));
                    assert(one_pair_sel(cards@, p as int, sel));
                }
                Some(g)
            },
        }
    }

    /// Grades a pool of 5 to 7 cards: tries the categories in descending
    /// strength and keeps the first that matches, falling back to the five
    /// highest cards. The returned category is exactly the best achievable
    /// one, and the five selected cards are drawn from the pool and ordered
    /// most significant first.
    pub fn new(cards: &Vec<Card>) -> (g: Grade)
        requires
            pool_ok(cards@),
        ensures
            g.category() == best_category(cards@),
            graded(cards@, g.category(), g.sel()),
    {
        let g = if let Some(g) = Self::is_straight_flush(cards) {
            g
        } else if let Some(g) = Self::is_four_of_a_kind(cards) {
            g
        } else if let Some(g) = Self::is_full_house(cards) {
            g
        } else if let Some(g) = Self::is_flush(cards) {
            g
        } else if let Some(g) = Self::is_straight(cards) {
            g
        } else if let Some(g) = Self::is_three_of_a_kind(cards) {
            g
        } else if let Some(g) = Self::is_two_pairs(cards) {
            g
        } else if let Some(g) = Self::is_one_pair(cards) {
            g
        } else {
            let t = Self::extract_top5(cards);
            Grade::Top(t)
        };
        proof {
            lemma_chosen_valid(g.sel(), cards@);
        }
        g
    }
}

} // verus!
