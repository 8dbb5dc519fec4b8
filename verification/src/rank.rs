use crate::grade::{
    best_straight_sel, flush_sel, flush_shape, full_house_nums, full_house_sel, graded, has_flush,
    has_full_house, has_pair, has_quad, has_straight, has_straight_flush, has_trip, has_two_pairs,
    of_shape, one_pair_sel, pair_num, pool_ok, quad_num, quad_sel, sel_from, straight_flush_shape,
    trip_num, trip_sel, two_pair_nums, two_pair_sel, Grade,
};
use crate::table::{count_num, count_shape, Card, Hand};
use vstd::prelude::*;
use vstd::string::StringExecFns;

verus! {

/// A graded hand in flat form: a category code (8 = straight flush down to
/// 0 = high card) plus the five cards selected to represent the hand.
pub struct Rank {
    pub grade: u8,
    pub cards: Vec<Card>,
}

impl Rank {
    /// Flattens a grade into a category code and the selected cards.
    fn from_grade(g: Grade) -> (r: Rank)
        ensures
            r.grade as int == g.category(),
            r.cards@ == g.sel(),
    {
        let v = g.as_value();
        let t = g.cards5();
        let mut cards: Vec<Card> = Vec::new();
        cards.push(t.0);
        cards.push(t.1);
        cards.push(t.2);
        cards.push(t.3);
        cards.push(t.4);
        proof {
            assert(cards@ =~= g.sel());
        }
        Rank { grade: v.0, cards }
    }

    /// Grades the hand's card pool: the code is the best achievable category
    /// and the five cards are selected as that category demands.
    pub fn new(hand: &Hand) -> (r: Rank)
        requires
            pool_ok(hand.cards@),
        ensures
            graded(hand.cards@, r.grade as int, r.cards@),
    {
        Self::from_grade(Grade::new(&hand.cards))
    }

    pub fn is_straight_flush(cards: &Vec<Card>) -> (r: Option<Rank>)
        requires
            pool_ok(cards@),
        ensures
            r is Some <==> has_straight_flush(cards@),
            r matches Some(rk) ==> rk.grade == 8 && sel_from(rk.cards@, cards@) && (exists|
                sh: int,
            |
                #[trigger] straight_flush_shape(cards@, sh) && (forall|i: int|
                    0 <= i < 5 ==> (#[trigger] rk.cards@[i].shape) as int == sh)
                    && best_straight_sel(of_shape(cards@, sh), rk.cards@)),
    {
        match Grade::is_straight_flush(cards) {
            Some(g) => Some(Self::from_grade(g)),
            None => None,
        }
    }

    pub fn is_four_of_a_kind(cards: &Vec<Card>) -> (r: Option<Rank>)
        requires
            pool_ok(cards@),
        ensures
            r is Some <==> has_quad(cards@),
            r matches Some(rk) ==> rk.grade == 7 && (exists|n: int|
                #[trigger] quad_num(cards@, n) && quad_sel(cards@, n, rk.cards@)),
    {
        match Grade::is_four_of_a_kind(cards) {
            Some(g) => Some(Self::from_grade(g)),
            None => None,
        }
    }

    pub fn is_full_house(cards: &Vec<Card>) -> (r: Option<Rank>)
        requires
            pool_ok(cards@),
        ensures
            r is Some <==> has_full_house(cards@),
            r matches Some(rk) ==> rk.grade == 6 && (exists|t3: int, p: int|
                #[trigger] full_house_nums(cards@, t3, p) && full_house_sel(
                    cards@,
                    t3,
                    p,
                    rk.cards@,
                )),
    {
        match Grade::is_full_house(cards) {
            Some(g) => Some(Self::from_grade(g)),
            None => None,
        }
    }

    pub fn is_flush(cards: &Vec<Card>) -> (r: Option<Rank>)
        requires
            pool_ok(cards@),
        ensures
            r is Some <==> has_flush(cards@),
            r matches Some(rk) ==> rk.grade == 5 && (exists|sh: int|
                #[trigger] flush_shape(cards@, sh) && flush_sel(cards@, sh, rk.cards@)),
    {
        match Grade::is_flush(cards) {
            Some(g) => Some(Self::from_grade(g)),
            None => None,
        }
    }

    pub fn is_straight(cards: &Vec<Card>) -> (r: Option<Rank>)
        requires
            pool_ok(cards@),
        ensures
            r is Some <==> has_straight(cards@),
            r matches Some(rk) ==> rk.grade == 4 && sel_from(rk.cards@, cards@)
                && best_straight_sel(cards@, rk.cards@),
    {
        match Grade::is_straight(cards) {
            Some(g) => Some(Self::from_grade(g)),
            None => None,
        }
    }

    pub fn is_three_of_a_kind(cards: &Vec<Card>) -> (r: Option<Rank>)
        requires
            pool_ok(cards@),
        ensures
            r is Some <==> has_trip(cards@),
            r matches Some(rk) ==> rk.grade == 3 && (exists|n: int|
                #[trigger] trip_num(cards@, n) && (forall|u: int|
                    0 <= u < n ==> !trip_num(cards@, u)) && trip_sel(cards@, n, rk.cards@)),
    {
        match Grade::is_three_of_a_kind(cards) {
            Some(g) => Some(Self::from_grade(g)),
            None => None,
        }
    }

    pub fn is_two_pairs(cards: &Vec<Card>) -> (r: Option<Rank>)
        requires
            pool_ok(cards@),
        ensures
            r is Some <==> has_two_pairs(cards@),
            r matches Some(rk) ==> rk.grade == 2 && (exists|p1: int, p2: int|
                #[trigger] two_pair_nums(cards@, p1, p2) && two_pair_sel(
                    cards@,
                    p1,
                    p2,
                    rk.cards@,
                )),
    {
        match Grade::is_two_pairs(cards) {
            Some(g) => Some(Self::from_grade(g)),
            None => None,
        }
    }

    pub fn is_one_pair(cards: &Vec<Card>) -> (r: Option<Rank>)
        requires
            pool_ok(cards@),
        ensures
            r is Some <==> has_pair(cards@),
            r matches Some(rk) ==> rk.grade == 1 && (exists|p: int|
                #[trigger] pair_num(cards@, p) && (forall|u: int|
                    0 <= u < p ==> !pair_num(cards@, u)) && one_pair_sel(cards@, p, rk.cards@)),
    {
        match Grade::is_one_pair(cards) {
            Some(g) => Some(Self::from_grade(g)),
            None => None,
        }
    }

    /// Per-suit occurrence counts of the pool.
    pub fn shape_counts(cards: &Vec<Card>) -> (r: Vec<usize>)
        ensures
            r@.len() == 4,
            forall|sh: int| 0 <= sh < 4 ==> r@[sh] == count_shape(cards@, sh),
    {
        Grade::shape_counts(cards)
    }

    /// Per-rank occurrence counts of the pool.
    pub fn num_counts(cards: &Vec<Card>) -> (r: Vec<usize>)
        ensures
            r@.len() == 13,
            forall|n: int| 0 <= n < 13 ==> r@[n] == count_num(cards@, n),
    {
        Grade::num_counts(cards)
    }

    /// The display label of the category code, as it opens the rendered
    /// string.
    pub open spec fn spec_label(self) -> Seq<char> {
        if self.grade == 0 {
            "Top\t\t   :  "@
        } else if self.grade == 1 {
            "One Pair  \t   :  "@
        } else if self.grade == 2 {
            "Two Pairs  \t   :  "@
        } else if self.grade == 3 {
            "Three Of A Kind  :  "@
        } else if self.grade == 4 {
            "Straight  \t   :  "@
        } else if self.grade == 5 {
            "Flush\t\t   :  "@
        } else if self.grade == 6 {
            "Full House\t   :  "@
        } else if self.grade == 7 {
            "Four Of A Kind   :  "@
        } else if self.grade == 8 {
            "Straight Flush   :  "@
        } else {
            "Non-existant Grade  :  "@
        }
    }

    /// Category label followed by the five selected cards.
    pub fn to_string(&self) -> (r: String)
        ensures
            r@.len() >= self.spec_label().len(),
            r@.subrange(0, self.spec_label().len() as int) == self.spec_label(),
    {
        let label = match self.grade {
            0 => String::from_str("Top\t\t   :  "),
            1 => String::from_str("One Pair  \t   :  "),
            2 => String::from_str("Two Pairs  \t   :  "),
            3 => String::from_str("Three Of A Kind  :  "),
            4 => String::from_str("Straight  \t   :  "),
            5 => String::from_str("Flush\t\t   :  "),
            6 => String::from_str("Full House\t   :  "),
            7 => String::from_str("Four Of A Kind   :  "),
            8 => String::from_str("Straight Flush   :  "),
            _ => String::from_str("Non-existant Grade  :  "),
        };
        proof {
            assert(label@ == self.spec_label());
        }
        let mut out = label;
        let mut i: usize = 0;
        while i < self.cards.len()
            invariant
                i <= self.cards@.len(),
                out@.len() >= self.spec_label().len(),
                out@.subrange(0, self.spec_label().len() as int) == self.spec_label(),
            decreases self.cards@.len() - i,
        {
            out.append(self.cards[i].to_string().as_str());
            out.append(" ");
            proof {
                assert(out@.subrange(0, self.spec_label().len() as int) =~= self.spec_label());
            }
            i = i + 1;
        }
        out
    }
}

} // verus!
