use rand::seq::SliceRandom;
use vstd::prelude::*;
use vstd::string::StringExecFns;

verus! {

/// A playing card. `shape` is the suit (0 = spades, 1 = diamonds, 2 = hearts,
/// 3 = clubs); `num` is the rank (0 = two, 1 = three, ..., 8 = ten, 9 = jack,
/// 10 = queen, 11 = king, 12 = ace). Gameplay ordering is by `num` alone;
/// `shape` matters only to flush detection.
#[derive(Copy, Clone, Debug, PartialEq, Eq, Hash, Structural)]
pub struct Card {
    pub shape: usize,
    pub num: usize,
}

/// A card that can occur in a real deck: one of 4 suits and 13 ranks.
pub open spec fn card_valid(c: Card) -> bool {
    c.shape < 4 && c.num < 13
}

/// Every card of the pool is a real card.
pub open spec fn all_valid(s: Seq<Card>) -> bool {
    forall|i: int| 0 <= i < s.len() ==> card_valid(#[trigger] s[i])
}

// ---------------------------------------------------------------------------
// Counting model: every statement about pools, decks and selections is made
// in terms of how many cards satisfy a predicate.
// ---------------------------------------------------------------------------

/// How many cards of `s` satisfy `f`.
pub open spec fn count_if(s: Seq<Card>, f: spec_fn(Card) -> bool) -> nat
    decreases s.len(),
{
    if s.len() == 0 {
        0
    } else {
        count_if(s.drop_last(), f) + (if f(s.last()) {
            1nat
        } else {
            0nat
        })
    }
}

/// How many cards of `s` have rank `n`.
pub open spec fn count_num(s: Seq<Card>, n: int) -> nat {
    count_if(s, |c: Card| c.num == n)
}

/// How many cards of `s` have suit `sh`.
pub open spec fn count_shape(s: Seq<Card>, sh: int) -> nat {
    count_if(s, |c: Card| c.shape == sh)
}

/// How many occurrences of exactly the card `x` the sequence `s` holds.
pub open spec fn count_card(s: Seq<Card>, x: Card) -> nat {
    count_if(s, |c: Card| c.shape == x.shape && c.num == x.num)
}

/// How many cards of `s` have rank strictly above `v`.
pub open spec fn count_num_gt(s: Seq<Card>, v: int) -> nat {
    count_if(s, |c: Card| c.num > v)
}

/// How many cards of `s` have rank at least `v`.
pub open spec fn count_num_ge(s: Seq<Card>, v: int) -> nat {
    count_if(s, |c: Card| c.num >= v)
}

/// `a` uses no card more often than `b` does: the selection `a` can be made
/// from the pool `b` without using any physical card twice.
pub open spec fn chosen_from(a: Seq<Card>, b: Seq<Card>) -> bool {
    forall|c: Card| #[trigger] count_card(a, c) <= count_card(b, c)
}

pub proof fn lemma_count_if_push(s: Seq<Card>, f: spec_fn(Card) -> bool, x: Card)
    ensures
        count_if(s.push(x), f) == count_if(s, f) + (if f(x) {
            1nat
        } else {
            0nat
        }),
{
    assert(s.push(x).drop_last() =~= s);
}

pub proof fn lemma_count_if_le_len(s: Seq<Card>, f: spec_fn(Card) -> bool)
    ensures
        count_if(s, f) <= s.len(),
    decreases s.len(),
{
    if s.len() > 0 {
        lemma_count_if_le_len(s.drop_last(), f);
    }
}

/// A count is zero exactly when no card of the sequence satisfies the predicate.
pub proof fn lemma_count_if_zero(s: Seq<Card>, f: spec_fn(Card) -> bool)
    ensures
        count_if(s, f) == 0 <==> (forall|i: int| 0 <= i < s.len() ==> !f(#[trigger] s[i])),
    decreases s.len(),
{
    if s.len() > 0 {
        lemma_count_if_zero(s.drop_last(), f);
        assert(forall|i: int| 0 <= i < s.len() - 1 ==> s.drop_last()[i] == s[i]);
    }
}

/// A count is the full length exactly when every card satisfies the predicate.
pub proof fn lemma_count_if_full(s: Seq<Card>, f: spec_fn(Card) -> bool)
    ensures
        count_if(s, f) == s.len() <==> (forall|i: int| 0 <= i < s.len() ==> f(#[trigger] s[i])),
    decreases s.len(),
{
    if s.len() > 0 {
        lemma_count_if_full(s.drop_last(), f);
        lemma_count_if_le_len(s.drop_last(), f);
        assert(forall|i: int| 0 <= i < s.len() - 1 ==> s.drop_last()[i] == s[i]);
        assert(s.drop_last().len() == s.len() - 1);
    }
}

pub proof fn lemma_count_if_concat(a: Seq<Card>, b: Seq<Card>, f: spec_fn(Card) -> bool)
    ensures
        count_if(a + b, f) == count_if(a, f) + count_if(b, f),
    decreases b.len(),
{
    if b.len() == 0 {
        assert(a + b =~= a);
    } else {
        lemma_count_if_concat(a, b.drop_last(), f);
        assert((a + b).drop_last() =~= a + b.drop_last());
        assert((a + b).last() == b.last());
    }
}

/// Counting splits at any cut point of the sequence.
pub proof fn lemma_count_if_split(s: Seq<Card>, k: int, f: spec_fn(Card) -> bool)
    requires
        0 <= k <= s.len(),
    ensures
        count_if(s, f) == count_if(s.subrange(0, k), f) + count_if(
            s.subrange(k, s.len() as int),
            f,
        ),
{
    assert(s =~= s.subrange(0, k) + s.subrange(k, s.len() as int));
    lemma_count_if_concat(s.subrange(0, k), s.subrange(k, s.len() as int), f);
}

/// One scanning step: extending a prefix by one card adjusts the count by
/// whether that card satisfies the predicate.
pub proof fn lemma_count_if_take_step(s: Seq<Card>, i: int, f: spec_fn(Card) -> bool)
    requires
        0 <= i < s.len(),
    ensures
        count_if(s.take(i + 1), f) == count_if(s.take(i), f) + (if f(s[i]) {
            1nat
        } else {
            0nat
        }),
{
    assert(s.take(i + 1) =~= s.take(i).push(s[i]));
    lemma_count_if_push(s.take(i), f, s[i]);
}

pub proof fn lemma_count_if_remove(s: Seq<Card>, i: int, f: spec_fn(Card) -> bool)
    requires
        0 <= i < s.len(),
    ensures
        count_if(s, f) == count_if(s.remove(i), f) + (if f(s[i]) {
            1nat
        } else {
            0nat
        }),
{
    let left = s.subrange(0, i);
    let right = s.subrange(i + 1, s.len() as int);
    assert(s =~= left + seq![s[i]] + right);
    assert(s.remove(i) =~= left + right);
    lemma_count_if_concat(left + seq![s[i]], right, f);
    lemma_count_if_concat(left, seq![s[i]], f);
    lemma_count_if_concat(left, right, f);
    assert(seq![s[i]].drop_last() =~= Seq::<Card>::empty());
    assert(count_if(Seq::<Card>::empty(), f) == 0);
    assert(seq![s[i]].last() == s[i]);
    assert(count_if(seq![s[i]], f) == (if f(s[i]) {
        1nat
    } else {
        0nat
    }));
}

pub proof fn lemma_count_if_update(s: Seq<Card>, i: int, x: Card, f: spec_fn(Card) -> bool)
    requires
        0 <= i < s.len(),
    ensures
        count_if(s.update(i, x), f) + (if f(s[i]) {
            1nat
        } else {
            0nat
        }) == count_if(s, f) + (if f(x) {
            1nat
        } else {
            0nat
        }),
{
    lemma_count_if_remove(s, i, f);
    lemma_count_if_remove(s.update(i, x), i, f);
    assert(s.update(i, x).remove(i) =~= s.remove(i));
}

/// Exchanging the cards at two positions never changes any count.
pub proof fn lemma_count_if_swap(s: Seq<Card>, i: int, j: int, f: spec_fn(Card) -> bool)
    requires
        0 <= i < s.len(),
        0 <= j < s.len(),
    ensures
        count_if(s.update(i, s[j]).update(j, s[i]), f) == count_if(s, f),
{
    let s1 = s.update(i, s[j]);
    lemma_count_if_update(s, i, s[j], f);
    lemma_count_if_update(s1, j, s[i], f);
    if i == j {
        assert(s1.update(j, s[i]) =~= s);
    }
}

/// A positive count yields a witness position.
pub proof fn lemma_count_if_pos(s: Seq<Card>, f: spec_fn(Card) -> bool) -> (i: int)
    requires
        count_if(s, f) > 0,
    ensures
        0 <= i < s.len() && f(s[i]),
{
    lemma_count_if_zero(s, f);
    choose|i: int| 0 <= i < s.len() && f(#[trigger] s[i])
}

// The generic lemmas above are restated for `count_card`: spec closures only
// unify when written out identically, so each fact is derived once here, where
// the closure can be spelled exactly as in the definition of `count_card`.

pub proof fn lemma_count_card_push(s: Seq<Card>, x: Card, y: Card)
    ensures
        count_card(s.push(y), x) == count_card(s, x) + (if y == x {
            1nat
        } else {
            0nat
        }),
{
    lemma_count_if_push(s, |c: Card| c.shape == x.shape && c.num == x.num, y);
}

pub proof fn lemma_count_card_split(s: Seq<Card>, k: int, x: Card)
    requires
        0 <= k <= s.len(),
    ensures
        count_card(s, x) == count_card(s.subrange(0, k), x) + count_card(
            s.subrange(k, s.len() as int),
            x,
        ),
{
    lemma_count_if_split(s, k, |c: Card| c.shape == x.shape && c.num == x.num);
}

pub proof fn lemma_count_card_zero(s: Seq<Card>, x: Card)
    ensures
        count_card(s, x) == 0 <==> (forall|i: int| 0 <= i < s.len() ==> s[i] != x),
{
    lemma_count_if_zero(s, |c: Card| c.shape == x.shape && c.num == x.num);
}

pub proof fn lemma_count_card_pos(s: Seq<Card>, x: Card) -> (i: int)
    requires
        count_card(s, x) > 0,
    ensures
        0 <= i < s.len() && s[i] == x,
{
    lemma_count_if_pos(s, |c: Card| c.shape == x.shape && c.num == x.num)
}

pub proof fn lemma_count_card_singleton(y: Card, x: Card)
    ensures
        count_card(seq![y], x) == (if y == x {
            1nat
        } else {
            0nat
        }),
{
    lemma_count_card_push(Seq::<Card>::empty(), x, y);
    assert(Seq::<Card>::empty().push(y) =~= seq![y]);
}

pub proof fn lemma_count_card_remove(s: Seq<Card>, i: int, x: Card)
    requires
        0 <= i < s.len(),
    ensures
        count_card(s, x) == count_card(s.remove(i), x) + (if s[i] == x {
            1nat
        } else {
            0nat
        }),
{
    lemma_count_if_remove(s, i, |c: Card| c.shape == x.shape && c.num == x.num);
}


pub proof fn lemma_count_num_split(s: Seq<Card>, k: int, n: int)
    requires
        0 <= k <= s.len(),
    ensures
        count_num(s, n) == count_num(s.subrange(0, k), n) + count_num(
            s.subrange(k, s.len() as int),
            n,
        ),
{
    lemma_count_if_split(s, k, |c: Card| c.num == n);
}

pub proof fn lemma_count_num_zero(s: Seq<Card>, n: int)
    ensures
        count_num(s, n) == 0 <==> (forall|i: int| 0 <= i < s.len() ==> s[i].num != n),
{
    lemma_count_if_zero(s, |c: Card| c.num == n);
}




pub proof fn lemma_count_num_push(s: Seq<Card>, x: Card, n: int)
    ensures
        count_num(s.push(x), n) == count_num(s, n) + (if x.num == n {
            1nat
        } else {
            0nat
        }),
{
    lemma_count_if_push(s, |c: Card| c.num == n, x);
}

pub proof fn lemma_count_num_singleton(y: Card, n: int)
    ensures
        count_num(seq![y], n) == (if y.num == n {
            1nat
        } else {
            0nat
        }),
{
    lemma_count_num_push(Seq::<Card>::empty(), y, n);
    assert(Seq::<Card>::empty().push(y) =~= seq![y]);
}

/// Two different suits cannot together cover more cards than the pool holds.
pub proof fn lemma_count_shape_pair_le(s: Seq<Card>, sh: int, sh2: int)
    requires
        sh != sh2,
    ensures
        count_shape(s, sh) + count_shape(s, sh2) <= s.len(),
    decreases s.len(),
{
    if s.len() > 0 {
        lemma_count_shape_pair_le(s.drop_last(), sh, sh2);
    }
}

pub proof fn lemma_count_shape_le_len(s: Seq<Card>, sh: int)
    ensures
        count_shape(s, sh) <= s.len(),
{
    lemma_count_if_le_len(s, |c: Card| c.shape == sh);
}




pub proof fn lemma_count_num_gt_zero(s: Seq<Card>, v: int)
    ensures
        count_num_gt(s, v) == 0 <==> (forall|i: int| 0 <= i < s.len() ==> !(s[i].num > v)),
{
    lemma_count_if_zero(s, |c: Card| c.num > v);
}


pub proof fn lemma_count_num_gt_le_len(s: Seq<Card>, v: int)
    ensures
        count_num_gt(s, v) <= s.len(),
{
    lemma_count_if_le_len(s, |c: Card| c.num > v);
}

pub proof fn lemma_count_num_gt_remove(s: Seq<Card>, i: int, v: int)
    requires
        0 <= i < s.len(),
    ensures
        count_num_gt(s, v) == count_num_gt(s.remove(i), v) + (if s[i].num > v {
            1nat
        } else {
            0nat
        }),
{
    lemma_count_if_remove(s, i, |c: Card| c.num > v);
}

pub proof fn lemma_count_num_gt_push(s: Seq<Card>, x: Card, v: int)
    ensures
        count_num_gt(s.push(x), v) == count_num_gt(s, v) + (if x.num > v {
            1nat
        } else {
            0nat
        }),
{
    lemma_count_if_push(s, |c: Card| c.num > v, x);
}


pub proof fn lemma_count_num_ge_zero(s: Seq<Card>, v: int)
    ensures
        count_num_ge(s, v) == 0 <==> (forall|i: int| 0 <= i < s.len() ==> !(s[i].num >= v)),
{
    lemma_count_if_zero(s, |c: Card| c.num >= v);
}

pub proof fn lemma_count_num_ge_full(s: Seq<Card>, v: int)
    ensures
        count_num_ge(s, v) == s.len() <==> (forall|i: int| 0 <= i < s.len() ==> s[i].num >= v),
{
    lemma_count_if_full(s, |c: Card| c.num >= v);
}

pub proof fn lemma_count_num_ge_remove(s: Seq<Card>, i: int, v: int)
    requires
        0 <= i < s.len(),
    ensures
        count_num_ge(s, v) == count_num_ge(s.remove(i), v) + (if s[i].num >= v {
            1nat
        } else {
            0nat
        }),
{
    lemma_count_if_remove(s, i, |c: Card| c.num >= v);
}

pub proof fn lemma_count_num_ge_push(s: Seq<Card>, x: Card, v: int)
    ensures
        count_num_ge(s.push(x), v) == count_num_ge(s, v) + (if x.num >= v {
            1nat
        } else {
            0nat
        }),
{
    lemma_count_if_push(s, |c: Card| c.num >= v, x);
}

pub proof fn lemma_count_card_swap(s: Seq<Card>, i: int, j: int, x: Card)
    requires
        0 <= i < s.len(),
        0 <= j < s.len(),
    ensures
        count_card(s.update(i, s[j]).update(j, s[i]), x) == count_card(s, x),
{
    lemma_count_if_swap(s, i, j, |c: Card| c.shape == x.shape && c.num == x.num);
}

// ---------------------------------------------------------------------------
// Exec counting helpers.
// ---------------------------------------------------------------------------

/// Counts the cards of rank `n` in `cards`.
pub fn num_count(cards: &Vec<Card>, n: usize) -> (r: usize)
    ensures
        r == count_num(cards@, n as int),
{
    let mut r: usize = 0;
    let mut i: usize = 0;
    while i < cards.len()
        invariant
            i <= cards@.len(),
            r == count_num(cards@.take(i as int), n as int),
            r <= i,
        decreases cards@.len() - i,
    {
        proof {
            lemma_count_if_take_step(cards@, i as int, |c: Card| c.num == n as int);
        }
        if cards[i].num == n {
            r = r + 1;
        }
        i = i + 1;
    }
    proof {
        assert(cards@.take(cards@.len() as int) =~= cards@);
    }
    r
}

/// Counts the cards of suit `sh` in `cards`.
pub fn shape_count(cards: &Vec<Card>, sh: usize) -> (r: usize)
    ensures
        r == count_shape(cards@, sh as int),
{
    let mut r: usize = 0;
    let mut i: usize = 0;
    while i < cards.len()
        invariant
            i <= cards@.len(),
            r == count_shape(cards@.take(i as int), sh as int),
            r <= i,
        decreases cards@.len() - i,
    {
        proof {
            lemma_count_if_take_step(cards@, i as int, |c: Card| c.shape == sh as int);
        }
        if cards[i].shape == sh {
            r = r + 1;
        }
        i = i + 1;
    }
    proof {
        assert(cards@.take(cards@.len() as int) =~= cards@);
    }
    r
}

impl Card {
    /// One-letter label of the suit.
    pub fn shape_to_string(&self) -> (r: String) {
        match self.shape {
            0 => String::from_str("S"),
            1 => String::from_str("D"),
            2 => String::from_str("H"),
            3 => String::from_str("C"),
            _ => String::from_str("Not Existant Shape"),
        }
    }

    /// One-letter label of the rank.
    pub fn num_to_string(&self) -> (r: String) {
        match self.num {
            0 => String::from_str("2"),
            1 => String::from_str("3"),
            2 => String::from_str("4"),
            3 => String::from_str("5"),
            4 => String::from_str("6"),
            5 => String::from_str("7"),
            6 => String::from_str("8"),
            7 => String::from_str("9"),
            8 => String::from_str("T"),
            9 => String::from_str("J"),
            10 => String::from_str("Q"),
            11 => String::from_str("K"),
            12 => String::from_str("A"),
            _ => String::from_str("Not Exist Number"),
        }
    }

    /// Suit label followed by rank label.
    pub fn to_string(&self) -> (r: String) {
        self.shape_to_string().concat(self.num_to_string().as_str())
    }
}

// ---------------------------------------------------------------------------
// Deck: the 52 distinct cards in some order, plus a dealing cursor. Cards at
// indices below the cursor have been dealt and are never moved again.
// ---------------------------------------------------------------------------

/// The card a freshly built deck holds at position `j`.
pub open spec fn fresh_deck_card(j: int) -> Card {
    Card { shape: (j / 13) as usize, num: (j % 13) as usize }
}

pub struct Deck {
    pub cards: Vec<Card>,
    pub cursor: usize,
}

impl Deck {
    /// The deck always holds each of the 52 real cards exactly once, and the
    /// cursor never runs past the end.
    pub open spec fn wf(self) -> bool {
        &&& self.cards@.len() == 52
        &&& self.cursor <= 52
        &&& all_valid(self.cards@)
        &&& forall|c: Card| card_valid(c) ==> #[trigger] count_card(self.cards@, c) == 1
    }

    /// Builds the deck in suit-major order: position `13 * shape + num` holds
    /// the card `(shape, num)`.
    pub fn new() -> (d: Deck)
        ensures
            d.wf(),
            d.cursor == 0,
            forall|j: int| 0 <= j < 52 ==> d.cards@[j] == fresh_deck_card(j),
    {
        let mut cards: Vec<Card> = Vec::new();
        let mut shape: usize = 0;
        while shape < 4
            invariant
                shape <= 4,
                cards@.len() == 13 * shape,
                all_valid(cards@),
                forall|j: int| 0 <= j < cards@.len() ==> cards@[j] == fresh_deck_card(j),
                forall|c: Card|
                    card_valid(c) ==> #[trigger] count_card(cards@, c) == (if 13 * c.shape + c.num
                        < cards@.len() {
                        1nat
                    } else {
                        0nat
                    }),
            decreases 4 - shape,
        {
            let mut num: usize = 0;
            while num < 13
                invariant
                    shape < 4,
                    num <= 13,
                    cards@.len() == 13 * shape + num,
                    all_valid(cards@),
                    forall|j: int| 0 <= j < cards@.len() ==> cards@[j] == fresh_deck_card(j),
                    forall|c: Card|
                        card_valid(c) ==> #[trigger] count_card(cards@, c) == (if 13 * c.shape
                            + c.num < cards@.len() {
                            1nat
                        } else {
                            0nat
                        }),
                decreases 13 - num,
            {
                let x = Card { shape, num };
                proof {
                    assert((13 * (shape as int) + num as int) / 13 == shape as int && (13 * (
                    shape as int) + num as int) % 13 == num as int) by (nonlinear_arith)
                        requires
                            0 <= shape < 4,
                            0 <= num < 13,
                    ;
                    assert(fresh_deck_card(13 * shape + num as int) == x);
                    assert forall|c: Card| card_valid(c) implies #[trigger] count_card(
                        cards@.push(x),
                        c,
                    ) == (if 13 * c.shape + c.num < cards@.len() + 1 {
                        1nat
                    } else {
                        0nat
                    }) by {
                        lemma_count_card_push(cards@, c, x);
                        assert((c == x) <==> (13 * c.shape + c.num == 13 * shape + num))
                            by (nonlinear_arith)
                            requires
                                c.shape < 4,
                                c.num < 13,
                                shape < 4,
                                num < 13,
                                x == (Card { shape, num }),
                        ;
                    }
                }
                cards.push(x);
                num = num + 1;
            }
            shape = shape + 1;
        }
        Deck { cards, cursor: 0 }
    }

    /// Shuffles a fresh deck (nothing dealt yet): afterwards the deck is still
    /// a permutation of all 52 cards.
    pub fn shuffle(&mut self)
        requires
            old(self).wf(),
            old(self).cursor == 0,
        ensures
            final(self).wf(),
            final(self).cursor == 0,
            forall|c: Card|
                count_card(final(self).cards@, c) == count_card(old(self).cards@, c),
    {
        let ghost pre = self.cards@;
        shuffle_suffix(&mut self.cards, 0);
        proof {
            assert(self.cards@.subrange(0, self.cards@.len() as int) =~= self.cards@);
            assert(pre.subrange(0, pre.len() as int) =~= pre);
            assert forall|c: Card| count_card(self.cards@, c) == count_card(pre, c) by {
                assert(count_card(self.cards@.subrange(0, self.cards@.len() as int), c)
                    == count_card(pre.subrange(0, pre.len() as int), c));
            }
            lemma_counts_carry_validity(pre, self.cards@);
        }
    }

    /// Shuffles only the undealt suffix; dealt cards stay where they are.
    pub fn partial_shuffle(&mut self)
        requires
            old(self).wf(),
        ensures
            final(self).wf(),
            final(self).cursor == old(self).cursor,
            forall|i: int| 0 <= i < old(self).cursor ==> final(self).cards@[i] == old(self).cards@[i],
            forall|c: Card|
                count_card(final(self).cards@, c) == count_card(old(self).cards@, c),
    {
        let ghost pre = self.cards@;
        let cur = self.cursor;
        shuffle_suffix(&mut self.cards, cur);
        proof {
            assert forall|c: Card| count_card(self.cards@, c) == count_card(pre, c) by {
                lemma_count_card_split(self.cards@, cur as int, c);
                lemma_count_card_split(pre, cur as int, c);
                assert(self.cards@.subrange(0, cur as int) =~= pre.subrange(0, cur as int));
                assert(count_card(
                    self.cards@.subrange(cur as int, self.cards@.len() as int),
                    c,
                ) == count_card(pre.subrange(cur as int, pre.len() as int), c));
            }
            lemma_counts_carry_validity(pre, self.cards@);
            assert forall|c: Card| card_valid(c) implies count_card(self.cards@, c) == 1 by {
                assert(count_card(pre, c) == count_card(old(self).cards@, c));
            }
        }
    }

    /// Deals the single card under the cursor and advances the cursor.
    pub fn deal_card(&mut self) -> (c: Card)
        requires
            old(self).wf(),
            old(self).cursor < 52,
        ensures
            final(self).wf(),
            final(self).cards@ == old(self).cards@,
            final(self).cursor == old(self).cursor + 1,
            c == old(self).cards@[old(self).cursor as int],
            card_valid(c),
    {
        let c = self.cards[self.cursor];
        self.cursor = self.cursor + 1;
        c
    }

    /// Deals the next `num` cards in deck order and advances the cursor past
    /// them.
    pub fn deal_cards(&mut self, num: usize) -> (dealt: Vec<Card>)
        requires
            old(self).wf(),
            old(self).cursor + num <= 52,
        ensures
            final(self).wf(),
            final(self).cards@ == old(self).cards@,
            final(self).cursor == old(self).cursor + num,
            dealt@ == old(self).cards@.subrange(
                old(self).cursor as int,
                old(self).cursor + num,
            ),
            all_valid(dealt@),
    {
        let mut dealt: Vec<Card> = Vec::new();
        let mut i: usize = 0;
        while i < num
            invariant
                *self == (Deck { cards: old(self).cards, cursor: old(self).cursor }),
                old(self).wf(),
                i <= num,
                old(self).cursor + num <= 52,
                dealt@ == old(self).cards@.subrange(
                    old(self).cursor as int,
                    old(self).cursor + i,
                ),
            decreases num - i,
        {
            let c = self.cards[self.cursor + i];
            dealt.push(c);
            proof {
                assert(dealt@ =~= old(self).cards@.subrange(
                    old(self).cursor as int,
                    old(self).cursor + i + 1,
                ));
            }
            i = i + 1;
        }
        self.cursor = self.cursor + num;
        dealt
    }

    /// Pins the two given hole cards to the front of the deck and marks them
    /// dealt, so later shuffles and deals never disturb them. Fails (and
    /// changes nothing) when the front slots are already occupied.
    pub fn set_front_cards(&mut self, front_cards: Vec<Card>) -> (r: Result<(), &'static str>)
        requires
            old(self).wf(),
            front_cards@.len() == 2,
            card_valid(front_cards@[0]),
            card_valid(front_cards@[1]),
            front_cards@[0] != front_cards@[1],
        ensures
            final(self).wf(),
            r is Err <==> old(self).cursor >= 2,
            r is Err ==> *final(self) == *old(self),
            r is Ok ==> final(self).cards@[0] == front_cards@[0] && final(self).cards@[1]
                == front_cards@[1] && final(self).cursor == 2 && forall|c: Card|
                count_card(final(self).cards@, c) == count_card(old(self).cards@, c),
    {
        if self.cursor >= 2 {
            return Err("Front Cards' Slot Already occupied.");
        }
        let fc0 = front_cards[0];
        let fc1 = front_cards[1];
        proof {
            lemma_count_witness(self.cards@, fc0, 0);
        }
        let i0 = find_card_from(&self.cards, fc0, 0);
        swap_cards(&mut self.cards, 0, i0);
        proof {
            assert forall|c: Card|
                count_card(self.cards@, c) == count_card(old(self).cards@, c) by {
                lemma_count_card_swap(old(self).cards@, 0, i0 as int, c);
            }
            lemma_counts_carry_validity(old(self).cards@, self.cards@);
            lemma_count_witness(self.cards@, fc1, 1);
        }
        let ghost mid = self.cards@;
        let i1 = find_card_from(&self.cards, fc1, 1);
        swap_cards(&mut self.cards, 1, i1);
        proof {
            assert forall|c: Card| count_card(self.cards@, c) == count_card(mid, c) by {
                lemma_count_card_swap(mid, 1, i1 as int, c);
            }
            lemma_counts_carry_validity(mid, self.cards@);
            assert forall|c: Card| card_valid(c) implies count_card(self.cards@, c) == 1 by {
                assert(count_card(self.cards@, c) == count_card(mid, c));
                assert(count_card(mid, c) == count_card(old(self).cards@, c));
            }
        }
        self.cursor = 2;
        Ok(())
    }
}

/// From equal per-card counts and validity of the first sequence, the second
/// sequence is valid too: any card it holds appears in it, hence in the first.
pub proof fn lemma_counts_carry_validity(a: Seq<Card>, b: Seq<Card>)
    requires
        all_valid(a),
        forall|c: Card| #[trigger] count_card(b, c) == count_card(a, c),
    ensures
        all_valid(b),
{
    assert forall|i: int| 0 <= i < b.len() implies card_valid(#[trigger] b[i]) by {
        lemma_count_card_zero(b, b[i]);
        assert(count_card(b, b[i]) > 0);
        let j = lemma_count_card_pos(a, b[i]);
    }
}

/// Dealing from a well-formed deck never yields the same card twice: all 52
/// positions hold pairwise different cards, and since each deal hands out the
/// card under the cursor and moves the cursor forward, 52 single-card deals
/// hand out all 52 cards, one each.
pub proof fn lemma_deck_deals_distinct(d: Deck)
    requires
        d.wf(),
    ensures
        forall|i: int, j: int|
            0 <= i < j < d.cards@.len() ==> d.cards@[i] != d.cards@[j],
{
    let s = d.cards@;
    assert forall|i: int, j: int| 0 <= i < j < s.len() implies s[i] != s[j] by {
        if s[i] == s[j] {
            let c = s[i];
            lemma_count_card_split(s, j, c);
            lemma_count_card_zero(s.subrange(0, j), c);
            lemma_count_card_zero(s.subrange(j, s.len() as int), c);
            assert(s.subrange(0, j)[i] == c);
            assert(s.subrange(j, s.len() as int)[0] == c);
            assert(count_card(s, c) >= 2);
        }
    }
}

/// A valid card occurs somewhere at or past `start` in a well-formed deck's
/// cards, provided the positions before `start` hold other cards.
proof fn lemma_count_witness(s: Seq<Card>, target: Card, start: int)
    requires
        count_card(s, target) == 1,
        0 <= start <= s.len(),
        forall|i: int| 0 <= i < start ==> s[i] != target,
    ensures
        exists|j: int| start <= j < s.len() && s[j] == target,
{
    lemma_count_card_split(s, start, target);
    lemma_count_card_zero(s.subrange(0, start), target);
    let j = lemma_count_card_pos(s.subrange(start, s.len() as int), target);
    assert(s[start + j] == target);
}

/// Finds a position of `target` at or past `start`.
fn find_card_from(cards: &Vec<Card>, target: Card, start: usize) -> (i: usize)
    requires
        start <= cards@.len(),
        exists|j: int| start <= j < cards@.len() && cards@[j] == target,
    ensures
        start <= i < cards@.len(),
        cards@[i as int] == target,
{
    let mut i = start;
    while i < cards.len()
        invariant
            start <= i <= cards@.len(),
            exists|j: int| start <= j < cards@.len() && cards@[j] == target,
            forall|j: int| start <= j < i ==> cards@[j] != target,
        decreases cards@.len() - i,
    {
        if cards[i] == target {
            return i;
        }
        i = i + 1;
    }
    proof {
        assert(false);
    }
    start
}

/// Exchanges the cards at positions `i` and `j`.
fn swap_cards(cards: &mut Vec<Card>, i: usize, j: usize)
    requires
        i < old(cards)@.len(),
        j < old(cards)@.len(),
    ensures
        final(cards)@ == old(cards)@.update(i as int, old(cards)@[j as int]).update(
            j as int,
            old(cards)@[i as int],
        ),
{
    let a = cards[i];
    let b = cards[j];
    cards[i] = b;
    cards[j] = a;
}

/// Relies on rand 0.8's `SliceRandom::shuffle` (a Fisher-Yates pass over the
/// slice): it reorders the given slice in place and touches nothing else. The
/// resulting order depends on the thread-local generator, so nothing beyond
/// permutation facts holds of any one call.
#[verifier::external_body]
fn shuffle_suffix(cards: &mut Vec<Card>, start: usize)
    requires
        start <= old(cards)@.len(),
    ensures
        final(cards)@.len() == old(cards)@.len(),
        forall|i: int| 0 <= i < start ==> final(cards)@[i] == old(cards)@[i],
        forall|c: Card|
            count_card(final(cards)@.subrange(start as int, final(cards)@.len() as int), c)
                == count_card(old(cards)@.subrange(start as int, old(cards)@.len() as int), c),
{
    let len = cards.len();
    cards[start..len].shuffle(&mut rand::thread_rng());
}

/// A fresh vector holding the same cards.
pub fn clone_cards(cards: &Vec<Card>) -> (r: Vec<Card>)
    ensures
        r@ == cards@,
{
    let mut r: Vec<Card> = Vec::new();
    let mut i: usize = 0;
    while i < cards.len()
        invariant
            i <= cards@.len(),
            r@ == cards@.take(i as int),
        decreases cards@.len() - i,
    {
        r.push(cards[i]);
        proof {
            assert(r@ =~= cards@.take(i + 1));
        }
        i = i + 1;
    }
    proof {
        assert(cards@.take(cards@.len() as int) =~= cards@);
    }
    r
}

impl Deck {
    /// A copy of the deck: same card order, same cursor.
    pub fn clone(&self) -> (d: Deck)
        ensures
            d.cards@ == self.cards@,
            d.cursor == self.cursor,
    {
        Deck { cards: clone_cards(&self.cards), cursor: self.cursor }
    }
}

// ---------------------------------------------------------------------------
// Hand: the bounded, append-only card pool one participant holds.
// ---------------------------------------------------------------------------

pub struct Hand {
    pub cards: Vec<Card>,
}

impl Hand {
    /// A hand never exceeds 7 cards (2 hole cards plus up to 5 community
    /// cards) and holds real cards only.
    pub open spec fn wf(self) -> bool {
        self.cards@.len() <= 7 && all_valid(self.cards@)
    }

    pub fn new() -> (h: Hand)
        ensures
            h.wf(),
            h.cards@.len() == 0,
    {
        Hand { cards: Vec::<Card>::new() }
    }

    pub fn clone(&self) -> (h: Hand)
        ensures
            h.cards@ == self.cards@,
    {
        Hand { cards: clone_cards(&self.cards) }
    }

    /// Appends one card; a full hand silently refuses it.
    pub fn add_card(&mut self, card: Card)
        requires
            old(self).wf(),
            card_valid(card),
        ensures
            final(self).wf(),
            old(self).cards@.len() < 7 ==> final(self).cards@ == old(self).cards@.push(card),
            old(self).cards@.len() >= 7 ==> final(self).cards@ == old(self).cards@,
    {
        if self.cards.len() < 7 {
            self.cards.push(card);
        }
    }

    /// Appends the given cards in order until the hand is full.
    pub fn add_cards(&mut self, cards: &Vec<Card>)
        requires
            old(self).wf(),
            all_valid(cards@),
        ensures
            final(self).wf(),
            final(self).cards@ == old(self).cards@ + cards@.take(
                vstd::math::min(cards@.len() as int, 7 - old(self).cards@.len()),
            ),
    {
        let ghost fit = vstd::math::min(cards@.len() as int, 7 - old(self).cards@.len());
        let mut i: usize = 0;
        while i < cards.len()
            invariant
                old(self).wf(),
                all_valid(cards@),
                i <= cards@.len(),
                fit == vstd::math::min(cards@.len() as int, 7 - old(self).cards@.len()),
                self.cards@ == old(self).cards@ + cards@.take(
                    vstd::math::min(i as int, fit),
                ),
                self.cards@.len() <= 7,
                all_valid(self.cards@),
            decreases cards@.len() - i,
        {
            let c = cards[i];
            if self.cards.len() < 7 {
                self.cards.push(c);
                proof {
                    assert(self.cards@ =~= old(self).cards@ + cards@.take(
                        vstd::math::min(i + 1, fit),
                    ));
                }
            } else {
                proof {
                    assert(self.cards@ =~= old(self).cards@ + cards@.take(
                        vstd::math::min(i + 1, fit),
                    ));
                }
            }
            i = i + 1;
        }
        proof {
            assert(self.cards@ =~= old(self).cards@ + cards@.take(fit));
        }
    }

    /// How many cards the hand holds.
    pub fn len(&self) -> (n: usize)
        ensures
            n == self.cards@.len(),
    {
        self.cards.len()
    }
}

} // verus!
