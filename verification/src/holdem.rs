use crate::grade::{graded, grade_eq, grade_lt, lemma_grade_order_trichotomy, Grade};
use crate::table::{all_valid, card_valid, clone_cards, count_card, Card, Deck, Hand};
use vstd::prelude::*;

verus! {

/// The betting stage: how many community cards have been revealed. The stage
/// only ever advances, one step at a time.
#[derive(Copy, Clone, Debug)]
pub enum Stage {
    PreFlop,
    Flop,
    Turn,
    River,
}

/// How many community cards each stage has revealed.
pub open spec fn stage_community(st: Stage) -> int {
    match st {
        Stage::PreFlop => 0,
        Stage::Flop => 3,
        Stage::Turn => 4,
        Stage::River => 5,
    }
}

/// The outcome of one trial, seen from the hero's seat.
#[derive(Copy, Clone, Debug, PartialEq, Eq, Structural)]
pub enum Showdown {
    Win,
    Lose,
    Draw,
}

/// One table: a deck, the betting stage, the shared community cards and one
/// hand per player. Player 0 is the hero whose equity is estimated.
pub struct HoldemGame {
    pub deck: Deck,
    pub stage: Stage,
    pub community_cards: Vec<Card>,
    pub players_cnt: usize,
    pub players: Vec<Hand>,
}

/// One trial's verdict explained: `hero` grades player 0's final pool, `rest`
/// grades each opponent's final pool in seat order, and `outcome` is the
/// verdict `judge` assigns to those grades.
pub open spec fn trial_verdict(g: HoldemGame, hero: Grade, rest: Seq<Grade>, outcome: Showdown) -> bool {
    &&& g.players@.len() >= 1
    &&& graded(g.players@[0].cards@, hero.category(), hero.sel())
    &&& rest.len() == g.players@.len() - 1
    &&& (forall|i: int|
        1 <= i < g.players@.len() ==> graded(
            (#[trigger] g.players@[i]).cards@,
            rest[i - 1].category(),
            rest[i - 1].sel(),
        ))
    &&& (outcome is Lose <==> exists|i: int|
        0 <= i < rest.len() && grade_lt(hero, #[trigger] rest[i]))
    &&& (outcome is Draw <==> (forall|i: int|
        0 <= i < rest.len() ==> !grade_lt(hero, #[trigger] rest[i])) && (exists|i: int|
        0 <= i < rest.len() && grade_eq(hero, #[trigger] rest[i])))
    &&& (outcome is Win <==> forall|i: int|
        0 <= i < rest.len() ==> grade_lt(#[trigger] rest[i], hero))
}

/// How many hole cards dealing still owes: every player is topped up to two.
pub open spec fn cards_to_deal(players: Seq<Hand>) -> int
    decreases players.len(),
{
    if players.len() == 0 {
        0
    } else {
        cards_to_deal(players.drop_last()) + (2 - players.last().cards@.len())
    }
}

proof fn lemma_cards_to_deal_bounds(players: Seq<Hand>)
    requires
        forall|i: int| 0 <= i < players.len() ==> (#[trigger] players[i]).cards@.len() <= 2,
    ensures
        0 <= cards_to_deal(players) <= 2 * players.len(),
    decreases players.len(),
{
    if players.len() > 0 {
        lemma_cards_to_deal_bounds(players.drop_last());
        assert(players.last() == players[players.len() - 1]);
        assert(forall|i: int|
            0 <= i < players.len() - 1 ==> players.drop_last()[i] == players[i]);
    }
}

proof fn lemma_cards_to_deal_take_step(players: Seq<Hand>, i: int)
    requires
        0 <= i < players.len(),
    ensures
        cards_to_deal(players.take(i + 1)) == cards_to_deal(players.take(i)) + (2 - players[
            i
        ].cards@.len()),
{
    assert(players.take(i + 1).drop_last() =~= players.take(i));
    assert(players.take(i + 1).last() == players[i]);
}

/// The showdown verdict, given the hero's grade and every opponent's grade: a
/// loss as soon as any opponent ranks strictly higher; otherwise a draw when
/// any opponent ties; otherwise a win over every opponent.
pub fn judge(my_grade: &Grade, other_grades: &Vec<Grade>) -> (outcome: Showdown)
    ensures
        outcome is Lose <==> exists|i: int|
            0 <= i < other_grades@.len() && grade_lt(*my_grade, #[trigger] other_grades@[i]),
        outcome is Draw <==> (forall|i: int|
            0 <= i < other_grades@.len() ==> !grade_lt(*my_grade, #[trigger] other_grades@[i]))
            && (exists|i: int|
            0 <= i < other_grades@.len() && grade_eq(*my_grade, #[trigger] other_grades@[i])),
        outcome is Win <==> forall|i: int|
            0 <= i < other_grades@.len() ==> grade_lt(#[trigger] other_grades@[i], *my_grade),
{
    let mut lose = false;
    let mut draw = false;
    let mut i: usize = 0;
    while i < other_grades.len()
        invariant
            i <= other_grades@.len(),
            lose <==> exists|j: int|
                0 <= j < i && grade_lt(*my_grade, #[trigger] other_grades@[j]),
            draw <==> exists|j: int|
                0 <= j < i && grade_eq(*my_grade, #[trigger] other_grades@[j]),
        decreases other_grades@.len() - i,
    {
        let og = other_grades[i];
        if *my_grade == og {
            draw = true;
        } else if *my_grade > og {
        } else {
            proof {
                lemma_grade_order_trichotomy(*my_grade, og);
            }
            lose = true;
        }
        i = i + 1;
    }
    if lose {
        proof {
            let j = choose|j: int|
                0 <= j < other_grades@.len() && grade_lt(*my_grade, other_grades@[j]);
            lemma_grade_order_trichotomy(*my_grade, other_grades@[j]);
        }
        Showdown::Lose
    } else if draw {
        proof {
            let j = choose|j: int|
                0 <= j < other_grades@.len() && grade_eq(*my_grade, other_grades@[j]);
            lemma_grade_order_trichotomy(*my_grade, other_grades@[j]);
        }
        Showdown::Draw
    } else {
        proof {
            assert forall|j: int|
                0 <= j < other_grades@.len() implies grade_lt(
                #[trigger] other_grades@[j],
                *my_grade,
            ) by {
                lemma_grade_order_trichotomy(*my_grade, other_grades@[j]);
            }
        }
        Showdown::Win
    }
}

impl HoldemGame {
    /// Structural soundness: a legal deck, 2 to 10 players each holding a
    /// legal hand, and at most five valid community cards.
    pub open spec fn wf(self) -> bool {
        &&& self.deck.wf()
        &&& 2 <= self.players_cnt <= 10
        &&& self.players@.len() == self.players_cnt
        &&& self.community_cards@.len() <= 5
        &&& all_valid(self.community_cards@)
        &&& forall|i: int| 0 <= i < self.players@.len() ==> (#[trigger] self.players@[i]).wf()
    }

    /// A fresh pre-flop table: an unshuffled deck, empty hands, no community
    /// cards.
    pub fn new(players_cnt: usize) -> (g: HoldemGame)
        requires
            2 <= players_cnt <= 10,
        ensures
            g.wf(),
            g.stage is PreFlop,
            g.players_cnt == players_cnt,
            g.deck.cursor == 0,
            g.community_cards@.len() == 0,
            forall|i: int|
                0 <= i < g.players@.len() ==> (#[trigger] g.players@[i]).cards@.len() == 0,
    {
        let deck = Deck::new();
        let mut players: Vec<Hand> = Vec::new();
        let mut i: usize = 0;
        while i < players_cnt
            invariant
                i <= players_cnt,
                players@.len() == i,
                forall|j: int|
                    0 <= j < i ==> (#[trigger] players@[j]).cards@.len() == 0 && players@[j].wf(),
            decreases players_cnt - i,
        {
            players.push(Hand::new());
            i = i + 1;
        }
        HoldemGame {
            deck,
            stage: Stage::PreFlop,
            community_cards: Vec::<Card>::new(),
            players_cnt,
            players,
        }
    }

    /// Deals one card and reveals it: it joins the community cards and every
    /// player's hand. When five community cards are already out, the card is
    /// discarded and an error reported.
    pub fn add_community_card(&mut self) -> (r: Result<(), &'static str>)
        requires
            old(self).wf(),
            old(self).deck.cursor < 52,
            old(self).community_cards@.len() < 5 ==> forall|i: int|
                0 <= i < old(self).players@.len() ==> (#[trigger] old(self).players@[i]).cards@.len() < 7,
        ensures
            final(self).wf(),
            r is Err <==> old(self).community_cards@.len() >= 5,
            final(self).deck.cards@ == old(self).deck.cards@,
            final(self).deck.cursor == old(self).deck.cursor + 1,
            final(self).stage == old(self).stage,
            final(self).players_cnt == old(self).players_cnt,
            final(self).players@.len() == old(self).players@.len(),
            ({
                let dealt = old(self).deck.cards@[old(self).deck.cursor as int];
                r is Ok ==> final(self).community_cards@ == old(self).community_cards@.push(dealt)
                    && (forall|i: int|
                    0 <= i < old(self).players@.len() ==> (#[trigger] final(self).players@[i]).cards@ == old(self).players@[i].cards@.push(dealt))
            }),
            r is Err ==> final(self).community_cards@ == old(self).community_cards@ && final(self).players@ == old(self).players@,
    {
        let dealt_cards = self.deck.deal_cards(1);
        let dealt_card = dealt_cards[0];
        if self.community_cards.len() < 5 {
            let ghost deck_now = self.deck;
            let mut i: usize = 0;
            while i < self.players_cnt
                invariant
                    i <= self.players_cnt,
                    self.deck == deck_now,
                    self.stage == old(self).stage,
                    self.community_cards@ == old(self).community_cards@,
                    self.players_cnt == old(self).players_cnt,
                    self.players@.len() == old(self).players@.len(),
                    self.players_cnt == self.players@.len(),
                    card_valid(dealt_card),
                    forall|j: int|
                        0 <= j < old(self).players@.len() ==> (#[trigger] old(self).players@[j]).cards@.len() < 7 && old(self).players@[j].wf(),
                    forall|j: int|
                        0 <= j < i ==> (#[trigger] self.players@[j]).cards@ == old(self).players@[j].cards@.push(dealt_card),
                    forall|j: int|
                        i <= j < self.players@.len() ==> (#[trigger] self.players@[j]) == old(self).players@[j],
                decreases self.players_cnt - i,
            {
                let mut h = self.players[i].clone();
                h.add_card(dealt_card);
                self.players[i] = h;
                i = i + 1;
            }
            self.community_cards.push(dealt_card);
            Ok(())
        } else {
            Err("Community Cards cannot be over 5 cards.")
        }
    }

    /// Deals hole cards until every player holds exactly two: the players are
    /// served in seat order, and each missing card is the deck card under the
    /// cursor at that moment.
    fn preflop(&mut self)
        requires
            old(self).wf(),
            forall|i: int|
                0 <= i < old(self).players@.len() ==> (#[trigger] old(self).players@[i]).cards@.len() <= 2,
            old(self).deck.cursor + 2 * old(self).players_cnt <= 52,
        ensures
            final(self).wf(),
            final(self).stage == old(self).stage,
            final(self).community_cards@ == old(self).community_cards@,
            final(self).players_cnt == old(self).players_cnt,
            final(self).players@.len() == old(self).players@.len(),
            forall|i: int|
                0 <= i < final(self).players@.len() ==> (#[trigger] final(self).players@[i]).cards@.len() == 2,
            final(self).deck.cards@ == old(self).deck.cards@,
            final(self).deck.cursor == old(self).deck.cursor + cards_to_deal(old(self).players@),
            forall|i: int|
                0 <= i < old(self).players@.len() ==> (#[trigger] final(self).players@[i]).cards@
                    == old(self).players@[i].cards@ + old(self).deck.cards@.subrange(
                    old(self).deck.cursor + cards_to_deal(old(self).players@.take(i)),
                    old(self).deck.cursor + cards_to_deal(old(self).players@.take(i + 1)),
                ),
    {
        let ghost oc = old(self).deck.cursor as int;
        let mut i: usize = 0;
        while i < self.players_cnt
            invariant
                self.wf(),
                i <= self.players_cnt,
                self.stage == old(self).stage,
                self.community_cards@ == old(self).community_cards@,
                self.players_cnt == old(self).players_cnt,
                self.players@.len() == old(self).players@.len(),
                self.deck.cards@ == old(self).deck.cards@,
                oc == old(self).deck.cursor,
                forall|j: int|
                    0 <= j < old(self).players@.len() ==> (#[trigger] old(self).players@[j]).cards@.len() <= 2,
                old(self).deck.cursor + 2 * old(self).players_cnt <= 52,
                old(self).players@.len() == old(self).players_cnt,
                forall|j: int|
                    i <= j < self.players@.len() ==> (#[trigger] self.players@[j]) == old(self).players@[j],
                forall|j: int|
                    0 <= j < i ==> (#[trigger] self.players@[j]).cards@.len() == 2
                        && self.players@[j].cards@ == old(self).players@[j].cards@ + old(self).deck.cards@.subrange(
                        oc + cards_to_deal(old(self).players@.take(j)),
                        oc + cards_to_deal(old(self).players@.take(j + 1)),
                    ),
                self.deck.cursor == oc + cards_to_deal(old(self).players@.take(i as int)),
                0 <= cards_to_deal(old(self).players@.take(i as int)) <= 2 * i,
            decreases self.players_cnt - i,
        {
            proof {
                lemma_cards_to_deal_take_step(old(self).players@, i as int);
                assert(old(self).players@.take(i as int) =~= old(self).players@.take(i + 1).take(
                    i as int,
                ));
                lemma_cards_to_deal_bounds(old(self).players@.take(i + 1));
                assert(forall|j: int|
                    0 <= j < i + 1 ==> (#[trigger] old(self).players@.take(i + 1)[j]).cards@.len()
                        <= 2);
            }
            let ghost start_i = self.deck.cursor as int;
            let ghost players_now = self.players@;
            let mut h = self.players[i].clone();
            proof {
                assert(h.cards@ =~= old(self).players@[i as int].cards@ + old(self).deck.cards@.subrange(
                    start_i,
                    start_i,
                ));
            }
            while h.len() < 2
                invariant
                    self.wf(),
                    h.wf(),
                    i < self.players_cnt,
                    i < old(self).players@.len(),
                    self.stage == old(self).stage,
                    self.community_cards@ == old(self).community_cards@,
                    self.players_cnt == old(self).players_cnt,
                    self.players@ == players_now,
                    self.deck.cards@ == old(self).deck.cards@,
                    h.cards@.len() <= 2,
                    0 <= start_i <= self.deck.cursor,
                    old(self).players@[i as int].cards@.len() <= h.cards@.len(),
                    self.deck.cursor == start_i + h.cards@.len() - old(self).players@[
                        i as int
                    ].cards@.len(),
                    start_i + 2 - old(self).players@[i as int].cards@.len() <= 52,
                    h.cards@ == old(self).players@[i as int].cards@ + old(self).deck.cards@.subrange(
                        start_i,
                        self.deck.cursor as int,
                    ),
                decreases 2 - h.cards@.len(),
            {
                let card = self.deck.deal_card();
                h.add_card(card);
                proof {
                    assert(h.cards@ =~= old(self).players@[i as int].cards@ + old(self).deck.cards@.subrange(
                        start_i,
                        self.deck.cursor as int,
                    ));
                }
            }
            self.players[i] = h;
            i = i + 1;
        }
        proof {
            assert(old(self).players@.take(old(self).players@.len() as int) =~= old(self).players@);
        }
    }

    /// Reveals the three flop cards: each is dealt from the deck under the
    /// cursor and joins the community cards and every hand; the table moves
    /// from pre-flop to flop.
    fn preflop_to_flop(&mut self)
        requires
            old(self).wf(),
            old(self).stage is PreFlop,
            old(self).community_cards@.len() == 0,
            forall|i: int|
                0 <= i < old(self).players@.len() ==> (#[trigger] old(self).players@[i]).cards@.len() == 2,
            old(self).deck.cursor + 3 <= 52,
        ensures
            final(self).wf(),
            final(self).stage is Flop,
            final(self).community_cards@.len() == stage_community(final(self).stage),
            final(self).players_cnt == old(self).players_cnt,
            final(self).players@.len() == old(self).players@.len(),
            forall|i: int|
                0 <= i < final(self).players@.len() ==> (#[trigger] final(self).players@[i]).cards@.len() == 5,
            final(self).deck.cursor == old(self).deck.cursor + 3,
            final(self).deck.cards@ == old(self).deck.cards@,
            final(self).community_cards@ == old(self).community_cards@ + old(self).deck.cards@.subrange(
                old(self).deck.cursor as int,
                old(self).deck.cursor + 3,
            ),
            forall|i: int|
                0 <= i < old(self).players@.len() ==> (#[trigger] final(self).players@[i]).cards@
                    == old(self).players@[i].cards@ + old(self).deck.cards@.subrange(
                    old(self).deck.cursor as int,
                    old(self).deck.cursor + 3,
                ),
    {
        let ghost oc = old(self).deck.cursor as int;
        let ghost d = old(self).deck.cards@;
        let r1 = self.add_community_card();
        match r1 {
            Ok(()) => {},
            Err(_) => {
                proof {
                    assert(false);
                }
            },
        }
        let r2 = self.add_community_card();
        match r2 {
            Ok(()) => {},
            Err(_) => {
                proof {
                    assert(false);
                }
            },
        }
        let r3 = self.add_community_card();
        match r3 {
            Ok(()) => {},
            Err(_) => {
                proof {
                    assert(false);
                }
            },
        }
        self.stage = Stage::Flop;
        proof {
            assert(self.community_cards@ =~= old(self).community_cards@ + d.subrange(oc, oc + 3));
            assert forall|i: int|
                0 <= i < old(self).players@.len() implies (#[trigger] self.players@[i]).cards@
                == old(self).players@[i].cards@ + d.subrange(oc, oc + 3) by {
                assert(self.players@[i].cards@ =~= old(self).players@[i].cards@ + d.subrange(
                    oc,
                    oc + 3,
                ));
            }
        }
    }

    /// Reveals the turn card: it is dealt from the deck under the cursor and
    /// joins the community cards and every hand; the table moves from flop to
    /// turn.
    fn flop_to_turn(&mut self)
        requires
            old(self).wf(),
            old(self).stage is Flop,
            old(self).community_cards@.len() == 3,
            forall|i: int|
                0 <= i < old(self).players@.len() ==> (#[trigger] old(self).players@[i]).cards@.len() == 5,
            old(self).deck.cursor + 1 <= 52,
        ensures
            final(self).wf(),
            final(self).stage is Turn,
            final(self).community_cards@.len() == stage_community(final(self).stage),
            final(self).players_cnt == old(self).players_cnt,
            final(self).players@.len() == old(self).players@.len(),
            forall|i: int|
                0 <= i < final(self).players@.len() ==> (#[trigger] final(self).players@[i]).cards@.len() == 6,
            final(self).deck.cursor == old(self).deck.cursor + 1,
            final(self).deck.cards@ == old(self).deck.cards@,
            final(self).community_cards@ == old(self).community_cards@ + old(self).deck.cards@.subrange(
                old(self).deck.cursor as int,
                old(self).deck.cursor + 1,
            ),
            forall|i: int|
                0 <= i < old(self).players@.len() ==> (#[trigger] final(self).players@[i]).cards@
                    == old(self).players@[i].cards@ + old(self).deck.cards@.subrange(
                    old(self).deck.cursor as int,
                    old(self).deck.cursor + 1,
                ),
    {
        let ghost oc = old(self).deck.cursor as int;
        let ghost d = old(self).deck.cards@;
        let r = self.add_community_card();
        match r {
            Ok(()) => {},
            Err(_) => {
                proof {
                    assert(false);
                }
            },
        }
        self.stage = Stage::Turn;
        proof {
            assert(self.community_cards@ =~= old(self).community_cards@ + d.subrange(oc, oc + 1));
            assert forall|i: int|
                0 <= i < old(self).players@.len() implies (#[trigger] self.players@[i]).cards@
                == old(self).players@[i].cards@ + d.subrange(oc, oc + 1) by {
                assert(self.players@[i].cards@ =~= old(self).players@[i].cards@ + d.subrange(
                    oc,
                    oc + 1,
                ));
            }
        }
    }

    /// Reveals the river card: it is dealt from the deck under the cursor and
    /// joins the community cards and every hand; the table moves from turn to
    /// river.
    fn turn_to_river(&mut self)
        requires
            old(self).wf(),
            old(self).stage is Turn,
            old(self).community_cards@.len() == 4,
            forall|i: int|
                0 <= i < old(self).players@.len() ==> (#[trigger] old(self).players@[i]).cards@.len() == 6,
            old(self).deck.cursor + 1 <= 52,
        ensures
            final(self).wf(),
            final(self).stage is River,
            final(self).community_cards@.len() == stage_community(final(self).stage),
            final(self).players_cnt == old(self).players_cnt,
            final(self).players@.len() == old(self).players@.len(),
            forall|i: int|
                0 <= i < final(self).players@.len() ==> (#[trigger] final(self).players@[i]).cards@.len() == 7,
            final(self).deck.cursor == old(self).deck.cursor + 1,
            final(self).deck.cards@ == old(self).deck.cards@,
            final(self).community_cards@ == old(self).community_cards@ + old(self).deck.cards@.subrange(
                old(self).deck.cursor as int,
                old(self).deck.cursor + 1,
            ),
            forall|i: int|
                0 <= i < old(self).players@.len() ==> (#[trigger] final(self).players@[i]).cards@
                    == old(self).players@[i].cards@ + old(self).deck.cards@.subrange(
                    old(self).deck.cursor as int,
                    old(self).deck.cursor + 1,
                ),
    {
        let ghost oc = old(self).deck.cursor as int;
        let ghost d = old(self).deck.cards@;
        let r = self.add_community_card();
        match r {
            Ok(()) => {},
            Err(_) => {
                proof {
                    assert(false);
                }
            },
        }
        self.stage = Stage::River;
        proof {
            assert(self.community_cards@ =~= old(self).community_cards@ + d.subrange(oc, oc + 1));
            assert forall|i: int|
                0 <= i < old(self).players@.len() implies (#[trigger] self.players@[i]).cards@
                == old(self).players@[i].cards@ + d.subrange(oc, oc + 1) by {
                assert(self.players@[i].cards@ =~= old(self).players@[i].cards@ + d.subrange(
                    oc,
                    oc + 1,
                ));
            }
        }
    }

    /// One complete trial from a fresh pre-flop table: shuffles the undealt
    /// part of the deck (pinned and dealt cards never move), deals hole cards
    /// until every player holds two, reveals the five community cards into
    /// every hand, grades every hand and returns the hero's verdict against
    /// all opponents, as `judge` defines it. The contract pins the whole deal
    /// structure over the post-shuffle deck: who received which deck cards,
    /// and where the community cards came from.
    pub fn play_once(&mut self) -> (outcome: Showdown)
        requires
            old(self).wf(),
            old(self).stage is PreFlop,
            old(self).community_cards@.len() == 0,
            old(self).deck.cursor <= 2,
            forall|i: int|
                0 <= i < old(self).players@.len() ==> (#[trigger] old(self).players@[i]).cards@.len() <= 2,
        ensures
            final(self).wf(),
            final(self).stage is River,
            final(self).community_cards@.len() == stage_community(final(self).stage),
            final(self).players_cnt == old(self).players_cnt,
            final(self).players@.len() == old(self).players@.len(),
            forall|i: int|
                0 <= i < final(self).players@.len() ==> (#[trigger] final(self).players@[i]).cards@.len() == 7,
            forall|i: int|
                0 <= i < old(self).deck.cursor ==> final(self).deck.cards@[i] == old(self).deck.cards@[i],
            forall|c: Card|
                count_card(final(self).deck.cards@, c) == count_card(old(self).deck.cards@, c),
            final(self).deck.cursor == old(self).deck.cursor + cards_to_deal(old(self).players@)
                + 5,
            final(self).community_cards@ == final(self).deck.cards@.subrange(
                old(self).deck.cursor + cards_to_deal(old(self).players@),
                old(self).deck.cursor + cards_to_deal(old(self).players@) + 5,
            ),
            forall|i: int|
                0 <= i < old(self).players@.len() ==> (#[trigger] final(self).players@[i]).cards@
                    == old(self).players@[i].cards@ + final(self).deck.cards@.subrange(
                    old(self).deck.cursor + cards_to_deal(old(self).players@.take(i)),
                    old(self).deck.cursor + cards_to_deal(old(self).players@.take(i + 1)),
                ) + final(self).community_cards@,
            exists|hero: Grade, rest: Seq<Grade>|
                #[trigger] trial_verdict(*final(self), hero, rest, outcome),
    {
        let ghost oc = old(self).deck.cursor as int;
        self.deck.partial_shuffle();
        let ghost d = self.deck.cards@;
        let ghost players0 = self.players@;
        proof {
            lemma_cards_to_deal_bounds(players0);
        }
        self.preflop();
        let ghost holes = cards_to_deal(players0);
        self.preflop_to_flop();
        self.flop_to_turn();
        self.turn_to_river();
        proof {
            assert(self.community_cards@ =~= d.subrange(oc + holes, oc + holes + 5));
            assert forall|i: int|
                0 <= i < old(self).players@.len() implies (#[trigger] self.players@[i]).cards@
                == old(self).players@[i].cards@ + d.subrange(
                oc + cards_to_deal(players0.take(i)),
                oc + cards_to_deal(players0.take(i + 1)),
            ) + self.community_cards@ by {
                assert(self.players@[i].cards@ =~= old(self).players@[i].cards@ + d.subrange(
                    oc + cards_to_deal(players0.take(i)),
                    oc + cards_to_deal(players0.take(i + 1)),
                ) + self.community_cards@);
            }
            assert(players0 == old(self).players@);
        }
        let my_grade = Grade::new(&self.players[0].cards);
        let mut other_grades: Vec<Grade> = Vec::new();
        let ghost snapshot = *self;
        let mut j: usize = 1;
        while j < self.players_cnt
            invariant
                *self == snapshot,
                self.wf(),
                1 <= j <= self.players_cnt,
                self.players@.len() == self.players_cnt,
                forall|i: int|
                    0 <= i < self.players@.len() ==> (#[trigger] self.players@[i]).cards@.len()
                        == 7,
                graded(self.players@[0].cards@, my_grade.category(), my_grade.sel()),
                other_grades@.len() == j - 1,
                forall|i: int|
                    1 <= i < j ==> graded(
                        (#[trigger] self.players@[i]).cards@,
                        other_grades@[i - 1].category(),
                        other_grades@[i - 1].sel(),
                    ),
            decreases self.players_cnt - j,
        {
            let og = Grade::new(&self.players[j].cards);
            other_grades.push(og);
            j = j + 1;
        }
        let outcome = judge(&my_grade, &other_grades);
        proof {
            assert(trial_verdict(*self, my_grade, other_grades@, outcome));
        }
        outcome
    }

    /// A copy of the whole table; each trial runs on its own copy.
    pub fn clone(&self) -> (g: HoldemGame)
        ensures
            g.deck.cards@ == self.deck.cards@,
            g.deck.cursor == self.deck.cursor,
            g.stage == self.stage,
            g.community_cards@ == self.community_cards@,
            g.players_cnt == self.players_cnt,
            g.players@.len() == self.players@.len(),
            forall|i: int|
                0 <= i < g.players@.len() ==> (#[trigger] g.players@[i]).cards@
                    == self.players@[i].cards@,
    {
        let deck = self.deck.clone();
        let community_cards = clone_cards(&self.community_cards);
        let mut players: Vec<Hand> = Vec::new();
        let mut i: usize = 0;
        while i < self.players.len()
            invariant
                i <= self.players@.len(),
                players@.len() == i,
                forall|j: int|
                    0 <= j < i ==> (#[trigger] players@[j]).cards@ == self.players@[j].cards@,
            decreases self.players@.len() - i,
        {
            players.push(self.players[i].clone());
            i = i + 1;
        }
        HoldemGame {
            deck,
            stage: self.stage,
            community_cards,
            players_cnt: self.players_cnt,
            players,
        }
    }

    /// Runs `trials` independent trials from this base configuration and
    /// tallies the hero's outcomes as (wins, losses, draws). Every trial is
    /// counted exactly once: the three counters always sum to `trials`.
    pub fn count_outcomes(&self, trials: usize) -> (counts: (usize, usize, usize))
        requires
            self.wf(),
            self.stage is PreFlop,
            self.community_cards@.len() == 0,
            self.deck.cursor <= 2,
            forall|i: int|
                0 <= i < self.players@.len() ==> (#[trigger] self.players@[i]).cards@.len() <= 2,
        ensures
            counts.0 + counts.1 + counts.2 == trials,
    {
        let mut win: usize = 0;
        let mut lose: usize = 0;
        let mut draw: usize = 0;
        let mut t: usize = 0;
        while t < trials
            invariant
                t <= trials,
                win + lose + draw == t,
                self.wf(),
                self.stage is PreFlop,
                self.community_cards@.len() == 0,
                self.deck.cursor <= 2,
                forall|i: int|
                    0 <= i < self.players@.len() ==> (#[trigger] self.players@[i]).cards@.len()
                        <= 2,
            decreases trials - t,
        {
            let mut game = self.clone();
            proof {
                assert(game.wf());
            }
            match game.play_once() {
                Showdown::Win => {
                    win = win + 1;
                },
                Showdown::Lose => {
                    lose = lose + 1;
                },
                Showdown::Draw => {
                    draw = draw + 1;
                },
            }
            t = t + 1;
        }
        (win, lose, draw)
    }

    /// Fixes the hero's two hole cards: they are pinned, already dealt, at
    /// the front of the deck, where later shuffles never reach, and join the
    /// hero's hand. When the deck's front slots are already occupied the call
    /// fails and the whole game is left unchanged, so the caller may retry.
    pub fn set_front_cards(&mut self, front_cards: Vec<Card>) -> (r: Result<(), &'static str>)
        requires
            old(self).wf(),
            front_cards@.len() == 2,
            card_valid(front_cards@[0]),
            card_valid(front_cards@[1]),
            front_cards@[0] != front_cards@[1],
            old(self).players@[0].cards@.len() == 0,
        ensures
            final(self).wf(),
            r is Err <==> old(self).deck.cursor >= 2,
            r is Err ==> *final(self) == *old(self),
            r is Ok ==> final(self).stage == old(self).stage && final(self).community_cards@
                == old(self).community_cards@ && final(self).players_cnt == old(self).players_cnt
                && final(self).players@.len() == old(self).players@.len() && final(self).players@[0].cards@ == old(self).players@[0].cards@ + front_cards@ && (forall|i: int|
                1 <= i < final(self).players@.len() ==> (#[trigger] final(self).players@[i]) == old(self).players@[i]) && final(self).deck.cursor == 2 && final(self).deck.cards@[0]
                == front_cards@[0] && final(self).deck.cards@[1] == front_cards@[1] && (forall|
                c: Card,
            |
                count_card(final(self).deck.cards@, c) == count_card(old(self).deck.cards@, c)),
    {
        let fc0 = front_cards[0];
        let fc1 = front_cards[1];
        let r = self.deck.set_front_cards(front_cards);
        match r {
            Err(e) => Err(e),
            Ok(()) => {
                let mut h = self.players[0].clone();
                h.add_card(fc0);
                h.add_card(fc1);
                proof {
                    assert(h.cards@ =~= old(self).players@[0].cards@ + seq![fc0, fc1]);
                    assert(seq![fc0, fc1] =~= front_cards@);
                }
                self.players[0] = h;
                Ok(())
            },
        }
    }
}

} // verus!
