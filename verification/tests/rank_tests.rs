use holdem::rank::Rank;
use holdem::table::{Card, Deck, Hand};
use std::collections::HashSet;

fn card_set(rank: &Rank) -> HashSet<Card> {
    rank.cards.iter().cloned().collect()
}

#[test]
fn ranking_test_straight_flush() {
    let mut deck = Deck::new();
    let cards: Vec<Card> = deck.deal_cards(7);
    let sf = Rank::is_straight_flush(&cards);
    assert!(sf.is_some());
    assert_eq!(
        card_set(&sf.unwrap()),
        HashSet::from([
            Card { shape: 0, num: 2 },
            Card { shape: 0, num: 3 },
            Card { shape: 0, num: 4 },
            Card { shape: 0, num: 5 },
            Card { shape: 0, num: 6 }
        ])
    );
}

#[test]
fn ranking_test_four_of_a_kind() {
    let cards: Vec<Card> = vec![
        Card { shape: 0, num: 5 },
        Card { shape: 1, num: 5 },
        Card { shape: 2, num: 5 },
        Card { shape: 3, num: 5 },
        Card { shape: 0, num: 1 },
        Card { shape: 2, num: 10 },
        Card { shape: 3, num: 11 },
    ];
    let fk = Rank::is_four_of_a_kind(&cards);
    assert!(fk.is_some());
    assert_eq!(
        card_set(&fk.unwrap()),
        HashSet::from([
            Card { shape: 0, num: 5 },
            Card { shape: 1, num: 5 },
            Card { shape: 2, num: 5 },
            Card { shape: 3, num: 5 },
            Card { shape: 3, num: 11 }
        ])
    );
}

#[test]
fn ranking_test_full_house() {
    let cards: Vec<Card> = vec![
        Card { shape: 0, num: 10 },
        Card { shape: 1, num: 5 },
        Card { shape: 2, num: 5 },
        Card { shape: 3, num: 4 },
        Card { shape: 3, num: 4 },
        Card { shape: 2, num: 4 },
        Card { shape: 0, num: 5 },
    ];
    let mut hand: Hand = Hand::new();
    hand.add_cards(&cards);
    let rank = Rank::new(&hand);
    assert_eq!(rank.grade, 6);
    assert_eq!(
        card_set(&rank),
        HashSet::from([
            Card { shape: 1, num: 5 },
            Card { shape: 2, num: 5 },
            Card { shape: 0, num: 5 },
            Card { shape: 3, num: 4 },
            Card { shape: 2, num: 4 }
        ])
    );
}

#[test]
fn rank_ranking_test_flush() {
    let cards: Vec<Card> = vec![
        Card { shape: 0, num: 12 },
        Card { shape: 0, num: 11 },
        Card { shape: 1, num: 12 },
        Card { shape: 2, num: 12 },
        Card { shape: 0, num: 0 },
        Card { shape: 0, num: 3 },
        Card { shape: 0, num: 10 },
    ];
    let mut hand: Hand = Hand::new();
    hand.add_cards(&cards);
    let rank = Rank::new(&hand);
    assert_eq!(rank.grade, 5);
    assert_eq!(
        card_set(&rank),
        HashSet::from([
            Card { shape: 0, num: 12 },
            Card { shape: 0, num: 11 },
            Card { shape: 0, num: 10 },
            Card { shape: 0, num: 0 },
            Card { shape: 0, num: 3 }
        ])
    );
}

#[test]
fn rank_ranking_test_straight() {
    let cards: Vec<Card> = vec![
        Card { shape: 1, num: 8 },
        Card { shape: 3, num: 11 },
        Card { shape: 1, num: 9 },
        Card { shape: 2, num: 12 },
        Card { shape: 3, num: 12 },
        Card { shape: 0, num: 12 },
        Card { shape: 0, num: 10 },
    ];
    let mut hand: Hand = Hand::new();
    hand.add_cards(&cards);
    let rank = Rank::new(&hand);
    assert_eq!(rank.grade, 4);
    assert_eq!(
        card_set(&rank),
        HashSet::from([
            Card { shape: 2, num: 12 },
            Card { shape: 3, num: 11 },
            Card { shape: 0, num: 10 },
            Card { shape: 1, num: 9 },
            Card { shape: 1, num: 8 }
        ])
    );
}

#[test]
fn rank_ranking_test_three_of_a_kind() {
    let cards: Vec<Card> = vec![
        Card { shape: 0, num: 3 },
        Card { shape: 0, num: 11 },
        Card { shape: 1, num: 2 },
        Card { shape: 2, num: 12 },
        Card { shape: 3, num: 3 },
        Card { shape: 2, num: 3 },
        Card { shape: 0, num: 10 },
    ];
    let mut hand: Hand = Hand::new();
    hand.add_cards(&cards);
    let rank = Rank::new(&hand);
    assert_eq!(rank.grade, 3);
    assert_eq!(
        card_set(&rank),
        HashSet::from([
            Card { shape: 0, num: 3 },
            Card { shape: 2, num: 3 },
            Card { shape: 3, num: 3 },
            Card { shape: 2, num: 12 },
            Card { shape: 0, num: 11 }
        ])
    );
}

#[test]
fn rank_ranking_test_two_pairs() {
    let cards: Vec<Card> = vec![
        Card { shape: 0, num: 1 },
        Card { shape: 0, num: 12 },
        Card { shape: 1, num: 7 },
        Card { shape: 1, num: 12 },
        Card { shape: 2, num: 7 },
        Card { shape: 2, num: 10 },
        Card { shape: 3, num: 10 },
    ];
    let mut hand: Hand = Hand::new();
    hand.add_cards(&cards);
    let rank = Rank::new(&hand);
    assert_eq!(rank.grade, 2);
    assert_eq!(
        card_set(&rank),
        HashSet::from([
            Card { shape: 0, num: 12 },
            Card { shape: 1, num: 12 },
            Card { shape: 3, num: 10 },
            Card { shape: 2, num: 10 },
            Card { shape: 2, num: 7 }
        ])
    );
}

#[test]
fn rank_ranking_test_own_pair() {
    let cards: Vec<Card> = vec![
        Card { shape: 0, num: 1 },
        Card { shape: 0, num: 11 },
        Card { shape: 1, num: 7 },
        Card { shape: 1, num: 12 },
        Card { shape: 2, num: 7 },
        Card { shape: 2, num: 2 },
        Card { shape: 3, num: 10 },
    ];
    let mut hand: Hand = Hand::new();
    hand.add_cards(&cards);
    let rank = Rank::new(&hand);
    assert_eq!(rank.grade, 1);
    assert_eq!(
        card_set(&rank),
        HashSet::from([
            Card { shape: 1, num: 12 },
            Card { shape: 0, num: 11 },
            Card { shape: 2, num: 7 },
            Card { shape: 1, num: 7 },
            Card { shape: 3, num: 10 }
        ])
    );
}

#[test]
fn rank_ranking_test_top() {
    let cards: Vec<Card> = vec![
        Card { shape: 0, num: 1 },
        Card { shape: 0, num: 3 },
        Card { shape: 1, num: 5 },
        Card { shape: 1, num: 7 },
        Card { shape: 2, num: 8 },
        Card { shape: 2, num: 10 },
        Card { shape: 3, num: 11 },
    ];
    let mut hand: Hand = Hand::new();
    hand.add_cards(&cards);
    let rank = Rank::new(&hand);
    assert_eq!(rank.grade, 0);
    assert_eq!(
        card_set(&rank),
        HashSet::from([
            Card { shape: 3, num: 11 },
            Card { shape: 2, num: 10 },
            Card { shape: 2, num: 8 },
            Card { shape: 1, num: 7 },
            Card { shape: 1, num: 5 }
        ])
    );
}

#[test]
fn grade2_ranking_test_flush() {
    let cards: Vec<Card> = vec![
        Card { shape: 0, num: 12 },
        Card { shape: 0, num: 11 },
        Card { shape: 1, num: 12 },
        Card { shape: 2, num: 12 },
        Card { shape: 0, num: 0 },
        Card { shape: 0, num: 3 },
        Card { shape: 0, num: 10 },
    ];
    let mut hand: Hand = Hand::new();
    hand.add_cards(&cards);
    let rank = Rank::new(&hand);
    assert_eq!(rank.grade, 5);
    assert_eq!(
        card_set(&rank),
        HashSet::from([
            Card { shape: 0, num: 12 },
            Card { shape: 0, num: 11 },
            Card { shape: 0, num: 10 },
            Card { shape: 0, num: 0 },
            Card { shape: 0, num: 3 }
        ])
    );
}

#[test]
fn grade2_ranking_test_straight() {
    let cards: Vec<Card> = vec![
        Card { shape: 1, num: 8 },
        Card { shape: 3, num: 11 },
        Card { shape: 1, num: 9 },
        Card { shape: 2, num: 12 },
        Card { shape: 3, num: 12 },
        Card { shape: 0, num: 12 },
        Card { shape: 0, num: 10 },
    ];
    let mut hand: Hand = Hand::new();
    hand.add_cards(&cards);
    let rank = Rank::new(&hand);
    assert_eq!(rank.grade, 4);
    assert_eq!(
        card_set(&rank),
        HashSet::from([
            Card { shape: 2, num: 12 },
            Card { shape: 3, num: 11 },
            Card { shape: 0, num: 10 },
            Card { shape: 1, num: 9 },
            Card { shape: 1, num: 8 }
        ])
    );
}

#[test]
fn grade2_ranking_test_three_of_a_kind() {
    let cards: Vec<Card> = vec![
        Card { shape: 0, num: 3 },
        Card { shape: 0, num: 11 },
        Card { shape: 1, num: 2 },
        Card { shape: 2, num: 12 },
        Card { shape: 3, num: 3 },
        Card { shape: 2, num: 3 },
        Card { shape: 0, num: 10 },
    ];
    let mut hand: Hand = Hand::new();
    hand.add_cards(&cards);
    let rank = Rank::new(&hand);
    assert_eq!(rank.grade, 3);
    assert_eq!(
        card_set(&rank),
        HashSet::from([
            Card { shape: 0, num: 3 },
            Card { shape: 2, num: 3 },
            Card { shape: 3, num: 3 },
            Card { shape: 2, num: 12 },
            Card { shape: 0, num: 11 }
        ])
    );
}

#[test]
fn grade2_ranking_test_two_pairs() {
    let cards: Vec<Card> = vec![
        Card { shape: 0, num: 1 },
        Card { shape: 0, num: 12 },
        Card { shape: 1, num: 7 },
        Card { shape: 1, num: 12 },
        Card { shape: 2, num: 7 },
        Card { shape: 2, num: 10 },
        Card { shape: 3, num: 10 },
    ];
    let mut hand: Hand = Hand::new();
    hand.add_cards(&cards);
    let rank = Rank::new(&hand);
    assert_eq!(rank.grade, 2);
    assert_eq!(
        card_set(&rank),
        HashSet::from([
            Card { shape: 0, num: 12 },
            Card { shape: 1, num: 12 },
            Card { shape: 3, num: 10 },
            Card { shape: 2, num: 10 },
            Card { shape: 2, num: 7 }
        ])
    );
}

#[test]
fn grade2_ranking_test_own_pair() {
    let cards: Vec<Card> = vec![
        Card { shape: 0, num: 1 },
        Card { shape: 0, num: 11 },
        Card { shape: 1, num: 7 },
        Card { shape: 1, num: 12 },
        Card { shape: 2, num: 7 },
        Card { shape: 2, num: 2 },
        Card { shape: 3, num: 10 },
    ];
    let mut hand: Hand = Hand::new();
    hand.add_cards(&cards);
    let rank = Rank::new(&hand);
    assert_eq!(rank.grade, 1);
    assert_eq!(
        card_set(&rank),
        HashSet::from([
            Card { shape: 1, num: 12 },
            Card { shape: 0, num: 11 },
            Card { shape: 2, num: 7 },
            Card { shape: 1, num: 7 },
            Card { shape: 3, num: 10 }
        ])
    );
}

#[test]
fn grade2_ranking_test_top() {
    let cards: Vec<Card> = vec![
        Card { shape: 0, num: 1 },
        Card { shape: 0, num: 3 },
        Card { shape: 1, num: 5 },
        Card { shape: 1, num: 7 },
        Card { shape: 2, num: 8 },
        Card { shape: 2, num: 10 },
        Card { shape: 3, num: 11 },
    ];
    let mut hand: Hand = Hand::new();
    hand.add_cards(&cards);
    let rank = Rank::new(&hand);
    assert_eq!(rank.grade, 0);
    assert_eq!(
        card_set(&rank),
        HashSet::from([
            Card { shape: 3, num: 11 },
            Card { shape: 2, num: 10 },
            Card { shape: 2, num: 8 },
            Card { shape: 1, num: 7 },
            Card { shape: 1, num: 5 }
        ])
    );
}
