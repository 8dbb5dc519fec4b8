use holdem::table::{Card, Deck, Hand};
use std::collections::HashSet;

#[test]
fn deck_dealing_card_is_successful() {
    let mut deck = Deck::new();
    let c0 = deck.deal_card();
    let c1 = deck.deal_card();
    let c2 = deck.deal_card();
    let c3 = deck.deal_card();
    assert_eq!(c0.shape, 0);
    assert_eq!(c0.num, 0);
    assert_eq!(c1.shape, 0);
    assert_eq!(c1.num, 1);
    assert_eq!(c2.shape, 0);
    assert_eq!(c2.num, 2);
    assert_eq!(c3.shape, 0);
    assert_eq!(c3.num, 3);
}

#[test]
fn deck_deck_contains_all_cards() {
    let mut deck = Deck::new();
    let mut check_mat = [[false; 13]; 4];
    deck.shuffle();
    deck.cards
        .iter()
        .for_each(|card| check_mat[card.shape][card.num] = true);
    let mut tf_cnt: u8 = 0;
    for sub1 in check_mat {
        for sub2 in sub1 {
            if sub2 {
                tf_cnt += 1;
            }
        }
    }
    assert_eq!(tf_cnt, 52);
}

#[test]
fn table_dealing_card_is_successful() {
    let mut deck = Deck::new();
    let fc = deck.deal_cards(4);
    deck.deal_cards(13);
    let fc2 = deck.deal_cards(3);
    assert_eq!(fc[0], Card { shape: 0, num: 0 });
    assert_eq!(fc[1], Card { shape: 0, num: 1 });
    assert_eq!(fc[2], Card { shape: 0, num: 2 });
    assert_eq!(fc[3], Card { shape: 0, num: 3 });
    assert_eq!(fc2[0], Card { shape: 1, num: 4 });
    assert_eq!(fc2[1], Card { shape: 1, num: 5 });
    assert_eq!(fc2[2], Card { shape: 1, num: 6 });
}

#[test]
fn table_deck_contains_all_cards() {
    let mut deck = Deck::new();
    let mut check_mat = [[false; 13]; 4];
    deck.shuffle();
    deck.cards
        .iter()
        .for_each(|card| check_mat[card.shape][card.num] = true);
    let mut tf_cnt: u8 = 0;
    for sub1 in check_mat {
        for sub2 in sub1 {
            if sub2 {
                tf_cnt += 1;
            }
        }
    }
    assert_eq!(tf_cnt, 52);
}

#[test]
fn table_hand_get_cards_from_deck() {
    let mut deck = Deck::new();
    let mut p1 = Hand::new();
    p1.add_cards(&deck.deal_cards(7));
    assert_eq!(p1.len(), 7);
    assert_eq!(p1.cards[6], Card { shape: 0, num: 6 });
}

#[test]
fn hand_hand_get_cards_from_deck() {
    let mut deck = Deck::new();
    let mut p1 = Hand::new();
    p1.add_cards(&deck.deal_cards(7));
    assert_eq!(p1.len(), 7);
    assert_eq!(p1.cards[6], Card { shape: 0, num: 6 });
}

#[test]
fn partial_shuffling_test() {
    let mut deck = Deck::new();
    let cards: Vec<Card> = deck.deal_cards(7);
    let post_cards: Vec<Card> = deck.cards[7..14].to_vec();
    deck.partial_shuffle();
    assert_eq!(cards, deck.cards[..7].to_vec());
    assert_ne!(post_cards, deck.cards[7..14].to_vec());
}

#[test]
fn deck_exhausts_after_fifty_two_deals() {
    let mut deck = Deck::new();
    deck.shuffle();
    let mut seen: HashSet<Card> = HashSet::new();
    for _ in 0..52 {
        let c = deck.deal_card();
        assert!(seen.insert(c), "a card was dealt twice");
    }
    assert_eq!(seen.len(), 52);
    assert_eq!(deck.cursor, 52);
}

#[test]
fn front_cards_slot_occupied() {
    let mut deck = Deck::new();
    deck.deal_cards(2);
    let r = deck.set_front_cards(vec![
        Card { shape: 0, num: 12 },
        Card { shape: 1, num: 12 },
    ]);
    assert!(r.is_err());

    let mut fresh = Deck::new();
    fresh.shuffle();
    let r2 = fresh.set_front_cards(vec![
        Card { shape: 0, num: 12 },
        Card { shape: 1, num: 12 },
    ]);
    assert!(r2.is_ok());
    assert_eq!(fresh.cards[0], Card { shape: 0, num: 12 });
    assert_eq!(fresh.cards[1], Card { shape: 1, num: 12 });
    assert_eq!(fresh.cursor, 2);
}

#[test]
fn hand_refuses_eighth_card() {
    let mut deck = Deck::new();
    let mut h = Hand::new();
    h.add_cards(&deck.deal_cards(9));
    assert_eq!(h.len(), 7);
}

#[test]
fn card_labels() {
    assert_eq!(Card { shape: 0, num: 3 }.to_string(), "S5");
    assert_eq!(Card { shape: 2, num: 8 }.to_string(), "HT");
    assert_eq!(Card { shape: 3, num: 12 }.to_string(), "CA");
    assert_eq!(Card { shape: 1, num: 0 }.to_string(), "D2");
}
