use holdem::grade::Grade;
use holdem::table::{Card, Deck};
use std::collections::HashSet;

fn tuple_set(t: (Card, Card, Card, Card, Card)) -> HashSet<Card> {
    HashSet::from([t.0, t.1, t.2, t.3, t.4])
}

#[test]
fn grade_test_straight_flush() {
    let mut deck = Deck::new();
    deck.deal_cards(13);
    deck.deal_cards(13);
    deck.deal_cards(13);
    deck.deal_cards(5);
    let cards: Vec<Card> = deck.deal_cards(7);
    let sf = Grade::is_straight_flush(&cards);
    assert!(sf.is_some());
    let sf = sf.unwrap();
    if let Grade::StraightFlush(t) = sf {
        assert_eq!(
            tuple_set(t),
            HashSet::from([
                Card { shape: 3, num: 11 },
                Card { shape: 3, num: 10 },
                Card { shape: 3, num: 9 },
                Card { shape: 3, num: 8 },
                Card { shape: 3, num: 7 }
            ])
        );
    } else {
        panic!("not a straight flush");
    }
}

#[test]
fn grade_test_four_of_a_kind() {
    let mut deck = Deck::new();
    let mut cards: Vec<Card> = Vec::new();
    cards.append(&mut deck.deal_cards(3));
    deck.deal_cards(9);
    cards.append(&mut deck.deal_cards(1));
    deck.deal_cards(12);
    cards.append(&mut deck.deal_cards(1));
    deck.deal_cards(12);
    cards.append(&mut deck.deal_cards(1));
    deck.deal_cards(12);
    cards.append(&mut deck.deal_cards(1));

    let fk = Grade::is_four_of_a_kind(&cards);
    assert!(fk.is_some());
    let fk = fk.unwrap();
    if let Grade::FourOfAKind(t) = fk {
        assert_eq!(
            tuple_set(t),
            HashSet::from([
                Card { shape: 0, num: 12 },
                Card { shape: 1, num: 12 },
                Card { shape: 2, num: 12 },
                Card { shape: 3, num: 12 },
                Card { shape: 0, num: 2 }
            ])
        );
    } else {
        panic!("not four of a kind");
    }
}

#[test]
fn grade_test_full_house() {
    let cards: Vec<Card> = vec![
        Card { shape: 0, num: 9 },
        Card { shape: 1, num: 9 },
        Card { shape: 2, num: 5 },
        Card { shape: 3, num: 9 },
        Card { shape: 2, num: 8 },
        Card { shape: 1, num: 5 },
        Card { shape: 0, num: 5 },
    ];
    let fh = Grade::is_full_house(&cards);
    assert!(fh.is_some());
    let fh = fh.unwrap();
    if let Grade::FullHouse(t) = fh {
        assert_eq!(
            tuple_set(t),
            HashSet::from([
                Card { shape: 0, num: 9 },
                Card { shape: 1, num: 9 },
                Card { shape: 3, num: 9 },
                Card { shape: 0, num: 5 },
                Card { shape: 1, num: 5 }
            ])
        );
    } else {
        panic!("not a full house");
    }
}

#[test]
fn test_flush() {
    let cards: Vec<Card> = vec![
        Card { shape: 3, num: 1 },
        Card { shape: 1, num: 2 },
        Card { shape: 2, num: 3 },
        Card { shape: 3, num: 4 },
        Card { shape: 3, num: 6 },
        Card { shape: 3, num: 9 },
        Card { shape: 3, num: 12 },
    ];
    let fl = Grade::is_flush(&cards);
    assert!(fl.is_some());
    let fl = fl.unwrap();
    if let Grade::Flush(t) = fl {
        assert_eq!(
            tuple_set(t),
            HashSet::from([
                Card { shape: 3, num: 1 },
                Card { shape: 3, num: 4 },
                Card { shape: 3, num: 6 },
                Card { shape: 3, num: 9 },
                Card { shape: 3, num: 12 }
            ])
        );
    } else {
        panic!("not a flush");
    }
}

#[test]
fn test_straight() {
    let cards: Vec<Card> = vec![
        Card { shape: 3, num: 1 },
        Card { shape: 1, num: 10 },
        Card { shape: 2, num: 8 },
        Card { shape: 3, num: 4 },
        Card { shape: 3, num: 7 },
        Card { shape: 3, num: 9 },
        Card { shape: 3, num: 11 },
    ];
    let st = Grade::is_straight(&cards);
    assert!(st.is_some());
    if let Some(Grade::Straight(t)) = st {
        assert_eq!(
            tuple_set(t),
            HashSet::from([
                Card { shape: 1, num: 10 },
                Card { shape: 3, num: 7 },
                Card { shape: 2, num: 8 },
                Card { shape: 3, num: 9 },
                Card { shape: 3, num: 11 }
            ])
        );
    } else {
        panic!("not a straight");
    }
}

#[test]
fn test_three_of_a_kind() {
    let cards: Vec<Card> = vec![
        Card { shape: 0, num: 3 },
        Card { shape: 0, num: 11 },
        Card { shape: 1, num: 2 },
        Card { shape: 2, num: 12 },
        Card { shape: 3, num: 3 },
        Card { shape: 2, num: 3 },
        Card { shape: 0, num: 10 },
    ];
    let tk = Grade::is_three_of_a_kind(&cards);
    assert!(tk.is_some());
    if let Some(Grade::ThreeOfAKind(t)) = tk {
        assert_eq!(
            tuple_set(t),
            HashSet::from([
                Card { shape: 0, num: 3 },
                Card { shape: 2, num: 3 },
                Card { shape: 3, num: 3 },
                Card { shape: 2, num: 12 },
                Card { shape: 0, num: 11 }
            ])
        );
    } else {
        panic!("not three of a kind");
    }
}

#[test]
fn test_two_pairs() {
    let cards: Vec<Card> = vec![
        Card { shape: 0, num: 1 },
        Card { shape: 0, num: 12 },
        Card { shape: 1, num: 7 },
        Card { shape: 1, num: 12 },
        Card { shape: 2, num: 7 },
        Card { shape: 2, num: 10 },
        Card { shape: 3, num: 10 },
    ];
    let tp = Grade::is_two_pairs(&cards);
    assert!(tp.is_some());
    if let Some(Grade::TwoPairs(t)) = tp {
        assert_eq!(
            tuple_set(t),
            HashSet::from([
                Card { shape: 3, num: 10 },
                Card { shape: 2, num: 10 },
                Card { shape: 2, num: 7 },
                Card { shape: 0, num: 12 },
                Card { shape: 1, num: 12 }
            ])
        );
    } else {
        panic!("not two pairs");
    }
}

#[test]
fn test_one_pair() {
    let cards: Vec<Card> = vec![
        Card { shape: 0, num: 1 },
        Card { shape: 0, num: 11 },
        Card { shape: 1, num: 7 },
        Card { shape: 1, num: 12 },
        Card { shape: 2, num: 7 },
        Card { shape: 2, num: 2 },
        Card { shape: 3, num: 10 },
    ];
    let op = Grade::is_one_pair(&cards);
    assert!(op.is_some());
    if let Some(Grade::OnePair(t)) = op {
        assert_eq!(
            tuple_set(t),
            HashSet::from([
                Card { shape: 1, num: 12 },
                Card { shape: 0, num: 11 },
                Card { shape: 2, num: 7 },
                Card { shape: 1, num: 7 },
                Card { shape: 3, num: 10 }
            ])
        );
    } else {
        panic!("not one pair");
    }
}

#[test]
fn test_top() {
    let cards: Vec<Card> = vec![
        Card { shape: 0, num: 1 },
        Card { shape: 0, num: 3 },
        Card { shape: 1, num: 5 },
        Card { shape: 1, num: 7 },
        Card { shape: 2, num: 8 },
        Card { shape: 2, num: 10 },
        Card { shape: 3, num: 11 },
    ];
    let top = Grade::new(&cards);
    match top {
        Grade::Top(t) => assert_eq!(
            tuple_set(t),
            HashSet::from([
                Card { shape: 3, num: 11 },
                Card { shape: 2, num: 10 },
                Card { shape: 2, num: 8 },
                Card { shape: 1, num: 7 },
                Card { shape: 1, num: 5 }
            ])
        ),
        _ => panic!("cards do not constitute top."),
    }
}

#[test]
fn grade2_test_straight_flush() {
    let mut deck = Deck::new();
    deck.deal_cards(13);
    deck.deal_cards(13);
    deck.deal_cards(13);
    deck.deal_cards(5);
    let cards: Vec<Card> = deck.deal_cards(7);
    let sf = Grade::is_straight_flush(&cards);
    assert!(sf.is_some());
    if let Some(Grade::StraightFlush(t)) = sf {
        assert_eq!(t.0, Card { shape: 3, num: 11 });
        assert_eq!(t.1, Card { shape: 3, num: 10 });
        assert_eq!(t.2, Card { shape: 3, num: 9 });
        assert_eq!(t.3, Card { shape: 3, num: 8 });
        assert_eq!(t.4, Card { shape: 3, num: 7 });
    } else {
        panic!("not a straight flush");
    }
}

#[test]
fn grade2_test_four_of_a_kind() {
    let cards: Vec<Card> = vec![
        Card { shape: 0, num: 5 },
        Card { shape: 1, num: 5 },
        Card { shape: 2, num: 5 },
        Card { shape: 3, num: 5 },
        Card { shape: 0, num: 1 },
        Card { shape: 2, num: 10 },
        Card { shape: 3, num: 11 },
    ];
    let fk = Grade::is_four_of_a_kind(&cards);
    assert!(fk.is_some());
    if let Some(Grade::FourOfAKind(t)) = fk {
        assert_eq!(t.0, Card { shape: 3, num: 5 });
        assert_eq!(t.1, Card { shape: 2, num: 5 });
        assert_eq!(t.2, Card { shape: 1, num: 5 });
        assert_eq!(t.3, Card { shape: 0, num: 5 });
        assert_eq!(t.4, Card { shape: 3, num: 11 });
    } else {
        panic!("not four of a kind");
    }
}

#[test]
fn grade2_test_full_house() {
    let cards: Vec<Card> = vec![
        Card { shape: 0, num: 10 },
        Card { shape: 1, num: 5 },
        Card { shape: 2, num: 5 },
        Card { shape: 3, num: 4 },
        Card { shape: 3, num: 4 },
        Card { shape: 2, num: 4 },
        Card { shape: 0, num: 5 },
    ];
    let fh = Grade::new(&cards);
    if let Grade::FullHouse(t) = fh {
        assert_eq!(t.0.num, 5);
        assert_eq!(t.1.num, 5);
        assert_eq!(t.2.num, 5);
        assert_eq!(t.3.num, 4);
        assert_eq!(t.4.num, 4);
        assert_eq!(
            tuple_set(t),
            HashSet::from([
                Card { shape: 2, num: 5 },
                Card { shape: 1, num: 5 },
                Card { shape: 0, num: 5 },
                Card { shape: 3, num: 4 },
                Card { shape: 2, num: 4 }
            ])
        );
    } else {
        panic!("not a full house");
    }
}

// An independent, count-based categorization used to cross-check the engine:
// 8 straight flush, 7 quads, 6 full house, 5 flush, 4 straight, 3 trips,
// 2 two pairs, 1 pair, 0 high card.
fn naive_category(pool: &[Card]) -> u8 {
    let mut num_cnt = [0usize; 13];
    let mut shape_cnt = [0usize; 4];
    for c in pool {
        num_cnt[c.num] += 1;
        shape_cnt[c.shape] += 1;
    }
    let straight_in = |present: [bool; 13]| -> bool {
        let mut run = 0;
        for n in 0..13 {
            if present[n] {
                run += 1;
                if run >= 5 {
                    return true;
                }
            } else {
                run = 0;
            }
        }
        present[0] && present[1] && present[2] && present[3] && present[12]
    };
    let mut present = [false; 13];
    for c in pool {
        present[c.num] = true;
    }
    let mut sf = false;
    for sh in 0..4 {
        if shape_cnt[sh] >= 5 {
            let mut suited = [false; 13];
            for c in pool {
                if c.shape == sh {
                    suited[c.num] = true;
                }
            }
            if straight_in(suited) {
                sf = true;
            }
        }
    }
    let quad = num_cnt.iter().any(|&c| c == 4);
    let trips: Vec<usize> = (0..13).filter(|&n| num_cnt[n] == 3).collect();
    let pairs: Vec<usize> = (0..13).filter(|&n| num_cnt[n] == 2).collect();
    let full_house = !trips.is_empty() && (trips.len() >= 2 || !pairs.is_empty());
    let flush = shape_cnt.iter().any(|&c| c >= 5);
    let straight = straight_in(present);
    if sf {
        8
    } else if quad {
        7
    } else if full_house {
        6
    } else if flush {
        5
    } else if straight {
        4
    } else if !trips.is_empty() {
        3
    } else if pairs.len() >= 2 {
        2
    } else if pairs.len() == 1 {
        1
    } else {
        0
    }
}

#[test]
fn exhaustive_five_card_pools_match_naive_category() {
    // all five-card pools over four suits and the ranks 2,3,4,5,6 and ace:
    // covers quads, full houses, flushes, straights, the wheel and straight
    // flushes
    let mut sub_deck: Vec<Card> = Vec::new();
    for shape in 0..4 {
        for num in [0, 1, 2, 3, 4, 12] {
            sub_deck.push(Card { shape, num });
        }
    }
    let n = sub_deck.len();
    let mut checked = 0u32;
    for a in 0..n {
        for b in (a + 1)..n {
            for c in (b + 1)..n {
                for d in (c + 1)..n {
                    for e in (d + 1)..n {
                        let pool = vec![
                            sub_deck[a],
                            sub_deck[b],
                            sub_deck[c],
                            sub_deck[d],
                            sub_deck[e],
                        ];
                        let got = Grade::new(&pool).as_value().0;
                        let want = naive_category(&pool);
                        assert_eq!(got, want, "pool {:?}", pool);
                        checked += 1;
                    }
                }
            }
        }
    }
    assert_eq!(checked, 42504);
}

#[test]
fn randomized_seven_card_pools_match_naive_category() {
    let mut deck = Deck::new();
    for _ in 0..2000 {
        deck.cursor = 0;
        deck.shuffle();
        let pool = deck.deal_cards(7);
        let got = Grade::new(&pool).as_value().0;
        let want = naive_category(&pool);
        assert_eq!(got, want, "pool {:?}", pool);
    }
}
