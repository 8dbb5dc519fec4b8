use holdem::grade::Grade;
use holdem::holdem::{judge, HoldemGame, Showdown};
use holdem::table::Card;
use std::collections::HashSet;

#[test]
fn motecarlo_test_00() {
    let mut game = HoldemGame::new(3);
    let frontcards = vec![Card { shape: 0, num: 12 }, Card { shape: 1, num: 12 }];
    game.set_front_cards(frontcards).unwrap();
    let (win, lose, draw) = game.count_outcomes(50000);
    let win_rate = win as f64 / (win + lose + draw) as f64;
    assert!(0.735 - 0.01 < win_rate && win_rate < 0.735 + 0.01);
}

#[test]
fn pocket_kings_heads_up() {
    let mut game = HoldemGame::new(2);
    let frontcards = vec![Card { shape: 0, num: 11 }, Card { shape: 1, num: 11 }];
    game.set_front_cards(frontcards).unwrap();
    let (win, lose, draw) = game.count_outcomes(50000);
    let win_rate = win as f64 / (win + lose + draw) as f64;
    assert!(0.79 < win_rate && win_rate < 0.87);
}

#[test]
fn outcome_counts_sum_to_trials() {
    let game = HoldemGame::new(4);
    let (win, lose, draw) = game.count_outcomes(1234);
    assert_eq!(win + lose + draw, 1234);
}

#[test]
fn community_cards_capped_at_five() {
    let mut game = HoldemGame::new(2);
    for _ in 0..5 {
        assert!(game.add_community_card().is_ok());
    }
    assert_eq!(game.community_cards.len(), 5);
    let r = game.add_community_card();
    assert!(r.is_err());
    assert_eq!(game.community_cards.len(), 5);
}

#[test]
fn full_house_scenario() {
    // pool {S5, D5, H5, C4, H4, HT, C9}
    let cards: Vec<Card> = vec![
        Card { shape: 0, num: 3 },
        Card { shape: 1, num: 3 },
        Card { shape: 2, num: 3 },
        Card { shape: 3, num: 2 },
        Card { shape: 2, num: 2 },
        Card { shape: 2, num: 8 },
        Card { shape: 3, num: 7 },
    ];
    let g = Grade::new(&cards);
    if let Grade::FullHouse(t) = g {
        let got: HashSet<Card> = HashSet::from([t.0, t.1, t.2, t.3, t.4]);
        assert_eq!(
            got,
            HashSet::from([
                Card { shape: 0, num: 3 },
                Card { shape: 1, num: 3 },
                Card { shape: 2, num: 3 },
                Card { shape: 3, num: 2 },
                Card { shape: 2, num: 2 }
            ])
        );
    } else {
        panic!("pool should grade as a full house");
    }
}

#[test]
fn one_pair_kings_scenario() {
    // pool {S-King, D-King, H-7, H-Queen, D-2, C-9, S-3}
    let cards: Vec<Card> = vec![
        Card { shape: 0, num: 11 },
        Card { shape: 1, num: 11 },
        Card { shape: 2, num: 5 },
        Card { shape: 2, num: 10 },
        Card { shape: 1, num: 0 },
        Card { shape: 3, num: 7 },
        Card { shape: 0, num: 1 },
    ];
    let g = Grade::new(&cards);
    if let Grade::OnePair(t) = g {
        assert_eq!(t.0.num, 11);
        assert_eq!(t.1.num, 11);
        assert_eq!(t.2.num, 10);
        assert_eq!(t.3.num, 7);
        assert_eq!(t.4.num, 5);
    } else {
        panic!("pool should grade as one pair");
    }
}

#[test]
fn category_order_matches_rankings() {
    // one pool per category, weakest kickers, compared pairwise
    let pools: Vec<Vec<Card>> = vec![
        // high card
        vec![
            Card { shape: 0, num: 0 },
            Card { shape: 1, num: 2 },
            Card { shape: 2, num: 4 },
            Card { shape: 3, num: 6 },
            Card { shape: 0, num: 9 },
        ],
        // one pair
        vec![
            Card { shape: 0, num: 0 },
            Card { shape: 1, num: 0 },
            Card { shape: 2, num: 4 },
            Card { shape: 3, num: 6 },
            Card { shape: 0, num: 9 },
        ],
        // two pairs
        vec![
            Card { shape: 0, num: 0 },
            Card { shape: 1, num: 0 },
            Card { shape: 2, num: 4 },
            Card { shape: 3, num: 4 },
            Card { shape: 0, num: 9 },
        ],
        // three of a kind
        vec![
            Card { shape: 0, num: 0 },
            Card { shape: 1, num: 0 },
            Card { shape: 2, num: 0 },
            Card { shape: 3, num: 4 },
            Card { shape: 0, num: 9 },
        ],
        // straight
        vec![
            Card { shape: 0, num: 0 },
            Card { shape: 1, num: 1 },
            Card { shape: 2, num: 2 },
            Card { shape: 3, num: 3 },
            Card { shape: 0, num: 4 },
        ],
        // flush
        vec![
            Card { shape: 0, num: 0 },
            Card { shape: 0, num: 2 },
            Card { shape: 0, num: 4 },
            Card { shape: 0, num: 6 },
            Card { shape: 0, num: 9 },
        ],
        // full house
        vec![
            Card { shape: 0, num: 0 },
            Card { shape: 1, num: 0 },
            Card { shape: 2, num: 0 },
            Card { shape: 0, num: 4 },
            Card { shape: 1, num: 4 },
        ],
        // four of a kind
        vec![
            Card { shape: 0, num: 0 },
            Card { shape: 1, num: 0 },
            Card { shape: 2, num: 0 },
            Card { shape: 3, num: 0 },
            Card { shape: 0, num: 9 },
        ],
        // straight flush
        vec![
            Card { shape: 0, num: 0 },
            Card { shape: 0, num: 1 },
            Card { shape: 0, num: 2 },
            Card { shape: 0, num: 3 },
            Card { shape: 0, num: 4 },
        ],
    ];
    let grades: Vec<Grade> = pools.iter().map(|p| Grade::new(p)).collect();
    for i in 0..grades.len() {
        for j in 0..grades.len() {
            if i < j {
                assert!(grades[i] < grades[j]);
                assert!(grades[j] > grades[i]);
            } else if i == j {
                assert!(grades[i] == grades[j]);
            }
        }
    }
}

#[test]
fn tie_break_within_category() {
    // two one-pair hands: kings with queen kicker beat kings with jack kicker
    let stronger: Vec<Card> = vec![
        Card { shape: 0, num: 11 },
        Card { shape: 1, num: 11 },
        Card { shape: 2, num: 10 },
        Card { shape: 3, num: 5 },
        Card { shape: 0, num: 1 },
    ];
    let weaker: Vec<Card> = vec![
        Card { shape: 2, num: 11 },
        Card { shape: 3, num: 11 },
        Card { shape: 0, num: 9 },
        Card { shape: 1, num: 5 },
        Card { shape: 2, num: 1 },
    ];
    let gs = Grade::new(&stronger);
    let gw = Grade::new(&weaker);
    assert!(gw < gs);
    // suits never matter: the same ranks in other suits tie exactly
    let same_in_other_suits: Vec<Card> = vec![
        Card { shape: 2, num: 11 },
        Card { shape: 3, num: 11 },
        Card { shape: 0, num: 10 },
        Card { shape: 1, num: 5 },
        Card { shape: 3, num: 1 },
    ];
    assert!(gs == Grade::new(&same_in_other_suits));
}

#[test]
fn wheel_orders_between() {
    // the wheel: 5-4-3-2 with the ace played low
    let wheel_pool: Vec<Card> = vec![
        Card { shape: 0, num: 12 },
        Card { shape: 1, num: 0 },
        Card { shape: 2, num: 1 },
        Card { shape: 3, num: 2 },
        Card { shape: 0, num: 3 },
        Card { shape: 1, num: 11 },
        Card { shape: 2, num: 7 },
    ];
    let wheel = Grade::new(&wheel_pool);
    if let Grade::Straight(t) = wheel {
        assert_eq!(t.0.num, 3);
        assert_eq!(t.1.num, 2);
        assert_eq!(t.2.num, 1);
        assert_eq!(t.3.num, 0);
        assert_eq!(t.4.num, 12);
    } else {
        panic!("the wheel should grade as a straight");
    }
    // a 6-high straight
    let six_high_pool: Vec<Card> = vec![
        Card { shape: 0, num: 0 },
        Card { shape: 1, num: 1 },
        Card { shape: 2, num: 2 },
        Card { shape: 3, num: 3 },
        Card { shape: 0, num: 4 },
        Card { shape: 1, num: 11 },
        Card { shape: 2, num: 7 },
    ];
    let six_high = Grade::new(&six_high_pool);
    // three queens
    let trips_pool: Vec<Card> = vec![
        Card { shape: 0, num: 10 },
        Card { shape: 1, num: 10 },
        Card { shape: 2, num: 10 },
        Card { shape: 3, num: 5 },
        Card { shape: 0, num: 0 },
        Card { shape: 1, num: 1 },
        Card { shape: 2, num: 3 },
    ];
    let trips = Grade::new(&trips_pool);
    assert!(wheel < six_high);
    assert!(trips < wheel);
}

#[test]
fn judge_verdicts() {
    let pair_aces = Grade::new(&vec![
        Card { shape: 0, num: 12 },
        Card { shape: 1, num: 12 },
        Card { shape: 2, num: 4 },
        Card { shape: 3, num: 6 },
        Card { shape: 0, num: 9 },
    ]);
    let pair_aces_other_suits = Grade::new(&vec![
        Card { shape: 2, num: 12 },
        Card { shape: 3, num: 12 },
        Card { shape: 0, num: 4 },
        Card { shape: 1, num: 6 },
        Card { shape: 2, num: 9 },
    ]);
    let king_high = Grade::new(&vec![
        Card { shape: 0, num: 11 },
        Card { shape: 1, num: 2 },
        Card { shape: 2, num: 4 },
        Card { shape: 3, num: 6 },
        Card { shape: 0, num: 9 },
    ]);
    let trips_twos = Grade::new(&vec![
        Card { shape: 0, num: 0 },
        Card { shape: 1, num: 0 },
        Card { shape: 2, num: 0 },
        Card { shape: 3, num: 6 },
        Card { shape: 0, num: 9 },
    ]);
    assert_eq!(judge(&pair_aces, &vec![king_high]), Showdown::Win);
    assert_eq!(
        judge(&pair_aces, &vec![king_high, trips_twos]),
        Showdown::Lose
    );
    assert_eq!(
        judge(&pair_aces, &vec![king_high, pair_aces_other_suits]),
        Showdown::Draw
    );
    assert_eq!(judge(&pair_aces, &vec![]), Showdown::Win);
}

#[test]
fn grade_labels() {
    let g = Grade::new(&vec![
        Card { shape: 0, num: 11 },
        Card { shape: 1, num: 11 },
        Card { shape: 2, num: 10 },
        Card { shape: 3, num: 5 },
        Card { shape: 0, num: 1 },
    ]);
    let s = g.to_string();
    assert!(s.starts_with("One Pair"));
    assert!(s.contains("SK"));
    assert!(s.contains("DK"));
}

#[test]
fn front_cards_pin_collision_is_recoverable() {
    let mut game = HoldemGame::new(2);
    let kings = vec![Card { shape: 0, num: 11 }, Card { shape: 1, num: 11 }];
    assert!(game.set_front_cards(kings).is_ok());
    let hand_before = game.players[0].cards.clone();
    let cursor_before = game.deck.cursor;
    // the front slots are occupied now: the second pin fails and changes nothing
    let r = game.set_front_cards(vec![
        Card { shape: 0, num: 12 },
        Card { shape: 1, num: 12 },
    ]);
    assert!(r.is_err());
    assert_eq!(game.players[0].cards, hand_before);
    assert_eq!(game.deck.cursor, cursor_before);
    assert_eq!(game.deck.cards[0], Card { shape: 0, num: 11 });
    assert_eq!(game.deck.cards[1], Card { shape: 1, num: 11 });
}
