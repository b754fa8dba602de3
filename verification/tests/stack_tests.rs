use rand_distr::{Distribution, Normal};
use solitaire_cypher::{Card, Cards, JokerId, JokersPerDeck, MergeType, Suit};

fn new_deck_reference() -> Vec<Card> {
    let mut cards = Vec::new();
    for rank in 1u8..=13 {
        cards.push(rank_card(rank, Suit::Heart));
    }
    for rank in 1u8..=13 {
        cards.push(rank_card(rank, Suit::Club));
    }
    for rank in (1u8..=13).rev() {
        cards.push(rank_card(rank, Suit::Diamond));
    }
    for rank in (1u8..=13).rev() {
        cards.push(rank_card(rank, Suit::Spade));
    }
    cards.push(Card::Joker(JokerId::A));
    cards.push(Card::Joker(JokerId::B));
    cards
}

fn rank_card(rank: u8, suit: Suit) -> Card {
    match rank {
        1 => Card::Ace(suit),
        2 => Card::Two(suit),
        3 => Card::Three(suit),
        4 => Card::Four(suit),
        5 => Card::Five(suit),
        6 => Card::Six(suit),
        7 => Card::Seven(suit),
        8 => Card::Eight(suit),
        9 => Card::Nine(suit),
        10 => Card::Ten(suit),
        11 => Card::Jack(suit),
        12 => Card::Queen(suit),
        _ => Card::King(suit),
    }
}

// The riffle shuffle with an imprecise cut: the cut point is drawn from a
// normal distribution centred at the midpoint whose spread grows with the
// noise level, and the halves are merged by coin flips.
fn shuffle_noisy(deck: Cards, riffle_count: usize, noise: u8) -> Cards {
    let mut deck = deck;
    for _ in 0..riffle_count {
        let count = deck.len() as f64;
        let noise_f: f64 = noise as f64;
        let sd = 1.0 + (noise_f - 1.0) * (f64::sqrt(count) - 1.0) / 9.0;
        let normal = Normal::new(count / 2.0, sd).unwrap();
        let cut_point = normal.sample(&mut rand::thread_rng());
        let cut_point = cut_point as isize;
        let cut_point = match cut_point {
            cp if cp < 0 => 0usize,
            cp if cp > count as isize => count as usize,
            cp => cp as usize,
        };
        deck = deck.cut(cut_point).merge(MergeType::RANDOM);
    }
    deck
}

#[test]
fn test_new_cards() {
    let deck = Cards::new(1, JokersPerDeck::new(2).expect("new JokersPerDeck failed"));
    assert_eq!(deck.len(), 54, "new deck with jokers wrong length");
    let reference = new_deck_reference();
    for (i, card) in reference.iter().enumerate() {
        assert_eq!(
            *deck.look_at(i).unwrap(),
            *card,
            "new deck cards don't match ref array"
        );
    }
}

#[test]
fn test_raw_and_default_values() {
    let deck = Cards::new(1, JokersPerDeck::new(2).expect("new JokersPerDeck failed"));
    for (i, value) in deck.by_def_raw_values().iter().enumerate() {
        assert_eq!(usize::from(*value), i + 1, "broken raw value function");
    }
}

#[test]
fn test_rs_shuffle_metric_sanity() {
    let mut deck = Cards::new(1, JokersPerDeck::new(2).expect("new JokersPerDeck failed"));
    assert_eq!(
        deck.shuffle_rs_metric(),
        1,
        "New deck did not net rs_metric of 1"
    );
    deck.reverse();
    assert_eq!(
        deck.shuffle_rs_metric(),
        53,
        "New reversed deck did not get rs_metric of 53"
    );
    deck.reverse();
    // A noiseless riffle is a perfect in-shuffle.
    deck.in_shuffle(1);
    assert_eq!(
        deck.shuffle_rs_metric(),
        2,
        "New deck after one noiseless shuffle did not get rs_metric of 2"
    );
    deck.reverse();
    assert_eq!(
        deck.shuffle_rs_metric(),
        52,
        "New noiseless shuffle, reversed did not get rs_metric of 52"
    );
}

#[test]
fn test_rs_metric_and_fs_shuffle_statistics() {
    const ITER_COUNT: usize = 1000;
    let mut metrics = [0usize; ITER_COUNT];
    let mut deck_size: usize = 0;
    for metric in metrics.iter_mut() {
        let mut deck = Cards::new(1, JokersPerDeck::new(2).expect("new JokersPerDeck"));
        deck_size = deck.len();
        assert_eq!(
            deck_size % 2,
            0,
            "code assumption of even sized deck is broken"
        );
        deck.shuffle_fy();
        *metric = deck.shuffle_rs_metric();
    }
    let sum = metrics.iter().sum::<usize>() as f64;
    let mean = sum / ITER_COUNT as f64;
    assert_eq!((mean + 0.5) as usize, deck_size / 2);
}

#[test]
fn test_riffle_shuffles_and_fs_shuffle_statistics() {
    const ITER_COUNT: usize = 1000;
    let mut metrics = [0usize; ITER_COUNT];
    let mut deck_size: usize = 0;
    for metric in metrics.iter_mut() {
        let deck = Cards::new(1, JokersPerDeck::new(2).expect("new JokersPerDeck failed"));
        deck_size = deck.len();
        assert_eq!(
            deck_size % 2,
            0,
            "code assumption of even sized deck is broken"
        );
        let deck = shuffle_noisy(deck, 12, 5);
        *metric = deck.shuffle_rs_metric();
    }
    let sum = metrics.iter().sum::<usize>() as f64;
    let mean = sum / ITER_COUNT as f64;
    assert_eq!((mean + 0.5) as usize, deck_size / 2);
}

#[test]
fn test_in_out_shuffles() {
    let mut deck = Cards::new(1, JokersPerDeck::new(0).expect("new JokersPerDeck failed"));
    let reference_deck = Cards::new(1, JokersPerDeck::new(0).expect("new JokersPerDeck failed"));
    let deck_size = deck.len();
    assert_eq!(
        deck_size % 2,
        0,
        "code assumption of even sized deck is broken"
    );
    deck.in_shuffle(8);
    assert_ne!(deck, reference_deck);
    deck.in_shuffle(deck_size - 8);
    assert_eq!(deck, reference_deck);
    let mut deck = Cards::new(1, JokersPerDeck::new(0).expect("new JokersPerDeck failed"));
    deck.out_shuffle(8);
    assert_eq!(deck, reference_deck);
}

#[test]
fn test_cards_from_str() {
    let card_str = "AC QH FA FB";
    let cards = Cards::from_str(card_str);
    let cards = cards.expect("Illegal String");
    let new_card_str = cards.to_string();
    assert_eq!(new_card_str, "AC QH FA FB");
}

#[test]
fn test_cards_from_str_rejects_bad_tokens() {
    assert!(Cards::from_str("").is_err());
    assert!(Cards::from_str("A").is_err());
    assert!(Cards::from_str("AC  QH").is_err());
    assert!(Cards::from_str("AX").is_err());
    assert!(Cards::from_str("1C").is_err());
    assert!(Cards::from_str("FC").is_err());
    assert!(Cards::from_str("ACC").is_err());
}

#[test]
fn test_card_from_str_round_trip() {
    for token in ["AC", "TD", "QH", "2S", "9C", "KD", "JH", "FA", "FB"] {
        let card = Card::from_str(token).expect("card token should parse");
        assert_eq!(card.to_string(), token);
    }
}

#[test]
fn test_cut_boundaries() {
    let deck = Cards::new(1, JokersPerDeck::new(0).expect("new JokersPerDeck failed"));
    let halves = deck.cut(26);
    assert_eq!(halves.0.len(), 26);
    assert_eq!(halves.1.len(), 26);
    assert_eq!(*halves.1.look_at(0).unwrap(), Card::King(Suit::Diamond));

    let deck = Cards::new(1, JokersPerDeck::new(0).expect("new JokersPerDeck failed"));
    let halves = deck.cut(0);
    assert_eq!(halves.0.len(), 0);
    assert_eq!(halves.1.len(), 52);

    let deck = Cards::new(1, JokersPerDeck::new(0).expect("new JokersPerDeck failed"));
    let halves = deck.cut(99);
    assert_eq!(halves.0.len(), 52);
    assert_eq!(halves.1.len(), 0);
}

#[test]
fn test_merge_in_exact() {
    let deck = Cards::new(1, JokersPerDeck::new(0).expect("new JokersPerDeck failed"));
    let two_stacks = deck.cut(26);
    let deck = two_stacks.merge(MergeType::IN);
    assert_eq!(*deck.look_at(51).unwrap(), Card::King(Suit::Club));
    assert_eq!(*deck.look_at(50).unwrap(), Card::Ace(Suit::Spade));
    assert_eq!(*deck.look_at(0).unwrap(), Card::King(Suit::Diamond));
    assert_eq!(*deck.look_at(1).unwrap(), Card::Ace(Suit::Heart));
}

#[test]
fn test_merge_out_keeps_outer_cards() {
    let deck = Cards::new(1, JokersPerDeck::new(0).expect("new JokersPerDeck failed"));
    let two_stacks = deck.cut(26);
    let deck = two_stacks.merge(MergeType::OUT);
    assert_eq!(*deck.look_at(0).unwrap(), Card::Ace(Suit::Heart));
    assert_eq!(*deck.look_at(51).unwrap(), Card::Ace(Suit::Spade));
    assert_eq!(*deck.look_at(1).unwrap(), Card::King(Suit::Diamond));
}

#[test]
fn test_merge_random_is_permutation() {
    let deck = Cards::new(1, JokersPerDeck::new(2).expect("new JokersPerDeck failed"));
    let merged = deck.cut(27).merge(MergeType::RANDOM);
    assert_eq!(merged.len(), 54);
    let mut values = merged.by_def_raw_values();
    values.sort();
    let expected: Vec<u8> = (1..=54).collect();
    assert_eq!(values, expected);
}

#[test]
fn test_shuffle_fy_changes_order() {
    let mut deck = Cards::new(1, JokersPerDeck::new(0).expect("new JokersPerDeck failed"));
    let ref_deck = deck.clone();
    deck.shuffle_fy();
    assert_ne!(deck, ref_deck);
    let mut values = deck.by_def_raw_values();
    values.sort();
    let expected: Vec<u8> = (1..=52).collect();
    assert_eq!(values, expected);
}

#[test]
fn test_move_card_ring_semantics() {
    let mut deck = Cards::new(1, JokersPerDeck::new(0).expect("new JokersPerDeck failed"));
    assert_eq!(*deck.look_at(5).unwrap(), Card::Six(Suit::Heart));
    assert!(deck.move_card(Card::Six(Suit::Heart), 0, -5));
    assert_eq!(*deck.look_at(0).unwrap(), Card::Six(Suit::Heart));
    assert!(deck.move_card(Card::Six(Suit::Heart), 0, -1));
    assert_eq!(*deck.look_at(51).unwrap(), Card::Six(Suit::Heart));
    assert!(deck.move_card(Card::Six(Suit::Heart), 0, 1));
    assert_eq!(*deck.look_at(0).unwrap(), Card::Six(Suit::Heart));
    assert!(!deck.move_card(Card::Joker(JokerId::A), 0, 1));
}

#[test]
fn test_move_card_circular_boundary() {
    let mut deck = Cards::new(1, JokersPerDeck::new(0).expect("new JokersPerDeck failed"));
    assert_eq!(*deck.look_at(5).unwrap(), Card::Six(Suit::Heart));
    assert!(deck.move_card_circular(Card::Six(Suit::Heart), 0, -6));
    assert_eq!(*deck.look_at(50).unwrap(), Card::Six(Suit::Heart));
    let mut deck = Cards::new(1, JokersPerDeck::new(2).expect("new JokersPerDeck failed"));
    // A joker on the bottom moving one circular step lands just below the top.
    assert!(deck.move_card_circular(Card::Joker(JokerId::B), 0, 1));
    assert_eq!(*deck.look_at(1).unwrap(), Card::Joker(JokerId::B));
    assert!(!deck.move_card_circular(Card::Joker(JokerId::B), 1, 1));
}

#[test]
fn test_find_draw_and_look_at() {
    let mut deck = Cards::new(1, JokersPerDeck::new(2).expect("new JokersPerDeck failed"));
    assert_eq!(deck.find(Card::Five(Suit::Heart)).unwrap(), 4);
    assert_eq!(deck.find(Card::Joker(JokerId::B)).unwrap(), 53);
    assert!(deck.look_at(54).is_err());
    assert!(deck.look_at(53).is_ok());

    let hand = deck.draw_count(5).unwrap();
    assert_eq!(hand.len(), 5);
    assert_eq!(deck.len(), 49);
    assert!(deck.draw_count(50).is_err());
    assert_eq!(deck.len(), 49);

    let above = deck.draw_till(Card::Joker(JokerId::B)).unwrap();
    assert_eq!(above.len(), 48);
    assert_eq!(*deck.look_at(0).unwrap(), Card::Joker(JokerId::B));
    assert!(deck.draw_till(Card::Five(Suit::Heart)).is_none());
}

#[test]
fn test_append_and_reverse() {
    let mut deck = Cards::new(1, JokersPerDeck::new(0).expect("new JokersPerDeck failed"));
    let again = deck.clone();
    deck.append(again);
    assert_eq!(deck.len(), 2 * 52);
    let mut deck = Cards::new(1, JokersPerDeck::new(2).expect("new JokersPerDeck failed"));
    assert_eq!(*deck.look_at(0).unwrap(), Card::Ace(Suit::Heart));
    deck.reverse();
    assert_eq!(*deck.look_at(0).unwrap(), Card::Joker(JokerId::B));
    assert_eq!(*deck.look_at(53).unwrap(), Card::Ace(Suit::Heart));
}

#[test]
fn test_bounded_constructors() {
    assert!(JokersPerDeck::new(2).is_some());
    assert!(JokersPerDeck::new(3).is_none());
    assert!(solitaire_cypher::NoiseLevel::new(10).is_some());
    assert!(solitaire_cypher::NoiseLevel::new(11).is_none());
    assert!(solitaire_cypher::DefCardValue::new(0).is_none());
    assert!(solitaire_cypher::DefCardValue::new(1).is_some());
    assert!(solitaire_cypher::DefCardValue::new(54).is_some());
    assert!(solitaire_cypher::DefCardValue::new(55).is_none());
}

#[test]
fn test_default_values_and_next_in_sequence() {
    let ah = Card::Ace(Suit::Heart);
    assert_eq!(ah.default_value().get(), 1);
    let two_club = Card::Two(Suit::Club);
    assert_eq!(two_club.default_value().get(), 15);
    let jokers = JokersPerDeck::new(2).unwrap();
    assert_eq!(two_club.next_def_val_in_sequence(jokers).get(), 16);
    let fb = Card::Joker(JokerId::B);
    assert_eq!(fb.default_value().get(), 54);
    assert_eq!(fb.next_def_val_in_sequence(jokers).get(), 1);
    let ace_spade = Card::Ace(Suit::Spade);
    assert_eq!(ace_spade.default_value().get(), 52);
    let no_jokers = JokersPerDeck::new(0).unwrap();
    assert_eq!(ace_spade.next_def_val_in_sequence(no_jokers).get(), 1);
    assert_eq!(fb.value(), 53);
    assert_eq!(Card::Joker(JokerId::A).value(), 53);
    assert_eq!(ace_spade.value(), 52);
}

#[test]
fn test_multi_deck_construction() {
    let deck = Cards::new(2, JokersPerDeck::new(1).expect("new JokersPerDeck failed"));
    assert_eq!(deck.len(), 2 * 53);
    assert_eq!(*deck.look_at(0).unwrap(), Card::Ace(Suit::Heart));
    assert_eq!(*deck.look_at(52).unwrap(), Card::Joker(JokerId::A));
    assert_eq!(*deck.look_at(53).unwrap(), Card::Ace(Suit::Heart));
    let empty = Cards::new(0, JokersPerDeck::new(2).expect("new JokersPerDeck failed"));
    assert!(empty.is_empty());
}
