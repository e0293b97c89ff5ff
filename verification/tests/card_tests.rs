use twentyone::cards;
use twentyone::game;

fn hand(cards: &[&str]) -> Vec<[char; 2]> {
    cards
        .iter()
        .map(|s| {
            let v: Vec<char> = s.chars().collect();
            [v[0], v[1]]
        })
        .collect()
}

#[test]
fn deck_is_in_order_and_distinct() {
    let deck = cards::create_deck();
    assert_eq!(deck.len(), 52);
    assert_eq!(deck[0], ['S', '2']);
    assert_eq!(deck[12], ['S', 'A']);
    assert_eq!(deck[13], ['H', '2']);
    assert_eq!(deck[51], ['D', 'A']);
    for a in 0..52 {
        for b in (a + 1)..52 {
            assert_ne!(deck[a], deck[b]);
        }
    }
}

#[test]
fn shoe_is_decks_in_a_row() {
    let shoe = cards::create_shoe(6);
    let deck = cards::create_deck();
    assert_eq!(shoe.len(), 312);
    for k in 0..312 {
        assert_eq!(shoe[k], deck[k % 52]);
    }
    assert_eq!(cards::create_shoe(0).len(), 0);
}

#[test]
fn shuffle_keeps_the_cards() {
    let mut deck = cards::create_deck();
    cards::shuffle_deck(&mut deck);
    assert_eq!(deck.len(), 52);
    // a shuffled deck is almost never in its original order
    assert_ne!(deck, cards::create_deck());
    let mut sorted = deck.clone();
    sorted.sort();
    let mut fresh = cards::create_deck();
    fresh.sort();
    assert_eq!(sorted, fresh);
}

#[test]
fn drawing_from_an_empty_deck_fails() {
    let mut deck: Vec<[char; 2]> = Vec::new();
    assert_eq!(cards::draw_card(&mut deck), Err(()));
    let mut h = Vec::new();
    assert_eq!(cards::hit_card(&mut deck, &mut h), Err(()));
    assert!(h.is_empty());
}

#[test]
fn hit_moves_the_first_card() {
    let mut deck = hand(&["S2", "H3"]);
    let mut h = hand(&["DK"]);
    assert_eq!(cards::hit_card(&mut deck, &mut h), Ok(()));
    assert_eq!(h, hand(&["DK", "S2"]));
    assert_eq!(deck, hand(&["H3"]));
}

#[test]
fn hand_values() {
    assert_eq!(game::get_hand_value(&hand(&["SA", "SK"]), true), 21);
    assert_eq!(game::get_hand_value(&hand(&["SA", "HA"]), true), 12);
    assert_eq!(game::get_hand_value(&hand(&["SA", "HA"]), false), 22);
    assert_eq!(game::get_hand_value(&hand(&["S5", "H6"]), true), 11);
    assert_eq!(game::get_hand_value(&hand(&["SA", "H9", "CK"]), true), 20);
    assert_eq!(game::get_hand_value(&Vec::new(), true), 0);
    // at most one ace counts eleven, and only when the hand stays at 21 or under
    assert_eq!(game::get_hand_value(&hand(&["ST", "SA", "HA"]), true), 12);
    assert_eq!(game::get_hand_value(&hand(&["SA", "HA", "ST"]), true), 12);
    assert_eq!(game::get_hand_value(&hand(&["SA", "HA", "S9"]), true), 21);
    assert_eq!(game::get_hand_value(&hand(&["SA", "HA", "CA", "S8"]), true), 21);
    assert_eq!(game::get_hand_value(&hand(&["SA", "S6", "S5"]), true), 12);
    // unknown ranks count nothing
    assert_eq!(game::get_hand_value(&hand(&["S?", "S4"]), true), 4);
}

#[test]
fn hand_values_that_do_not_fit_a_byte() {
    let big: Vec<[char; 2]> = std::iter::repeat(['S', 'K']).take(26).collect();
    assert!(!game::hand_value_fits_in_byte(&big, true));
    let fits: Vec<[char; 2]> = std::iter::repeat(['S', 'K']).take(25).collect();
    assert!(game::hand_value_fits_in_byte(&fits, true));
    assert_eq!(game::get_hand_value(&fits, true), 250);
    let aces: Vec<[char; 2]> = std::iter::repeat(['S', 'A']).take(24).collect();
    assert!(!game::hand_value_fits_in_byte(&aces, false));
    assert!(game::hand_value_fits_in_byte(&aces, true));
    assert_eq!(game::get_hand_value(&aces, true), 24);
}

#[test]
fn hand_value_ignores_card_order() {
    let a = hand(&["SA", "H7", "CA", "D2"]);
    let b = hand(&["D2", "CA", "H7", "SA"]);
    assert_eq!(game::get_hand_value(&a, true), game::get_hand_value(&b, true));
    assert_eq!(game::get_hand_value(&a, false), game::get_hand_value(&b, false));
    assert_eq!(game::get_hand_value(&a, true), 21);
}

#[test]
fn splitting_needs_two_cards_of_a_rank() {
    assert!(game::can_split(&hand(&["S8", "H8"])));
    assert!(game::can_split(&hand(&["SK", "HK"])));
    assert!(!game::can_split(&hand(&["SK", "HQ"])));
    assert!(!game::can_split(&hand(&["S8", "H8", "C8"])));
    assert!(!game::can_split(&hand(&["S8"])));
}
