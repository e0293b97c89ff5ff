use std::cell::RefCell;
use twentyone::cards;
use twentyone::game;
use twentyone::game::{
    Dealer, DealerRequest, GameConfig, Phase, Player, PlayerAction, PlayerActionError, Prompt,
    Reply, Round,
};

/// What a scripted player saw, in order.
#[derive(Debug, Clone, PartialEq)]
enum Seen {
    Bet,
    Play(usize),
    UpCard([char; 2]),
    HitCard([char; 2]),
    DealerHand(Vec<[char; 2]>),
    NotEnoughMoney(usize),
    Unexpected(usize),
}

fn seen(request: &DealerRequest) -> Seen {
    match request {
        DealerRequest::Bet => Seen::Bet,
        DealerRequest::Play(j) => Seen::Play(*j),
        DealerRequest::UpCard(c) => Seen::UpCard(*c),
        DealerRequest::HitCard(c) => Seen::HitCard(*c),
        DealerRequest::DealerHand(h) => Seen::DealerHand(h.clone()),
        DealerRequest::Error(PlayerActionError::NotEnoughMoney(j, _)) => Seen::NotEnoughMoney(*j),
        DealerRequest::Error(PlayerActionError::UnexpectedAction(j, _)) => Seen::Unexpected(*j),
    }
}

/// Runs one round; `answer` gives the answers to bets and plays, in order.
/// Returns what the player saw.
fn run(dealer: &mut Dealer, answers: Vec<PlayerAction>, payout: f32) -> Vec<Seen> {
    let log = RefCell::new(Vec::new());
    let answers = RefCell::new(answers.into_iter());
    let mut round = Round::new(true);
    let mut reply = Reply::Proceed;
    loop {
        assert!(dealer.can_step(&round, &reply));
        match dealer.step(&mut round, reply) {
            Prompt::Ask(request, player) => {
                let s = seen(&request);
                match s {
                    Seen::Bet | Seen::Play(_) => assert!(player.is_some()),
                    Seen::UpCard(_) | Seen::HitCard(_) | Seen::DealerHand(_) => {
                        assert!(player.is_none())
                    }
                    _ => assert!(player.is_some()),
                }
                let a = match s {
                    Seen::Bet | Seen::Play(_) => answers.borrow_mut().next().unwrap(),
                    _ => PlayerAction::NoAction,
                };
                log.borrow_mut().push(s);
                reply = Reply::Action(a);
            }
            Prompt::Continue => reply = Reply::Proceed,
            Prompt::Bonuses(bets) => {
                reply = Reply::Bonuses(bets.iter().map(|b| (*b as f32 * payout) as i32).collect())
            }
            Prompt::Done => break,
        }
    }
    log.into_inner()
}

fn c(s: &str) -> [char; 2] {
    let v: Vec<char> = s.chars().collect();
    [v[0], v[1]]
}

fn shoe(cards: &[&str]) -> Vec<[char; 2]> {
    cards.iter().map(|s| c(s)).collect()
}

fn table(cards: &[&str], money: i32) -> Dealer {
    let mut d = Dealer::new(shoe(cards), GameConfig::default());
    d.players_mut().push(Player::new(money));
    d
}

fn money(d: &Dealer) -> i32 {
    *d.players()[0].money()
}

#[test]
fn blackjack_pays_bet_and_bonus() {
    // dealer 9 8, player A K
    let mut d = table(&["S9", "SA", "S8", "SK"], 100);
    let log = run(&mut d, vec![PlayerAction::Bet(10), PlayerAction::Stand], 1.5);
    assert_eq!(money(&d), 115);
    assert_eq!(
        log,
        vec![
            Seen::Bet,
            Seen::UpCard(c("S8")),
            Seen::Play(0),
            Seen::DealerHand(shoe(&["S9", "S8"]))
        ]
    );
}

#[test]
fn dealer_bust_pays_double() {
    // dealer 6 9 then K, player T 8
    let mut d = table(&["S6", "ST", "S9", "S8", "SK"], 100);
    let log = run(&mut d, vec![PlayerAction::Bet(10), PlayerAction::Stand], 1.5);
    assert_eq!(money(&d), 110);
    assert!(log.contains(&Seen::HitCard(c("SK"))));
    assert_eq!(d.hand().len(), 3);
    assert_eq!(d.shoe().len(), 0);
}

#[test]
fn tie_refunds_and_loss_keeps_bet() {
    let mut d = table(&["ST", "HT", "S8", "H8"], 100);
    run(&mut d, vec![PlayerAction::Bet(10), PlayerAction::Stand], 1.5);
    assert_eq!(money(&d), 100);
    let mut d = table(&["ST", "HT", "S9", "H8"], 100);
    run(&mut d, vec![PlayerAction::Bet(10), PlayerAction::Stand], 1.5);
    assert_eq!(money(&d), 90);
}

#[test]
fn double_down_doubles_the_bet_and_takes_one_card() {
    // dealer T 7, player 5 6, double gets T: 21 with three cards
    let mut d = table(&["ST", "S5", "S7", "S6", "HT"], 100);
    let log = run(&mut d, vec![PlayerAction::Bet(10), PlayerAction::DoubleDown], 1.5);
    assert_eq!(money(&d), 120);
    assert_eq!(d.players()[0].hands()[0].len(), 3);
    // a double down ends the hand: one play asked
    assert_eq!(log.iter().filter(|s| **s == Seen::Play(0)).count(), 1);
}

#[test]
fn split_plays_two_hands() {
    // dealer T 7, player 8 8; after the split each hand gets a card: 3 and 2
    let mut d = table(&["ST", "S8", "S7", "H8", "C3", "C2"], 100);
    let log = run(
        &mut d,
        vec![
            PlayerAction::Bet(10),
            PlayerAction::Split,
            PlayerAction::Stand,
            PlayerAction::Stand,
        ],
        1.5,
    );
    let hands = d.players()[0].hands();
    assert_eq!(hands.len(), 2);
    // the first card of the pair moves to the new hand
    assert_eq!(hands[0], shoe(&["H8", "C3"]));
    assert_eq!(hands[1], shoe(&["S8", "C2"]));
    assert!(log.contains(&Seen::Play(1)));
    // both hands (11 and 10) lose to 17: the two bets are gone
    assert_eq!(money(&d), 80);
}

#[test]
fn split_needs_a_pair() {
    let mut d = table(&["ST", "S8", "S7", "H9"], 100);
    let log = run(
        &mut d,
        vec![PlayerAction::Bet(10), PlayerAction::Split, PlayerAction::Stand],
        1.5,
    );
    assert!(log.contains(&Seen::Unexpected(0)));
    // after the error, the same play is asked again
    let at = log.iter().position(|s| *s == Seen::Unexpected(0)).unwrap();
    assert_eq!(log[at + 1], Seen::Play(0));
    // 17 ties the dealer's 17
    assert_eq!(money(&d), 100);
}

#[test]
fn bets_beyond_the_purse_are_refused() {
    let mut d = table(&["ST", "S8", "S7", "H9"], 100);
    let log = run(
        &mut d,
        vec![
            PlayerAction::Bet(200),
            PlayerAction::Hit,
            PlayerAction::Bet(10),
            PlayerAction::Stand,
        ],
        1.5,
    );
    assert_eq!(log[0], Seen::Bet);
    assert_eq!(log[1], Seen::NotEnoughMoney(0));
    assert_eq!(log[2], Seen::Bet);
    assert_eq!(log[3], Seen::Unexpected(0));
    assert_eq!(log[4], Seen::Bet);
    assert_eq!(money(&d), 100);
}

#[test]
fn no_card_is_lost_in_a_round() {
    let mut deck = cards::create_deck();
    cards::shuffle_deck(&mut deck);
    let mut d = Dealer::new(deck, GameConfig::default());
    d.players_mut().push(Player::new(1000));
    d.players_mut().push(Player::new(1000));
    let answers = vec![
        PlayerAction::Bet(10),
        PlayerAction::Bet(20),
        PlayerAction::Stand,
        PlayerAction::Stand,
    ];
    run(&mut d, answers, 1.5);
    let mut count = d.shoe().len() + d.hand().len();
    for p in d.players() {
        for h in p.hands() {
            count += h.len();
        }
    }
    assert_eq!(count, 52);
}

#[test]
fn a_table_without_enough_cards_cannot_show_an_up_card() {
    let mut d = Dealer::new(Vec::new(), GameConfig::default());
    let mut round = Round::new(true);
    assert!(d.can_step(&round, &Reply::Proceed));
    assert!(matches!(d.step(&mut round, Reply::Proceed), Prompt::Continue));
    assert!(matches!(round.phase(), Phase::Deal));
    assert!(matches!(d.step(&mut round, Reply::Proceed), Prompt::Continue));
    assert!(matches!(round.phase(), Phase::ShowUpCard));
    assert!(!d.can_step(&round, &Reply::Proceed));
    // a reply of the wrong kind is refused too
    let round = Round::new(false);
    assert!(!d.can_step(&round, &Reply::Action(PlayerAction::Hit)));
}

#[test]
fn soft_17_is_hit_when_the_dealer_does_not_stand_on_it() {
    let config = GameConfig {
        stand_soft_17: false,
        splitting: true,
        doubling_down: true,
        double_after_split: true,
    };
    // dealer A 6 (soft 17) takes the 2 and stops at 19; player T 9
    let mut d = Dealer::new(shoe(&["SA", "ST", "S6", "S9", "H2", "H3"]), config);
    d.players_mut().push(Player::new(100));
    let log = run(&mut d, vec![PlayerAction::Bet(10), PlayerAction::Stand], 1.5);
    assert!(log.contains(&Seen::HitCard(c("H2"))));
    assert_eq!(d.hand().len(), 3);
    assert_eq!(d.shoe().len(), 1);
    // player 19 ties the dealer's 19
    assert_eq!(money(&d), 100);
}

#[test]
fn clear_table_keeps_money_and_one_empty_hand() {
    let mut d = table(&["S2", "S3", "S4", "S5"], 50);
    d.deal_hands();
    assert_eq!(d.hand().len(), 2);
    assert_eq!(d.players()[0].hands()[0], shoe(&["S3", "S5"]));
    d.clear_table();
    assert_eq!(d.hand().len(), 0);
    assert_eq!(d.players()[0].hands().len(), 1);
    assert_eq!(d.players()[0].hands()[0].len(), 0);
    assert_eq!(money(&d), 50);
}

#[test]
fn dealer_hit_card_goes_to_the_named_hand() {
    let mut d = table(&["S2", "S3"], 50);
    d.players_mut()[0].hands_mut().push(Vec::new());
    d.hit_card(0, 1);
    assert_eq!(d.players()[0].hands()[1], shoe(&["S2"]));
    assert_eq!(d.shoe().len(), 1);
}

#[test]
fn player_accessors() {
    let mut p = Player::new(100);
    assert_eq!(*p.money(), 100);
    assert_eq!(p.hands().len(), 1);
    *p.money_mut() -= 30;
    p.hands_mut().push(vec![c("SA")]);
    assert_eq!(*p.money(), 70);
    assert_eq!(p.hands().len(), 2);
    let d = Dealer::new(shoe(&["S2"]), GameConfig::default());
    assert_eq!(d.shoe().len(), 1);
    assert_eq!(d.players().len(), 0);
    let _ = game::hand_value_fits_in_byte(&Vec::new(), true);
}

#[test]
fn dealing_goes_round_the_table_twice() {
    let mut d = Dealer::new(shoe(&["S2", "S3", "S4", "S5", "S6", "S7", "S8"]), GameConfig::default());
    d.players_mut().push(Player::new(10));
    d.players_mut().push(Player::new(10));
    d.deal_hands();
    assert_eq!(*d.hand(), shoe(&["S2", "S5"]));
    assert_eq!(d.players()[0].hands()[0], shoe(&["S3", "S6"]));
    assert_eq!(d.players()[1].hands()[0], shoe(&["S4", "S7"]));
    assert_eq!(*d.shoe(), shoe(&["S8"]));
}

fn hits_soft_17() -> GameConfig {
    GameConfig {
        stand_soft_17: false,
        splitting: true,
        doubling_down: true,
        double_after_split: true,
    }
}

#[test]
fn the_dealer_plays_on_after_hitting_a_soft_17() {
    // dealer A 6 (soft 17) takes the 5: A 6 5 is 12, so it takes the T and busts at 22
    let mut d = Dealer::new(shoe(&["SA", "ST", "S6", "S9", "H5", "HT"]), hits_soft_17());
    d.players_mut().push(Player::new(100));
    let log = run(&mut d, vec![PlayerAction::Bet(10), PlayerAction::Stand], 1.5);
    assert!(log.contains(&Seen::HitCard(c("H5"))));
    assert!(log.contains(&Seen::HitCard(c("HT"))));
    assert_eq!(game::get_hand_value(d.hand(), true), 22);
    // the dealer's bust pays the player's 19 twice its bet
    assert_eq!(money(&d), 110);
}

#[test]
fn a_double_down_needs_money_for_it() {
    // 20 in all: a bet of 10 and a split take it all, so no hand may double
    let mut d = table(&["ST", "S8", "S7", "H8", "C3", "C2"], 20);
    let log = run(
        &mut d,
        vec![
            PlayerAction::Bet(10),
            PlayerAction::Split,
            PlayerAction::DoubleDown,
            PlayerAction::Stand,
            PlayerAction::DoubleDown,
            PlayerAction::Stand,
        ],
        1.5,
    );
    assert_eq!(log.iter().filter(|s| **s == Seen::Unexpected(0)).count(), 1);
    assert_eq!(log.iter().filter(|s| **s == Seen::Unexpected(1)).count(), 1);
    assert_eq!(d.players()[0].hands()[0].len(), 2);
    assert_eq!(d.players()[0].hands()[1].len(), 2);
    // both hands lose to 17; the money never went below zero
    assert_eq!(money(&d), 0);
}

#[test]
fn a_pair_that_took_a_card_cannot_split() {
    // player 4 4 takes a 2, then asks to split
    let mut d = table(&["ST", "S4", "S7", "H4", "C2"], 100);
    let log = run(
        &mut d,
        vec![
            PlayerAction::Bet(10),
            PlayerAction::Hit,
            PlayerAction::Split,
            PlayerAction::Stand,
        ],
        1.5,
    );
    assert!(log.contains(&Seen::Unexpected(0)));
    assert_eq!(d.players()[0].hands().len(), 1);
    assert_eq!(d.players()[0].hands()[0].len(), 3);
    assert_eq!(money(&d), 90);
}

#[test]
fn split_hands_are_paid_out_of_the_whole_bet() {
    // the bet is 20 after the split; two pushing hands of 17: each refunds the whole bet
    let mut d = table(&["ST", "S8", "S7", "H8", "C9", "D9"], 100);
    run(
        &mut d,
        vec![PlayerAction::Bet(10), PlayerAction::Split, PlayerAction::Stand, PlayerAction::Stand],
        1.5,
    );
    assert_eq!(money(&d), 120);
    // two winning hands of 18: each pays twice the bet shared between the two hands
    let mut d = table(&["ST", "S8", "S7", "H8", "CJ", "DJ"], 100);
    run(
        &mut d,
        vec![PlayerAction::Bet(10), PlayerAction::Split, PlayerAction::Stand, PlayerAction::Stand],
        1.5,
    );
    assert_eq!(money(&d), 120);
}

#[test]
fn a_doubled_split_hand_is_paid_out_of_the_whole_bet() {
    // the bet is 30 after the split and the double down;
    // hand 0 (8 then 3: 11) doubles and takes a T: a three-card 21 beats 17 and pays 2 * 30 / 2;
    // hand 1 (8 then 2: 10) stands and loses
    let mut d = table(&["ST", "S8", "S7", "H8", "C3", "C2", "HT"], 100);
    let mut round = Round::new(true);
    let mut reply = Reply::Proceed;
    let mut answers = vec![
        PlayerAction::Bet(10),
        PlayerAction::Split,
        PlayerAction::DoubleDown,
        PlayerAction::Stand,
    ]
    .into_iter();
    loop {
        assert!(d.can_step(&round, &reply));
        match d.step(&mut round, reply) {
            Prompt::Ask(DealerRequest::Bet, _) | Prompt::Ask(DealerRequest::Play(_), _) => {
                reply = Reply::Action(answers.next().unwrap())
            }
            Prompt::Ask(_, _) => reply = Reply::Action(PlayerAction::NoAction),
            Prompt::Continue => reply = Reply::Proceed,
            Prompt::Bonuses(bets) => {
                assert_eq!(bets, vec![30]);
                reply = Reply::Bonuses(vec![45]);
            }
            Prompt::Done => break,
        }
    }
    assert_eq!(*round.bets(), vec![30]);
    assert_eq!(money(&d), 100);
}

#[test]
fn a_round_deals_from_the_front_of_the_shoe() {
    let start = shoe(&[
        "S5", "H9", "D2", "C7", "ST", "H4", "D6", "C3", "SK", "H8", "DA", "C9", "S2", "HQ",
    ]);
    let mut d = Dealer::new(start.clone(), GameConfig::default());
    d.players_mut().push(Player::new(100));
    d.players_mut().push(Player::new(100));
    let answers = vec![
        PlayerAction::Bet(10),
        PlayerAction::Bet(10),
        PlayerAction::Hit,
        PlayerAction::Stand,
        PlayerAction::Stand,
    ];
    run(&mut d, answers, 1.5);
    let k = start.len() - d.shoe().len();
    assert_eq!(d.shoe().to_vec(), start[k..].to_vec());
    let mut held: Vec<[char; 2]> = d.hand().to_vec();
    for p in d.players() {
        for h in p.hands() {
            held.extend(h.iter().cloned());
        }
    }
    let mut taken = start[..k].to_vec();
    held.sort();
    taken.sort();
    assert_eq!(held, taken);
    assert!(k >= 6);
}
