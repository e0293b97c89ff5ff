//! Properties of the library that span its functions, proved over the
//! models that the functions' contracts use.
use crate::game::{
    ace_count, all_have_hands, is_soft, base_points, cleared, consistent, deal_pass, dealer_hits, dealt, fresh_round, hand_value, hit,
    hit_dealer, hit_first_hands, hit_player, next, trunc_div, PlayerActionError, player_settles, ready, settled, split_hand,
    hand_value_fits, may_double, may_split, pair_opened, opened_pair, player_winnings, winnings, rank_points, with_money, DealerModel, Phase, PlayerAction, PlayerModel, PromptModel,
    ReplyModel, RequestModel, RoundModel,
};
use crate::cards::{fresh_card, fresh_deck, fresh_shoe};
use vstd::multiset::Multiset;
use vstd::prelude::*;

verus! {

// ------------------------------------------------------------------
// The shape of the table
// ------------------------------------------------------------------

/// Every player keeps their number of hands.
pub open spec fn same_shape(a: DealerModel, b: DealerModel) -> bool {
    &&& a.players.len() == b.players.len()
    &&& forall|i: int|
        0 <= i < a.players.len() ==> #[trigger] a.players[i].hands.len()
            == b.players[i].hands.len()
}

proof fn lemma_hit_player_shape(d: DealerModel, i: int, j: int)
    requires
        0 <= i < d.players.len(),
        0 <= j < d.players[i].hands.len(),
    ensures
        same_shape(hit_player(d, i, j), d),
        hit_player(d, i, j).hand == d.hand,
        hit_player(d, i, j).config == d.config,
        forall|k: int| 0 <= k < d.players.len() ==> #[trigger] hit_player(d, i, j).players[k].money == d.players[k].money,
{
}

proof fn lemma_hit_first_hands_keeps_shape(d: DealerModel, k: nat)
    requires
        k <= d.players.len(),
        all_have_hands(d.players),
    ensures
        same_shape(hit_first_hands(d, k), d),
        hit_first_hands(d, k).hand == d.hand,
        hit_first_hands(d, k).config == d.config,
        forall|i: int| 0 <= i < d.players.len() ==> #[trigger] hit_first_hands(d, k).players[i].money == d.players[i].money,
    decreases k,
{
    if k > 0 {
        lemma_hit_first_hands_keeps_shape(d, (k - 1) as nat);
        lemma_hit_player_shape(hit_first_hands(d, (k - 1) as nat), k - 1, 0);
    }
}

proof fn lemma_dealt_shape(d: DealerModel)
    requires
        all_have_hands(d.players),
    ensures
        same_shape(dealt(d), d),
        dealt(d).config == d.config,
        forall|i: int| 0 <= i < d.players.len() ==> #[trigger] dealt(d).players[i].money == d.players[i].money,
{
    let d1 = hit_dealer(d);
    lemma_hit_first_hands_keeps_shape(d1, d.players.len());
    let d2 = deal_pass(d);
    assert(all_have_hands(d2.players)) by {
        assert forall|i: int| 0 <= i < d2.players.len() implies #[trigger] d2.players[i].hands.len() >= 1 by {
            assert(d2.players[i].hands.len() == d1.players[i].hands.len());
        }
    }
    lemma_hit_first_hands_keeps_shape(hit_dealer(d2), d2.players.len());
}

// ------------------------------------------------------------------
// The round agrees with the table at every step
// ------------------------------------------------------------------

/// Every step that may be taken leaves the round agreeing with the table
/// (`consistent`): the bets match the players who have bet, and the turn in
/// progress fits the current player's hands.
pub proof fn lemma_step_keeps_consistent(d: DealerModel, r: RoundModel, reply: ReplyModel)
    requires
        ready(d, r, reply),
    ensures
        consistent(next(d, r, reply).dealer, next(d, r, reply).round),
{
    let s = next(d, r, reply);
    match r.phase {
        Phase::Deal => {
            lemma_dealt_shape(d);
        },
        Phase::Play { player, hand } => {
            let i = player as int;
            let j = hand as int;
            match reply {
                ReplyModel::Action(a) => match a {
                    PlayerAction::Hit => {
                        lemma_hit_player_shape(d, i, j);
                    },
                    PlayerAction::DoubleDown => {
                        if may_double(d, r, i, j) {
                            let d1 = with_money(d, i, (d.players[i].money - r.original_bet) as i32);
                            lemma_hit_player_shape(d1, i, j);
                        }
                    },
                    PlayerAction::Split => {
                        if may_split(d, r, i) {
                            let d1 = pair_opened(d, r, i);
                            lemma_hit_player_shape(d1, i, 0);
                            lemma_hit_player_shape(hit_player(d1, i, 0), i, 1);
                        }
                    },
                    _ => {},
                },
                _ => {},
            }
        },
        _ => {},
    }
}


// ------------------------------------------------------------------
// No card is made or lost
// ------------------------------------------------------------------

/// The cards of a list of hands.
pub open spec fn hands_cards(hands: Seq<Seq<[char; 2]>>) -> Multiset<[char; 2]>
    decreases hands.len(),
{
    if hands.len() == 0 {
        Multiset::empty()
    } else {
        hands_cards(hands.drop_last()).add(hands.last().to_multiset())
    }
}

/// The cards in the hands of a list of players.
pub open spec fn players_cards(players: Seq<PlayerModel>) -> Multiset<[char; 2]>
    decreases players.len(),
{
    if players.len() == 0 {
        Multiset::empty()
    } else {
        players_cards(players.drop_last()).add(hands_cards(players.last().hands))
    }
}

/// Every card at the table: in the shoe, in the dealer's hand, in the players' hands.
pub open spec fn table_cards(d: DealerModel) -> Multiset<[char; 2]> {
    d.shoe.to_multiset().add(d.hand.to_multiset()).add(players_cards(d.players))
}

/// Hitting a card moves it from the shoe to the hand: together they hold the same cards.
pub proof fn lemma_hit_keeps_cards(shoe: Seq<[char; 2]>, hand: Seq<[char; 2]>)
    ensures
        hit(shoe, hand).0.to_multiset().add(hit(shoe, hand).1.to_multiset()) == shoe.to_multiset().add(
            hand.to_multiset(),
        ),
{
    broadcast use vstd::seq_lib::group_to_multiset_ensures;
    broadcast use vstd::multiset::group_multiset_axioms;

    if shoe.len() > 0 {
        assert(shoe.drop_first() =~= shoe.remove(0));
        assert(shoe.to_multiset() =~= shoe.drop_first().to_multiset().insert(shoe[0]));
        assert(hand.push(shoe[0]).to_multiset() =~= hand.to_multiset().insert(shoe[0]));
        assert(hit(shoe, hand).0.to_multiset().add(hit(shoe, hand).1.to_multiset()) =~= shoe.to_multiset().add(
            hand.to_multiset(),
        ));
    }
}

proof fn lemma_hands_cards_update(hands: Seq<Seq<[char; 2]>>, k: int, h: Seq<[char; 2]>)
    requires
        0 <= k < hands.len(),
    ensures
        hands_cards(hands.update(k, h)).add(hands[k].to_multiset()) == hands_cards(hands).add(
            h.to_multiset(),
        ),
    decreases hands.len(),
{
    broadcast use vstd::multiset::group_multiset_axioms;

    let u = hands.update(k, h);
    let a = hands_cards(u);
    let b = hands_cards(hands);
    let hk = hands[k].to_multiset();
    let hm = h.to_multiset();
    assert(a == hands_cards(u.drop_last()).add(u.last().to_multiset()));
    assert(b == hands_cards(hands.drop_last()).add(hands.last().to_multiset()));
    if k == hands.len() - 1 {
        assert(u.drop_last() =~= hands.drop_last());
        assert forall|v| #[trigger] a.add(hk).count(v) == b.add(hm).count(v) by {}
    } else {
        lemma_hands_cards_update(hands.drop_last(), k, h);
        assert(u.drop_last() =~= hands.drop_last().update(k, h));
        let c = hands_cards(hands.drop_last().update(k, h));
        let e = hands_cards(hands.drop_last());
        assert(c.add(hk) == e.add(hm));
        assert forall|v| #[trigger] a.add(hk).count(v) == b.add(hm).count(v) by {
            assert(c.add(hk).count(v) == e.add(hm).count(v));
        }
    }
    assert(a.add(hk) =~= b.add(hm));
}

proof fn lemma_players_cards_update(players: Seq<PlayerModel>, k: int, p: PlayerModel)
    requires
        0 <= k < players.len(),
    ensures
        players_cards(players.update(k, p)).add(hands_cards(players[k].hands)) == players_cards(
            players,
        ).add(hands_cards(p.hands)),
    decreases players.len(),
{
    broadcast use vstd::multiset::group_multiset_axioms;

    let u = players.update(k, p);
    let a = players_cards(u);
    let b = players_cards(players);
    let hk = hands_cards(players[k].hands);
    let hm = hands_cards(p.hands);
    assert(a == players_cards(u.drop_last()).add(hands_cards(u.last().hands)));
    assert(b == players_cards(players.drop_last()).add(hands_cards(players.last().hands)));
    if k == players.len() - 1 {
        assert(u.drop_last() =~= players.drop_last());
        assert forall|v| #[trigger] a.add(hk).count(v) == b.add(hm).count(v) by {}
    } else {
        lemma_players_cards_update(players.drop_last(), k, p);
        assert(u.drop_last() =~= players.drop_last().update(k, p));
        let c = players_cards(players.drop_last().update(k, p));
        let e = players_cards(players.drop_last());
        assert(c.add(hk) == e.add(hm));
        assert forall|v| #[trigger] a.add(hk).count(v) == b.add(hm).count(v) by {
            assert(c.add(hk).count(v) == e.add(hm).count(v));
        }
    }
    assert(a.add(hk) =~= b.add(hm));
}

proof fn lemma_players_cards_same_hands(a: Seq<PlayerModel>, b: Seq<PlayerModel>)
    requires
        a.len() == b.len(),
        forall|i: int| 0 <= i < a.len() ==> #[trigger] a[i].hands == b[i].hands,
    ensures
        players_cards(a) == players_cards(b),
    decreases a.len(),
{
    if a.len() > 0 {
        lemma_players_cards_same_hands(a.drop_last(), b.drop_last());
        assert(a.last().hands == b.last().hands);
    }
}

proof fn lemma_hit_player_keeps_cards(d: DealerModel, i: int, j: int)
    requires
        0 <= i < d.players.len(),
        0 <= j < d.players[i].hands.len(),
    ensures
        table_cards(hit_player(d, i, j)) == table_cards(d),
{
    broadcast use vstd::multiset::group_multiset_axioms;

    let hands = d.players[i].hands;
    let (shoe2, h2) = hit(d.shoe, hands[j]);
    let p2 = PlayerModel { money: d.players[i].money, hands: hands.update(j, h2) };
    lemma_hit_keeps_cards(d.shoe, hands[j]);
    lemma_hands_cards_update(hands, j, h2);
    lemma_players_cards_update(d.players, i, p2);
    let d2 = hit_player(d, i, j);
    assert(d2.players == d.players.update(i, p2));
    assert(d2.shoe == shoe2);
    let x = players_cards(d2.players);
    let pc = players_cards(d.players);
    let hc = hands_cards(hands);
    let hc2 = hands_cards(p2.hands);
    let hj = hands[j].to_multiset();
    let h2m = h2.to_multiset();
    assert(x.add(hc) == pc.add(hc2));
    assert(hands_cards(hands.update(j, h2)).add(hj) == hc.add(h2m));
    assert(shoe2.to_multiset().add(h2m) == d.shoe.to_multiset().add(hj));
    assert forall|v| #[trigger] table_cards(d2).count(v) == table_cards(d).count(v) by {
        assert(x.add(hc).count(v) == pc.add(hc2).count(v));
        assert(hc2.add(hj).count(v) == hc.add(h2m).count(v));
        assert(shoe2.to_multiset().add(h2m).count(v) == d.shoe.to_multiset().add(hj).count(v));
    }
    assert(table_cards(d2) =~= table_cards(d));
}

proof fn lemma_with_money_keeps_cards(d: DealerModel, i: int, m: i32)
    requires
        0 <= i < d.players.len(),
    ensures
        table_cards(with_money(d, i, m)) == table_cards(d),
{
    lemma_players_cards_same_hands(with_money(d, i, m).players, d.players);
}

proof fn lemma_hit_first_hands_keeps_cards(d: DealerModel, k: nat)
    requires
        k <= d.players.len(),
        all_have_hands(d.players),
    ensures
        table_cards(hit_first_hands(d, k)) == table_cards(d),
    decreases k,
{
    if k > 0 {
        lemma_hit_first_hands_keeps_cards(d, (k - 1) as nat);
        lemma_hit_first_hands_keeps_shape(d, (k - 1) as nat);
        lemma_hit_player_keeps_cards(hit_first_hands(d, (k - 1) as nat), k - 1, 0);
    }
}

proof fn lemma_dealt_keeps_cards(d: DealerModel)
    requires
        all_have_hands(d.players),
    ensures
        table_cards(dealt(d)) == table_cards(d),
{
    broadcast use vstd::multiset::group_multiset_axioms;

    let d1 = hit_dealer(d);
    lemma_hit_keeps_cards(d.shoe, d.hand);
    assert(table_cards(d1) =~= table_cards(d));
    lemma_hit_first_hands_keeps_cards(d1, d.players.len());
    lemma_hit_first_hands_keeps_shape(d1, d.players.len());
    let d2 = deal_pass(d);
    assert(all_have_hands(d2.players)) by {
        assert forall|i: int| 0 <= i < d2.players.len() implies #[trigger] d2.players[i].hands.len() >= 1 by {
            assert(d2.players[i].hands.len() == d1.players[i].hands.len());
        }
    }
    let d3 = hit_dealer(d2);
    lemma_hit_keeps_cards(d2.shoe, d2.hand);
    assert(table_cards(d3) =~= table_cards(d2));
    lemma_hit_first_hands_keeps_cards(d3, d2.players.len());
}


proof fn lemma_no_cards()
    ensures
        Seq::<[char; 2]>::empty().to_multiset() =~= Multiset::empty(),
{
    broadcast use vstd::seq_lib::group_to_multiset_ensures;
    vstd::multiset::lemma_multiset_empty_len(Seq::<[char; 2]>::empty().to_multiset());
}

proof fn lemma_hands_cards_push_empty(hands: Seq<Seq<[char; 2]>>)
    ensures
        hands_cards(hands.push(Seq::empty())) == hands_cards(hands),
{
    broadcast use vstd::multiset::group_multiset_axioms;

    let o = hands.push(Seq::<[char; 2]>::empty());
    assert(o.drop_last() =~= hands);
    lemma_no_cards();
    assert(hands_cards(o) =~= hands_cards(hands));
}

proof fn lemma_split_keeps_cards(d: DealerModel, r: RoundModel, i: int, j: int)
    requires
        0 <= i < d.players.len(),
        d.players[i].hands.len() >= 1,
        d.players[i].hands[0].len() >= 1,
    ensures
        table_cards(split_hand(d, r, i, j).dealer) == table_cards(d),
{
    broadcast use vstd::multiset::group_multiset_axioms;
    broadcast use vstd::seq_lib::group_to_multiset_ensures;

    let p = d.players[i];
    let money = (p.money - r.original_bet) as i32;
    let opened = p.hands.push(Seq::empty());
    let card = opened[0][0];
    let o0 = opened[0];
    let o0d = o0.drop_first();
    let o1 = opened.update(0, o0d);
    let pushed = opened[1].push(card);
    let moved = o1.update(1, pushed);
    assert(moved == opened_pair(p.hands));
    lemma_hands_cards_push_empty(p.hands);
    lemma_hands_cards_update(opened, 0, o0d);
    lemma_hands_cards_update(o1, 1, pushed);
    assert(o1[1] == opened[1]);
    assert(o0d =~= o0.remove(0));
    assert(o0.to_multiset() == o0d.to_multiset().insert(card));
    assert(pushed.to_multiset() == opened[1].to_multiset().insert(card));
    assert forall|v| #[trigger] hands_cards(moved).count(v) == hands_cards(p.hands).count(v) by {
        assert(hands_cards(o1).add(o0.to_multiset()).count(v) == hands_cards(opened).add(
            o0d.to_multiset(),
        ).count(v));
        assert(hands_cards(moved).add(opened[1].to_multiset()).count(v) == hands_cards(o1).add(
            pushed.to_multiset(),
        ).count(v));
    }
    assert(hands_cards(moved) =~= hands_cards(p.hands));
    let p1 = PlayerModel { money: money, hands: moved };
    lemma_players_cards_update(d.players, i, p1);
    let d1 = DealerModel { players: d.players.update(i, p1), ..d };
    assert(d1 == pair_opened(d, r, i));
    assert forall|v| #[trigger] players_cards(d1.players).count(v) == players_cards(d.players).count(v) by {
        assert(players_cards(d1.players).add(hands_cards(p.hands)).count(v) == players_cards(
            d.players,
        ).add(hands_cards(moved)).count(v));
    }
    assert(players_cards(d1.players) =~= players_cards(d.players));
    assert(table_cards(d1) =~= table_cards(d));
    lemma_hit_player_keeps_cards(d1, i, 0);
    lemma_hit_player_shape(d1, i, 0);
    lemma_hit_player_keeps_cards(hit_player(d1, i, 0), i, 1);
}

/// No step of a round makes or loses a card: the shoe, the dealer's hand and
/// the players' hands hold the same cards, as many times each, before and
/// after. The one exception is the first step of a round that clears the
/// table: it puts the hands away, and the table keeps the shoe alone.
pub proof fn lemma_step_keeps_cards(d: DealerModel, r: RoundModel, reply: ReplyModel)
    requires
        ready(d, r, reply),
    ensures
        r.phase != (Phase::Start { clear_table: true }) ==> table_cards(next(d, r, reply).dealer)
            == table_cards(d),
        r.phase == (Phase::Start { clear_table: true }) ==> table_cards(next(d, r, reply).dealer)
            == d.shoe.to_multiset(),
{
    broadcast use vstd::multiset::group_multiset_axioms;

    match r.phase {
        Phase::Start { clear_table } => {
            if clear_table {
                let c = cleared(d);
                assert forall|k: nat| k <= c.players.len() implies #[trigger] players_cards(
                    c.players.take(k as int),
                ) =~= Multiset::empty() by {
                    lemma_cleared_prefix_empty(d, k);
                }
                assert(c.players.take(c.players.len() as int) =~= c.players);
                assert(players_cards(c.players.take(c.players.len() as int)) =~= Multiset::empty());
                lemma_no_cards();
                assert(table_cards(c) =~= d.shoe.to_multiset());
            }
        },
        Phase::Bet { player } => {
            match reply {
                ReplyModel::Action(PlayerAction::Bet(amount)) => {
                    if d.players[player as int].money >= amount {
                        lemma_with_money_keeps_cards(
                            d,
                            player as int,
                            (d.players[player as int].money - amount) as i32,
                        );
                    }
                },
                _ => {},
            }
        },
        Phase::Deal => {
            lemma_dealt_keeps_cards(d);
        },
        Phase::Play { player, hand } => {
            let i = player as int;
            let j = hand as int;
            match reply {
                ReplyModel::Action(a) => match a {
                    PlayerAction::Hit => {
                        lemma_hit_player_keeps_cards(d, i, j);
                    },
                    PlayerAction::DoubleDown => {
                        if may_double(d, r, i, j) {
                            let d1 = with_money(d, i, (d.players[i].money - r.original_bet) as i32);
                            lemma_with_money_keeps_cards(
                                d,
                                i,
                                (d.players[i].money - r.original_bet) as i32,
                            );
                            lemma_hit_player_keeps_cards(d1, i, j);
                        }
                    },
                    PlayerAction::Split => {
                        if may_split(d, r, i) {
                            lemma_split_keeps_cards(d, r, i, j);
                        }
                    },
                    _ => {},
                },
                _ => {},
            }
        },
        Phase::DealerTurn => {
            if hand_value(d.hand, true) <= 21 && dealer_hits(d) {
                lemma_hit_keeps_cards(d.shoe, d.hand);
                let d2 = next(d, r, reply).dealer;
                assert(d2.shoe == hit(d.shoe, d.hand).0);
                assert(d2.hand == hit(d.shoe, d.hand).1);
                assert(table_cards(d2) =~= table_cards(d));
            }
        },
        Phase::Settle => {
            match reply {
                ReplyModel::Bonuses(b) => {
                    lemma_players_cards_same_hands(settled(d, r, b).players, d.players);
                },
                _ => {},
            }
        },
        _ => {},
    }
}

proof fn lemma_cleared_prefix_empty(d: DealerModel, k: nat)
    requires
        k <= d.players.len(),
    ensures
        players_cards(cleared(d).players.take(k as int)) =~= Multiset::empty(),
    decreases k,
{
    broadcast use vstd::multiset::group_multiset_axioms;

    if k > 0 {
        let c = cleared(d).players;
        lemma_cleared_prefix_empty(d, (k - 1) as nat);
        assert(c.take(k as int).drop_last() =~= c.take(k - 1));
        let last = c.take(k as int).last();
        assert(last.hands =~= seq![Seq::<[char; 2]>::empty()]);
        assert(last.hands.drop_last() =~= Seq::<Seq<[char; 2]>>::empty());
        lemma_no_cards();
        assert(hands_cards(last.hands) == hands_cards(last.hands.drop_last()).add(
            last.hands.last().to_multiset(),
        ));
        assert(hands_cards(Seq::<Seq<[char; 2]>>::empty()) == Multiset::<[char; 2]>::empty());
        assert(last.hands.last() == Seq::<[char; 2]>::empty());
        assert(hands_cards(last.hands) =~= Multiset::empty());
    }
}


// ------------------------------------------------------------------
// Money moves between a player's purse and their bet until the round is settled
// ------------------------------------------------------------------

/// What player `i` has at stake: their money, and their bet once they have bet.
pub open spec fn stake(d: DealerModel, r: RoundModel, i: int) -> int {
    d.players[i].money + if i < r.bets.len() {
        r.bets[i] as int
    } else {
        0
    }
}

/// How money moves in a round. The first step keeps every player's money (and
/// the new round holds no bets). Every later step before the settlement keeps
/// what each player has at stake: a bet, a double down or a split moves money
/// from the player's purse to their bet, and nothing else changes either. The
/// settlement pays each player the winnings of their hands, out of their
/// whole bet, and nothing more.
pub proof fn lemma_step_moves_money(d: DealerModel, r: RoundModel, reply: ReplyModel)
    requires
        ready(d, r, reply),
    ensures
        next(d, r, reply).dealer.players.len() == d.players.len(),
        r.phase is Start ==> next(d, r, reply).round.bets.len() == 0 && forall|i: int|
            0 <= i < d.players.len() ==> #[trigger] next(d, r, reply).dealer.players[i].money
                == d.players[i].money,
        !(r.phase is Start) && !(r.phase is Settle) ==> forall|i: int|
            0 <= i < d.players.len() ==> #[trigger] stake(next(d, r, reply).dealer, next(d, r, reply).round, i)
                == stake(d, r, i),
        r.phase is Settle ==> forall|i: int|
            0 <= i < d.players.len() ==> #[trigger] next(d, r, reply).dealer.players[i].money
                == d.players[i].money + player_winnings(d, r, reply->Bonuses_0, i),
{
    let s = next(d, r, reply);
    match r.phase {
        Phase::Deal => {
            lemma_dealt_shape(d);
        },
        Phase::Play { player, hand } => {
            let i = player as int;
            let j = hand as int;
            match reply {
                ReplyModel::Action(a) => match a {
                    PlayerAction::Hit => {
                        lemma_hit_player_shape(d, i, j);
                    },
                    PlayerAction::DoubleDown => {
                        if may_double(d, r, i, j) {
                            let d1 = with_money(d, i, (d.players[i].money - r.original_bet) as i32);
                            lemma_hit_player_shape(d1, i, j);
                        }
                    },
                    PlayerAction::Split => {
                        if may_split(d, r, i) {
                            let d1 = pair_opened(d, r, i);
                            lemma_hit_player_shape(d1, i, 0);
                            lemma_hit_player_shape(hit_player(d1, i, 0), i, 1);
                        }
                    },
                    _ => {},
                },
                _ => {},
            }
        },
        Phase::Settle => {
            match reply {
                ReplyModel::Bonuses(b) => {
                    assert forall|i: int| 0 <= i < d.players.len() implies #[trigger] s.dealer.players[i].money
                        == d.players[i].money + player_winnings(d, r, b, i) by {
                        assert(player_settles(d, r, b, i));
                    }
                },
                _ => {},
            }
        },
        _ => {},
    }
}

/// A hand pays nothing back or more when the bet and the bonus are not negative.
proof fn lemma_winnings_not_negative(
    bet: int,
    hands: Seq<Seq<[char; 2]>>,
    k: int,
    dealer: Seq<[char; 2]>,
    busted: bool,
    bonus: int,
)
    requires
        bet >= 0,
        bonus >= 0,
        k <= hands.len(),
    ensures
        winnings(bet, hands, k, dealer, busted, bonus) >= 0,
    decreases k,
{
    if k > 0 {
        lemma_winnings_not_negative(bet, hands, k - 1, dealer, busted, bonus);
        let n = hands.len() as int;
        assert(bet * 2 / n >= 0) by (nonlinear_arith)
            requires
                bet >= 0,
                n >= 1,
        ;
    }
}

/// No play is accepted that costs more than the player's money at that
/// moment: a bet, a double down and a split are taken only when the player's
/// money covers them. So no step before the settlement takes a player's
/// money below zero; and when the bets and the blackjack bonuses are not
/// negative, neither does the settlement, which only pays out.
pub proof fn lemma_money_stays_covered(d: DealerModel, r: RoundModel, reply: ReplyModel)
    requires
        ready(d, r, reply),
        forall|i: int| 0 <= i < d.players.len() ==> #[trigger] d.players[i].money >= 0,
        r.phase is Settle ==> forall|i: int| 0 <= i < r.bets.len() ==> #[trigger] r.bets[i] >= 0,
        reply is Bonuses ==> forall|i: int|
            0 <= i < reply->Bonuses_0.len() ==> #[trigger] reply->Bonuses_0[i] >= 0,
    ensures
        forall|i: int|
            0 <= i < next(d, r, reply).dealer.players.len() ==> #[trigger] next(
                d,
                r,
                reply,
            ).dealer.players[i].money >= 0,
{
    lemma_step_moves_money(d, r, reply);
    let s = next(d, r, reply);
    match r.phase {
        Phase::Deal => {
            lemma_dealt_shape(d);
        },
        Phase::Play { player, hand } => {
            let i = player as int;
            let j = hand as int;
            match reply {
                ReplyModel::Action(a) => match a {
                    PlayerAction::Hit => {
                        lemma_hit_player_shape(d, i, j);
                    },
                    PlayerAction::DoubleDown => {
                        if may_double(d, r, i, j) {
                            let d1 = with_money(d, i, (d.players[i].money - r.original_bet) as i32);
                            lemma_hit_player_shape(d1, i, j);
                            assert forall|k: int| 0 <= k < d.players.len() implies #[trigger] s.dealer.players[k].money >= 0 by {
                                assert(s.dealer.players[k].money == d1.players[k].money);
                            }
                        }
                    },
                    PlayerAction::Split => {
                        if may_split(d, r, i) {
                            let d1 = pair_opened(d, r, i);
                            lemma_hit_player_shape(d1, i, 0);
                            lemma_hit_player_shape(hit_player(d1, i, 0), i, 1);
                            assert forall|k: int| 0 <= k < d.players.len() implies #[trigger] s.dealer.players[k].money >= 0 by {
                                assert(s.dealer.players[k].money == d1.players[k].money);
                            }
                        }
                    },
                    _ => {},
                },
                _ => {},
            }
        },
        Phase::Bet { player } => {
            match reply {
                ReplyModel::Action(PlayerAction::Bet(amount)) => {
                    if d.players[player as int].money >= amount {
                        assert forall|k: int| 0 <= k < d.players.len() implies #[trigger] s.dealer.players[k].money >= 0 by {
                            if k == player as int {
                                assert(s.dealer.players[k].money == d.players[k].money - amount);
                            }
                        }
                    }
                },
                _ => {},
            }
        },
        Phase::Settle => {
            let b = reply->Bonuses_0;
            assert forall|k: int| 0 <= k < d.players.len() implies #[trigger] s.dealer.players[k].money >= 0 by {
                assert(r.bets[k] >= 0);
                assert(b[k] >= 0);
                lemma_winnings_not_negative(
                    r.bets[k] as int,
                    d.players[k].hands,
                    d.players[k].hands.len() as int,
                    d.hand,
                    r.busted,
                    b[k] as int,
                );
            }
        },
        _ => {},
    }
}

// ------------------------------------------------------------------
// Whom a request goes to
// ------------------------------------------------------------------

/// A request that asks for an answer (a bet, a play, the answer to an error)
/// goes to one player, who is at the table; a request that only shows the
/// dealer's cards (its up card, a hit, its final hand) goes to no player.
pub proof fn lemma_requests_go_to_the_right_player(d: DealerModel, r: RoundModel, reply: ReplyModel)
    requires
        ready(d, r, reply),
    ensures
        match next(d, r, reply).prompt {
            PromptModel::Ask(q, p) => match q {
                RequestModel::Bet | RequestModel::Play(_) | RequestModel::Error(_) => p is Some
                    && p->0 < next(d, r, reply).dealer.players.len(),
                _ => p is None,
            },
            _ => true,
        },
{
    lemma_step_moves_money(d, r, reply);
}

// ------------------------------------------------------------------
// After an error, the same request again
// ------------------------------------------------------------------

/// After an error about a bet, the dealer asks the same player for a bet again.
/// After an error about a play, once the error is answered and the hand is
/// checked (a step with nothing to ask), the dealer asks for a play on the
/// same hand again, unless that hand is worth more than 21.
pub proof fn lemma_error_asks_again(d: DealerModel, r: RoundModel, reply: ReplyModel)
    requires
        ready(d, r, reply),
    ensures
        r.phase is BetError ==> next(d, r, reply).prompt == PromptModel::Ask(
            RequestModel::Bet,
            Some(r.phase->BetError_player),
        ),
        r.phase is PlayError ==> ({
            let s1 = next(d, r, reply);
            let i = r.phase->PlayError_player;
            let j = r.phase->PlayError_hand;
            &&& s1.prompt == PromptModel::Continue
            &&& s1.dealer == d
            &&& hand_value(d.players[i as int].hands[j as int], true) <= 21 ==> next(
                s1.dealer,
                s1.round,
                ReplyModel::Proceed,
            ).prompt == PromptModel::Ask(RequestModel::Play(j), Some(i))
        }),
{
}

// ------------------------------------------------------------------
// The dealer's play
// ------------------------------------------------------------------

/// When it stands on soft 17, the dealer takes no card once its hand is worth
/// 17 or more; under 17 it always takes the first card of the shoe, and shows it.
pub proof fn lemma_dealer_hits_below_17(d: DealerModel, r: RoundModel, reply: ReplyModel)
    requires
        ready(d, r, reply),
        r.phase == Phase::DealerTurn,
    ensures
        d.config.stand_soft_17 && hand_value(d.hand, true) >= 17 ==> next(d, r, reply).dealer == d
            && next(d, r, reply).prompt is Bonuses,
        hand_value(d.hand, true) < 17 ==> next(d, r, reply).dealer.hand == d.hand.push(d.shoe[0])
            && next(d, r, reply).dealer.shoe == d.shoe.drop_first() && next(d, r, reply).prompt
            == PromptModel::Ask(RequestModel::HitCard(d.shoe[0]), None),
{
}


// ------------------------------------------------------------------
// Hand values
// ------------------------------------------------------------------

/// The points of a hand when `k` of its aces count eleven and the others one.
pub open spec fn elevens_total(hand: Seq<[char; 2]>, k: nat) -> nat {
    base_points(hand) + ace_count(hand) + 10 * k
}

/// The value of a hand with automatic aces is its blackjack value: every ace
/// counts one and, when the hand has an ace and that keeps it at 21 or under,
/// one ace counts eleven. It is the largest count of the aces (each one or
/// eleven) that keeps the hand at 21 or under, when there is one, and the
/// smallest count otherwise; and it is at most the value with every ace
/// counted eleven.
pub proof fn lemma_auto_aces_value(hand: Seq<[char; 2]>)
    ensures
        hand_value(hand, true) == if ace_count(hand) > 0 && base_points(hand) + ace_count(hand)
            + 10 <= 21 {
            base_points(hand) + ace_count(hand) + 10
        } else {
            base_points(hand) + ace_count(hand)
        },
        forall|k: nat|
            k <= ace_count(hand) && #[trigger] elevens_total(hand, k) <= 21 ==> elevens_total(hand, k)
                <= hand_value(hand, true) <= 21,
        base_points(hand) + ace_count(hand) <= hand_value(hand, true) <= hand_value(hand, false),
{
    assert forall|k: nat|
        k <= ace_count(hand) && #[trigger] elevens_total(hand, k) <= 21 implies elevens_total(hand, k)
        <= hand_value(hand, true) <= 21 by {
        if k >= 2 {
            assert(10 * k >= 20);
        }
    }
}

/// Counting aces automatically keeps a hand at 21 or under whenever some
/// count of its aces can: exactly when the hand is worth 21 or under with
/// every ace counted one.
pub proof fn lemma_auto_aces_avoid_bust(hand: Seq<[char; 2]>)
    ensures
        hand_value(hand, true) <= 21 <==> base_points(hand) + ace_count(hand) <= 21,
{
}

proof fn lemma_counts_remove(hand: Seq<[char; 2]>, i: int)
    requires
        0 <= i < hand.len(),
    ensures
        base_points(hand) == base_points(hand.remove(i)) + rank_points(hand[i][1]),
        ace_count(hand) == ace_count(hand.remove(i)) + if hand[i][1] == 'A' {
            1nat
        } else {
            0nat
        },
    decreases hand.len(),
{
    if i == hand.len() - 1 {
        assert(hand.remove(i) =~= hand.drop_last());
    } else {
        lemma_counts_remove(hand.drop_last(), i);
        assert(hand.remove(i).drop_last() =~= hand.drop_last().remove(i));
        assert(hand.remove(i).last() == hand.last());
    }
}

/// The value of a hand does not depend on the order of its cards: two hands
/// that hold the same cards, as many times each, have the same points, the
/// same aces, the same value, and fit a byte alike.
pub proof fn lemma_hand_value_ignores_order(a: Seq<[char; 2]>, b: Seq<[char; 2]>)
    requires
        a.to_multiset() == b.to_multiset(),
    ensures
        base_points(a) == base_points(b),
        ace_count(a) == ace_count(b),
        hand_value(a, true) == hand_value(b, true),
        hand_value(a, false) == hand_value(b, false),
        hand_value_fits(a, true) == hand_value_fits(b, true),
        hand_value_fits(a, false) == hand_value_fits(b, false),
    decreases a.len(),
{
    broadcast use vstd::seq_lib::group_to_multiset_ensures;
    broadcast use vstd::multiset::group_multiset_axioms;

    if a.len() == 0 {
        vstd::seq_lib::to_multiset_len(a);
        vstd::seq_lib::to_multiset_len(b);
        assert(b.len() == 0);
        assert(a =~= b);
    } else {
        let x = a.last();
        assert(a.contains(x)) by {
            assert(a[a.len() - 1] == x);
        }
        assert(a.to_multiset().count(x) > 0);
        assert(b.contains(x));
        let i = choose|i: int| 0 <= i < b.len() && b[i] == x;
        assert(a.drop_last() =~= a.remove(a.len() - 1));
        assert(a.drop_last().to_multiset() == a.to_multiset().remove(x));
        assert(b.remove(i).to_multiset() == b.to_multiset().remove(x));
        lemma_hand_value_ignores_order(a.drop_last(), b.remove(i));
        lemma_counts_remove(b, i);
    }
}

// ------------------------------------------------------------------
// Decks and shoes
// ------------------------------------------------------------------

/// A fresh deck holds 52 different cards.
pub proof fn lemma_fresh_deck_distinct()
    ensures
        fresh_deck().len() == 52,
        forall|a: int, b: int|
            0 <= a < b < 52 ==> #[trigger] fresh_deck()[a] != #[trigger] fresh_deck()[b],
{
    assert forall|a: int, b: int| 0 <= a < b < 52 implies #[trigger] fresh_deck()[a]
        != #[trigger] fresh_deck()[b] by {
        if fresh_deck()[a] == fresh_deck()[b] {
            assert(fresh_card(a)@[0] == fresh_card(b)@[0]);
            assert(fresh_card(a)@[1] == fresh_card(b)@[1]);
            assert(a / 13 == b / 13);
            assert(a % 13 == b % 13);
            assert(a == 13 * (a / 13) + a % 13);
            assert(b == 13 * (b / 13) + b % 13);
        }
    }
}

/// A shoe of `n + 1` decks is a shoe of `n` decks followed by a fresh deck.
pub proof fn lemma_shoe_adds_a_deck(n: nat)
    ensures
        fresh_shoe(n + 1) == fresh_shoe(n) + fresh_deck(),
{
    assert forall|k: int| 52 * n <= k < 52 * n + 52 implies #[trigger] fresh_shoe(n + 1)[k]
        == fresh_deck()[k - 52 * n] by {
        assert(k % 52 == k - 52 * n) by (nonlinear_arith)
            requires
                52 * n <= k < 52 * n + 52,
        ;
    }
    assert(fresh_shoe(n + 1) =~= fresh_shoe(n) + fresh_deck());
}


// ------------------------------------------------------------------
// Dealing
// ------------------------------------------------------------------

proof fn lemma_hit_first_hands_order(d: DealerModel, k: nat)
    requires
        k <= d.players.len(),
        k <= d.shoe.len(),
        all_have_hands(d.players),
    ensures
        hit_first_hands(d, k).shoe == d.shoe.skip(k as int),
        forall|i: int|
            0 <= i < d.players.len() ==> #[trigger] hit_first_hands(d, k).players[i].hands[0] == if i
                < k {
                d.players[i].hands[0].push(d.shoe[i])
            } else {
                d.players[i].hands[0]
            },
    decreases k,
{
    if k > 0 {
        let prev = hit_first_hands(d, (k - 1) as nat);
        lemma_hit_first_hands_order(d, (k - 1) as nat);
        lemma_hit_first_hands_keeps_shape(d, (k - 1) as nat);
        assert(prev.shoe.len() > 0);
        assert(prev.shoe[0] == d.shoe[k - 1]);
        assert(prev.shoe.drop_first() =~= d.shoe.skip(k as int));
    } else {
        assert(d.shoe.skip(0) =~= d.shoe);
    }
}

/// Dealing from a shoe that has enough cards gives two cards to the dealer
/// and two to each player's first hand, in turn: the dealer takes the first
/// card, the players the next ones in their order, and the same again.
pub proof fn lemma_deal_order(d: DealerModel)
    requires
        all_have_hands(d.players),
        d.shoe.len() >= 2 * (d.players.len() + 1),
    ensures
        dealt(d).hand == d.hand.push(d.shoe[0]).push(d.shoe[d.players.len() + 1int]),
        dealt(d).shoe == d.shoe.skip(2 * (d.players.len() + 1int)),
        forall|i: int|
            0 <= i < d.players.len() ==> #[trigger] dealt(d).players[i].hands[0] == d.players[i].hands[0].push(
                d.shoe[1 + i],
            ).push(d.shoe[d.players.len() + 2 + i]),
{
    let n = d.players.len();
    let d1 = hit_dealer(d);
    assert(d1.shoe == d.shoe.drop_first());
    lemma_hit_first_hands_order(d1, n);
    lemma_hit_first_hands_keeps_shape(d1, n);
    let d2 = deal_pass(d);
    assert(all_have_hands(d2.players)) by {
        assert forall|i: int| 0 <= i < d2.players.len() implies #[trigger] d2.players[i].hands.len() >= 1 by {
            assert(d2.players[i].hands.len() == d1.players[i].hands.len());
        }
    }
    assert(d2.shoe =~= d.shoe.skip(n + 1int));
    let d3 = hit_dealer(d2);
    assert(d3.shoe == d2.shoe.drop_first());
    lemma_hit_first_hands_order(d3, n);
    lemma_hit_first_hands_keeps_shape(d3, n);
    assert(d2.hand == d.hand.push(d.shoe[0]));
    assert(d2.shoe[0] == d.shoe[n + 1int]);
    assert(dealt(d).hand == d3.hand);
    assert(d3.shoe =~= d.shoe.skip(n + 2int));
    assert(dealt(d).shoe =~= d.shoe.skip(2 * (n + 1int)));
    assert forall|i: int| 0 <= i < n implies #[trigger] dealt(d).players[i].hands[0] == d.players[i].hands[0].push(
        d.shoe[1 + i],
    ).push(d.shoe[n + 2 + i]) by {
        assert(d1.shoe[i] == d.shoe[1 + i]);
        assert(d3.shoe[i] == d.shoe[n + 2 + i]);
    }
}


// ------------------------------------------------------------------
// A whole round
// ------------------------------------------------------------------

/// The table and the round after answering `replies` in order, one step each.
pub open spec fn run(d: DealerModel, r: RoundModel, replies: Seq<ReplyModel>) -> (DealerModel, RoundModel)
    decreases replies.len(),
{
    if replies.len() == 0 {
        (d, r)
    } else {
        let s = next(d, r, replies[0]);
        run(s.dealer, s.round, replies.drop_first())
    }
}

/// Every step of answering `replies` in order may be taken.
pub open spec fn all_ready(d: DealerModel, r: RoundModel, replies: Seq<ReplyModel>) -> bool
    decreases replies.len(),
{
    replies.len() == 0 || (ready(d, r, replies[0]) && all_ready(
        next(d, r, replies[0]).dealer,
        next(d, r, replies[0]).round,
        replies.drop_first(),
    ))
}

/// `a` is what is left of `b` once some cards are taken from its front.
pub open spec fn is_rest_of(a: Seq<[char; 2]>, b: Seq<[char; 2]>) -> bool {
    exists|k: int| 0 <= k <= b.len() && a == b.skip(k)
}

proof fn lemma_rest_of_rest(a: Seq<[char; 2]>, b: Seq<[char; 2]>, c: Seq<[char; 2]>)
    requires
        is_rest_of(a, b),
        is_rest_of(b, c),
    ensures
        is_rest_of(a, c),
{
    let k1 = choose|k: int| 0 <= k <= b.len() && a == b.skip(k);
    let k2 = choose|k: int| 0 <= k <= c.len() && b == c.skip(k);
    assert(a =~= c.skip(k1 + k2));
}

proof fn lemma_rest_of_self(a: Seq<[char; 2]>)
    ensures
        is_rest_of(a, a),
{
    assert(a == a.skip(0));
}

proof fn lemma_hit_leaves_a_rest(shoe: Seq<[char; 2]>, hand: Seq<[char; 2]>)
    ensures
        is_rest_of(hit(shoe, hand).0, shoe),
{
    if shoe.len() > 0 {
        assert(shoe.drop_first() == shoe.skip(1));
    } else {
        lemma_rest_of_self(shoe);
    }
}

proof fn lemma_hit_player_leaves_a_rest(d: DealerModel, i: int, j: int)
    ensures
        is_rest_of(hit_player(d, i, j).shoe, d.shoe),
{
    lemma_hit_leaves_a_rest(d.shoe, d.players[i].hands[j]);
}

proof fn lemma_hit_first_hands_leave_a_rest(d: DealerModel, k: nat)
    ensures
        is_rest_of(hit_first_hands(d, k).shoe, d.shoe),
    decreases k,
{
    if k == 0 {
        lemma_rest_of_self(d.shoe);
    } else {
        lemma_hit_first_hands_leave_a_rest(d, (k - 1) as nat);
        let prev = hit_first_hands(d, (k - 1) as nat);
        lemma_hit_player_leaves_a_rest(prev, k - 1, 0);
        lemma_rest_of_rest(hit_first_hands(d, k).shoe, prev.shoe, d.shoe);
    }
}

/// A step takes cards, if any, only from the front of the shoe.
proof fn lemma_step_leaves_a_rest(d: DealerModel, r: RoundModel, reply: ReplyModel)
    requires
        ready(d, r, reply),
    ensures
        is_rest_of(next(d, r, reply).dealer.shoe, d.shoe),
        !(next(d, r, reply).round.phase is Start),
{
    let s = next(d, r, reply);
    lemma_rest_of_self(d.shoe);
    match r.phase {
        Phase::Deal => {
            let d1 = hit_dealer(d);
            lemma_hit_leaves_a_rest(d.shoe, d.hand);
            lemma_hit_first_hands_leave_a_rest(d1, d.players.len());
            lemma_rest_of_rest(deal_pass(d).shoe, d1.shoe, d.shoe);
            let d2 = deal_pass(d);
            let d3 = hit_dealer(d2);
            lemma_hit_leaves_a_rest(d2.shoe, d2.hand);
            lemma_hit_first_hands_leave_a_rest(d3, d2.players.len());
            lemma_rest_of_rest(dealt(d).shoe, d3.shoe, d2.shoe);
            lemma_rest_of_rest(dealt(d).shoe, d2.shoe, d.shoe);
        },
        Phase::Play { player, hand } => {
            let i = player as int;
            let j = hand as int;
            match reply {
                ReplyModel::Action(a) => match a {
                    PlayerAction::Hit => {
                        lemma_hit_player_leaves_a_rest(d, i, j);
                    },
                    PlayerAction::DoubleDown => {
                        if may_double(d, r, i, j) {
                            let d1 = with_money(d, i, (d.players[i].money - r.original_bet) as i32);
                            lemma_hit_player_leaves_a_rest(d1, i, j);
                        }
                    },
                    PlayerAction::Split => {
                        if may_split(d, r, i) {
                            let d1 = pair_opened(d, r, i);
                            let d2 = hit_player(d1, i, 0);
                            lemma_hit_player_leaves_a_rest(d1, i, 0);
                            lemma_hit_player_leaves_a_rest(d2, i, 1);
                            lemma_rest_of_rest(hit_player(d2, i, 1).shoe, d2.shoe, d.shoe);
                        }
                    },
                    _ => {},
                },
                _ => {},
            }
        },
        Phase::DealerTurn => {
            if hand_value(d.hand, true) <= 21 && dealer_hits(d) {
                assert(s.dealer.shoe == d.shoe.skip(1));
            }
        },
        _ => {},
    }
}

proof fn lemma_run_keeps_the_table(
    d0: DealerModel,
    d: DealerModel,
    r: RoundModel,
    replies: Seq<ReplyModel>,
)
    requires
        all_ready(d, r, replies),
        !(r.phase is Start),
        table_cards(d) == d0.shoe.to_multiset(),
        is_rest_of(d.shoe, d0.shoe),
        d.players.len() == d0.players.len(),
    ensures
        table_cards(run(d, r, replies).0) == d0.shoe.to_multiset(),
        is_rest_of(run(d, r, replies).0.shoe, d0.shoe),
        run(d, r, replies).0.players.len() == d0.players.len(),
    decreases replies.len(),
{
    if replies.len() > 0 {
        let s = next(d, r, replies[0]);
        lemma_step_keeps_cards(d, r, replies[0]);
        lemma_step_leaves_a_rest(d, r, replies[0]);
        lemma_step_moves_money(d, r, replies[0]);
        lemma_rest_of_rest(s.dealer.shoe, d.shoe, d0.shoe);
        lemma_run_keeps_the_table(d0, s.dealer, s.round, replies.drop_first());
    }
}

/// Over a whole round that begins by clearing the table, the dealer only
/// takes cards from the front of the shoe, and the hands (the dealer's and
/// every player's) hold exactly the cards taken: whatever the players answer,
/// once the first step (which puts the old hands away) is taken, there is a
/// `k` such that the shoe has lost its first `k` cards and the hands hold
/// those cards, as many times each. The players stay the same.
pub proof fn lemma_round_deals_from_the_front(d: DealerModel, replies: Seq<ReplyModel>)
    requires
        replies.len() > 0,
        all_ready(d, fresh_round(true), replies),
    ensures
        ({
            let end = run(d, fresh_round(true), replies).0;
            &&& end.players.len() == d.players.len()
            &&& exists|k: int|
                0 <= k <= d.shoe.len() && end.shoe == d.shoe.skip(k) && end.hand.to_multiset().add(
                    players_cards(end.players),
                ) == d.shoe.take(k).to_multiset()
        }),
{
    broadcast use vstd::multiset::group_multiset_axioms;

    let r0 = fresh_round(true);
    let s = next(d, r0, replies[0]);
    lemma_step_keeps_cards(d, r0, replies[0]);
    lemma_step_leaves_a_rest(d, r0, replies[0]);
    lemma_run_keeps_the_table(d, s.dealer, s.round, replies.drop_first());
    let e = run(d, r0, replies).0;
    assert(e == run(s.dealer, s.round, replies.drop_first()).0);
    let k = choose|k: int| 0 <= k <= d.shoe.len() && e.shoe == d.shoe.skip(k);
    vstd::seq_lib::lemma_multiset_commutative(d.shoe.take(k), d.shoe.skip(k));
    assert(d.shoe.take(k) + d.shoe.skip(k) =~= d.shoe);
    let held = e.hand.to_multiset().add(players_cards(e.players));
    let taken = d.shoe.take(k).to_multiset();
    assert(table_cards(e) == d.shoe.to_multiset());
    assert(table_cards(e) == e.shoe.to_multiset().add(held));
    assert(d.shoe.to_multiset() == taken.add(e.shoe.to_multiset()));
    assert forall|c: [char; 2]| #[trigger] held.count(c) == taken.count(c) by {
        assert(table_cards(e).count(c) == e.shoe.to_multiset().count(c) + held.count(c));
        assert(d.shoe.to_multiset().count(c) == taken.count(c) + e.shoe.to_multiset().count(c));
    }
    assert(held =~= taken);
}


// ------------------------------------------------------------------
// What single plays do
// ------------------------------------------------------------------

/// Counting every ace as eleven, each card adds its face value to a hand: a
/// number card its number, a ten, jack, queen or king ten, an ace eleven.
/// With automatic aces, a hand of one ten or face card is worth ten.
pub proof fn lemma_card_adds_its_value(hand: Seq<[char; 2]>, card: [char; 2])
    ensures
        '2' <= card[1] <= '9' ==> hand_value(hand.push(card), false) == hand_value(hand, false)
            + (card[1] as int - '0' as int),
        card[1] == 'T' || card[1] == 'J' || card[1] == 'Q' || card[1] == 'K' ==> hand_value(
            hand.push(card),
            false,
        ) == hand_value(hand, false) + 10 && hand_value(seq![card], true) == 10,
        card[1] == 'A' ==> hand_value(hand.push(card), false) == hand_value(hand, false) + 11,
{
    let h = hand.push(card);
    assert(h.drop_last() =~= hand);
    let one = seq![card];
    assert(one.drop_last() =~= Seq::<[char; 2]>::empty());
    assert(base_points(one.drop_last()) == 0);
    assert(ace_count(one.drop_last()) == 0);
    assert(one.last() == card);
}

/// The dealer's turn: over 21 it has busted and the round goes to the
/// settlement; from 17 to 21 it stands (takes no card, and the round goes to
/// the settlement), except on a soft 17 (an ace counted eleven) when it does
/// not stand on soft 17, which it hits; under 17 it hits. A hit takes the
/// first card of the shoe and shows it.
pub proof fn lemma_dealer_plays_by_the_rules(d: DealerModel, r: RoundModel, reply: ReplyModel)
    requires
        ready(d, r, reply),
        r.phase == Phase::DealerTurn,
    ensures
        ({
            let s = next(d, r, reply);
            let v = hand_value(d.hand, true);
            let counted_hard = v == base_points(d.hand) + ace_count(d.hand);
            let takes = v < 17 || (v == 17 && !counted_hard && !d.config.stand_soft_17);
            &&& v > 21 ==> s.dealer == d && s.round.busted && s.prompt == PromptModel::Bonuses(r.bets)
            &&& v <= 21 && !takes ==> s.dealer == d && s.round.busted == r.busted && s.round.phase
                == Phase::Settle && s.prompt == PromptModel::Bonuses(r.bets)
            &&& v <= 21 && takes ==> s.dealer.hand == d.hand.push(d.shoe[0]) && s.dealer.shoe
                == d.shoe.drop_first() && s.dealer.players == d.players && s.prompt
                == PromptModel::Ask(RequestModel::HitCard(d.shoe[0]), None)
        }),
{
    let v = hand_value(d.hand, true);
    let counted_hard = v == base_points(d.hand) + ace_count(d.hand);
    assert(v <= 21 ==> (counted_hard <==> !is_soft(d.hand)));
    assert(dealer_hits(d) <==> (v < 17 || (v == 17 && !counted_hard && !d.config.stand_soft_17)));
}

/// The settlement of a player with one hand, of value `v` against the
/// dealer's `dv`, on their bet: a busted hand pays nothing; a hand that beats
/// the dealer, or faces a busted dealer, pays twice the bet, except a
/// two-card 21, which pays the bet and the blackjack bonus (or only the bet
/// back when the dealer also holds a two-card 21); a tie with a dealer who did
/// not bust pays the bet back; a lower hand pays nothing.
pub proof fn lemma_one_hand_is_paid(d: DealerModel, r: RoundModel, bonuses: Seq<i32>, i: int)
    requires
        ready(d, r, ReplyModel::Bonuses(bonuses)),
        r.phase == Phase::Settle,
        0 <= i < d.players.len(),
        d.players[i].hands.len() == 1,
    ensures
        ({
            let after = next(d, r, ReplyModel::Bonuses(bonuses)).dealer.players[i].money as int;
            let before = d.players[i].money as int;
            let h = d.players[i].hands[0];
            let v = hand_value(h, true);
            let dv = hand_value(d.hand, true);
            let bet = r.bets[i] as int;
            let wins = r.busted || v > dv;
            let blackjack = v == 21 && h.len() == 2;
            &&& v > 21 ==> after == before
            &&& v <= 21 && wins && !blackjack ==> after == before + 2 * bet
            &&& v <= 21 && wins && blackjack && !(dv == 21 && d.hand.len() == 2) ==> after == before
                + bet + bonuses[i]
            &&& v <= 21 && wins && blackjack && dv == 21 && d.hand.len() == 2 ==> after == before + bet
            &&& v <= 21 && !wins && v == dv ==> after == before + bet
            &&& v <= 21 && !wins && v < dv ==> after == before
        }),
{
    lemma_step_moves_money(d, r, ReplyModel::Bonuses(bonuses));
    let bet = r.bets[i] as int;
    assert(trunc_div(bet * 2, 1) == bet * 2);
    let p = d.players[i];
    assert(winnings(bet, p.hands, 0, d.hand, r.busted, bonuses[i] as int) == 0);
}

/// A hand that has taken a hit may not double down: when the hit leaves it
/// under 22 and the same hand is asked to play again, a double down is
/// answered with an `UnexpectedAction` error and leaves the table unchanged.
pub proof fn lemma_no_double_down_after_a_hit(d: DealerModel, r: RoundModel, i: usize, j: usize)
    requires
        ready(d, r, ReplyModel::Action(PlayerAction::Hit)),
        r.phase == (Phase::Play { player: i, hand: j }),
    ensures
        ({
            let s1 = next(d, r, ReplyModel::Action(PlayerAction::Hit));
            let s2 = next(s1.dealer, s1.round, ReplyModel::Proceed);
            let s3 = next(s2.dealer, s2.round, ReplyModel::Action(PlayerAction::DoubleDown));
            s2.round.phase == (Phase::Play { player: i, hand: j }) ==> s3.dealer == s2.dealer
                && s3.prompt == PromptModel::Ask(
                RequestModel::Error(PlayerActionError::UnexpectedAction(j, PlayerAction::DoubleDown)),
                Some(i),
            )
        }),
{
}

/// Whether the round lets a player split only when the rules allow splitting.
pub open spec fn splits_by_the_rules(d: DealerModel, r: RoundModel) -> bool {
    r.can_split ==> d.config.splitting
}

/// No step changes the rules, and a split is never offered when the rules do
/// not allow splitting: a round begins with no split offered, and every step
/// keeps it so. When the rules do not allow splitting, a split is answered
/// with an `UnexpectedAction` error and leaves the table unchanged.
pub proof fn lemma_splits_follow_the_rules(d: DealerModel, r: RoundModel, reply: ReplyModel)
    requires
        ready(d, r, reply),
        splits_by_the_rules(d, r),
    ensures
        splits_by_the_rules(d, fresh_round(true)),
        splits_by_the_rules(d, fresh_round(false)),
        next(d, r, reply).dealer.config == d.config,
        splits_by_the_rules(next(d, r, reply).dealer, next(d, r, reply).round),
        !d.config.splitting && reply == ReplyModel::Action(PlayerAction::Split) ==> match r.phase {
            Phase::Play { player, hand } => next(d, r, reply).dealer == d && next(d, r, reply).prompt
                == PromptModel::Ask(
                RequestModel::Error(PlayerActionError::UnexpectedAction(hand, PlayerAction::Split)),
                Some(player),
            ),
            _ => true,
        },
{
    match r.phase {
        Phase::Deal => {
            lemma_dealt_shape(d);
        },
        Phase::Play { player, hand } => {
            let i = player as int;
            let j = hand as int;
            match reply {
                ReplyModel::Action(a) => match a {
                    PlayerAction::Hit => {
                        lemma_hit_player_shape(d, i, j);
                    },
                    PlayerAction::DoubleDown => {
                        if may_double(d, r, i, j) {
                            lemma_hit_player_shape(with_money(d, i, (d.players[i].money - r.original_bet) as i32), i, j);
                        }
                    },
                    PlayerAction::Split => {
                        if may_split(d, r, i) {
                            let d1 = pair_opened(d, r, i);
                            lemma_hit_player_shape(d1, i, 0);
                            lemma_hit_player_shape(hit_player(d1, i, 0), i, 1);
                        }
                    },
                    _ => {},
                },
                _ => {},
            }
        },
        _ => {},
    }
}

} // verus!
