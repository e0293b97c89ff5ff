//! Hands, players, the dealer, and the rules of a round of blackjack.
use crate::cards;
use vstd::prelude::*;

verus! {

// ------------------------------------------------------------------
// Actions and requests
// ------------------------------------------------------------------

/// Actions a player can perform
pub enum PlayerAction {
    Hit,
    Stand,
    DoubleDown,
    Split,
    /// Bet an amount of money
    Bet(i32),
    /// No action: the answer to requests that only inform the player
    NoAction,
}

/// Reason for a dealer being unable to perform an action
pub enum PlayerActionError {
    /// Not enough money for the requested action: the index of the affected
    /// hand, if applicable, and the attempted action
    NotEnoughMoney(usize, PlayerAction),
    /// An unexpected action was returned: the index of the affected hand, if
    /// applicable, and the unexpected action
    UnexpectedAction(usize, PlayerAction),
}

/// Requests for the player from the dealer
pub enum DealerRequest {
    /// Request a bet from the player
    Bet,
    /// Request a player to play the hand with this index
    Play(usize),
    /// The dealer's up card
    UpCard([char; 2]),
    /// The dealer's hit card
    HitCard([char; 2]),
    /// The dealer's hand after they have played
    DealerHand(Vec<[char; 2]>),
    /// An error with a PlayerAction
    Error(PlayerActionError),
}

/// A dealer request, with the dealer's hand as a sequence of cards.
pub enum RequestModel {
    Bet,
    Play(usize),
    UpCard([char; 2]),
    HitCard([char; 2]),
    DealerHand(Seq<[char; 2]>),
    Error(PlayerActionError),
}

impl View for DealerRequest {
    type V = RequestModel;

    open spec fn view(&self) -> RequestModel {
        match self {
            DealerRequest::Bet => RequestModel::Bet,
            DealerRequest::Play(j) => RequestModel::Play(*j),
            DealerRequest::UpCard(c) => RequestModel::UpCard(*c),
            DealerRequest::HitCard(c) => RequestModel::HitCard(*c),
            DealerRequest::DealerHand(h) => RequestModel::DealerHand(h@),
            DealerRequest::Error(e) => RequestModel::Error(*e),
        }
    }
}

// ------------------------------------------------------------------
// Hand values
// ------------------------------------------------------------------

/// The points a card of rank `rank` adds to a hand before aces are counted:
/// its number, ten for a ten or a face card, nothing for an ace or an unknown rank.
pub open spec fn rank_points(rank: char) -> nat {
    if rank == '2' {
        2
    } else if rank == '3' {
        3
    } else if rank == '4' {
        4
    } else if rank == '5' {
        5
    } else if rank == '6' {
        6
    } else if rank == '7' {
        7
    } else if rank == '8' {
        8
    } else if rank == '9' {
        9
    } else if rank == 'T' || rank == 'J' || rank == 'Q' || rank == 'K' {
        10
    } else {
        0
    }
}

/// The sum of the points of the cards of a hand that are not aces.
pub open spec fn base_points(hand: Seq<[char; 2]>) -> nat
    decreases hand.len(),
{
    if hand.len() == 0 {
        0
    } else {
        base_points(hand.drop_last()) + rank_points(hand.last()[1])
    }
}

/// The number of aces in a hand.
pub open spec fn ace_count(hand: Seq<[char; 2]>) -> nat
    decreases hand.len(),
{
    if hand.len() == 0 {
        0
    } else {
        ace_count(hand.drop_last()) + if hand.last()[1] == 'A' {
            1nat
        } else {
            0nat
        }
    }
}

/// The hand counts one of its aces as eleven: it holds an ace, and counting
/// one ace as eleven (ten more than as one) keeps it at 21 or under.
pub open spec fn is_soft(hand: Seq<[char; 2]>) -> bool {
    ace_count(hand) > 0 && base_points(hand) + ace_count(hand) + 10 <= 21
}

/// The value of a hand. With `auto_aces`, the blackjack value: every ace
/// counts one, and one ace counts eleven when that keeps the hand at 21 or
/// under (two aces at eleven would always bust it). Without it, each ace
/// counts eleven.
pub open spec fn hand_value(hand: Seq<[char; 2]>, auto_aces: bool) -> nat {
    if auto_aces {
        if is_soft(hand) {
            base_points(hand) + ace_count(hand) + 10
        } else {
            base_points(hand) + ace_count(hand)
        }
    } else {
        base_points(hand) + 11 * ace_count(hand)
    }
}

/// The hand's value can be computed in a byte: the points of its cards, with
/// every ace counted as one (with `auto_aces`) or as eleven (without), are at
/// most 255.
pub open spec fn hand_value_fits(hand: Seq<[char; 2]>, auto_aces: bool) -> bool {
    if auto_aces {
        base_points(hand) + ace_count(hand) <= 255
    } else {
        base_points(hand) + 11 * ace_count(hand) <= 255
    }
}

proof fn lemma_prefix_counts(hand: Seq<[char; 2]>, i: int)
    requires
        0 <= i <= hand.len(),
    ensures
        base_points(hand.take(i)) <= base_points(hand),
        ace_count(hand.take(i)) <= ace_count(hand),
    decreases hand.len() - i,
{
    if i < hand.len() {
        lemma_prefix_counts(hand, i + 1);
        assert(hand.take(i + 1).drop_last() =~= hand.take(i));
    } else {
        assert(hand.take(i) =~= hand);
    }
}

/// The points a card of rank `rank` adds before aces are counted: see `rank_points`.
fn card_points(rank: char) -> (r: u8)
    ensures
        r == rank_points(rank),
{
    if rank == '2' {
        2
    } else if rank == '3' {
        3
    } else if rank == '4' {
        4
    } else if rank == '5' {
        5
    } else if rank == '6' {
        6
    } else if rank == '7' {
        7
    } else if rank == '8' {
        8
    } else if rank == '9' {
        9
    } else if rank == 'T' || rank == 'J' || rank == 'Q' || rank == 'K' {
        10
    } else {
        0
    }
}

/// The points of a hand's cards other than aces, and its number of aces.
fn points_and_aces(hand: &Vec<[char; 2]>) -> (r: (u8, u8))
    requires
        base_points(hand@) + ace_count(hand@) <= 255,
    ensures
        r.0 == base_points(hand@),
        r.1 == ace_count(hand@),
{
    let mut value: u8 = 0;
    let mut aces: u8 = 0;
    let mut idx: usize = 0;
    assert(hand@.take(0) =~= Seq::<[char; 2]>::empty());
    while idx < hand.len()
        invariant
            idx <= hand@.len(),
            base_points(hand@) + ace_count(hand@) <= 255,
            value == base_points(hand@.take(idx as int)),
            aces == ace_count(hand@.take(idx as int)),
        decreases hand@.len() - idx,
    {
        let card = hand[idx];
        proof {
            assert(hand@.take(idx + 1).drop_last() =~= hand@.take(idx as int));
            lemma_prefix_counts(hand@, idx + 1);
        }
        if card[1] == 'A' {
            aces = aces + 1;
        }
        value = value + card_points(card[1]);
        idx = idx + 1;
    }
    assert(hand@.take(hand@.len() as int) =~= hand@);
    (value, aces)
}

/// Returns the value of a hand (see `hand_value`).
///
/// The value is computed in a byte, as the hand's type promises; `requires`
/// leaves out the hands whose value would not fit in one.
pub fn get_hand_value(hand: &Vec<[char; 2]>, auto_aces: bool) -> (value: u8)
    requires
        hand_value_fits(hand@, auto_aces),
    ensures
        value == hand_value(hand@, auto_aces),
{
    let (points, aces) = points_and_aces(hand);
    if auto_aces {
        let total = points + aces;
        // one ace counts eleven when that keeps the hand at 21 or under
        if aces > 0 && total <= 11 {
            total + 10
        } else {
            total
        }
    } else {
        points + 11 * aces
    }
}

/// Whether a hand counts one of its aces as eleven: see `is_soft`.
fn hand_is_soft(hand: &Vec<[char; 2]>) -> (r: bool)
    requires
        hand_value_fits(hand@, true),
    ensures
        r == is_soft(hand@),
{
    let (points, aces) = points_and_aces(hand);
    aces > 0 && points + aces <= 11
}

/// Returns whether a hand can be split: it holds exactly two cards, of the same rank.
pub fn can_split(hand: &Vec<[char; 2]>) -> (r: bool)
    ensures
        r == (hand@.len() == 2 && hand@[0][1] == hand@[1][1]),
{
    if hand.len() != 2 {
        return false;
    }
    hand[0][1] == hand[1][1]
}


// ------------------------------------------------------------------
// Players
// ------------------------------------------------------------------

/// The cards of each hand of a list of hands.
pub open spec fn hands_view(hands: Seq<Vec<[char; 2]>>) -> Seq<Seq<[char; 2]>> {
    hands.map_values(|h: Vec<[char; 2]>| h@)
}

/// What a player is: money, and hands of cards (more than one after a split).
pub struct PlayerModel {
    pub money: i32,
    pub hands: Seq<Seq<[char; 2]>>,
}

/// Describes a blackjack player
pub struct Player {
    money: i32,
    hands: Vec<Vec<[char; 2]>>,
}

impl View for Player {
    type V = PlayerModel;

    closed spec fn view(&self) -> PlayerModel {
        PlayerModel { money: self.money, hands: hands_view(self.hands@) }
    }
}

impl Player {
    /// Returns a new player with `money` and one empty hand.
    pub fn new(money: i32) -> (player: Player)
        ensures
            player@.money == money,
            player@.hands == seq![Seq::<[char; 2]>::empty()],
    {
        let hands = vec![Vec::new()];
        let player = Player { money: money, hands: hands };
        assert(player@.hands =~= seq![Seq::<[char; 2]>::empty()]);
        player
    }

    /// Returns a reference to the player's money
    pub fn money(&self) -> (r: &i32)
        ensures
            *r == self@.money,
    {
        &self.money
    }

    /// Returns a reference to the player's hands
    pub fn hands(&self) -> (r: &Vec<Vec<[char; 2]>>)
        ensures
            hands_view(r@) == self@.hands,
    {
        &self.hands
    }

    /// Returns a mutable reference to the player's money
    pub fn money_mut(&mut self) -> (r: &mut i32)
        ensures
            *r == old(self)@.money,
            final(self)@ == (PlayerModel { money: *final(r), hands: old(self)@.hands }),
    {
        &mut self.money
    }

    /// Returns a mutable reference to the player's hands
    pub fn hands_mut(&mut self) -> (r: &mut Vec<Vec<[char; 2]>>)
        ensures
            hands_view(r@) == old(self)@.hands,
            final(self)@ == (PlayerModel { money: old(self)@.money, hands: hands_view(final(r)@) }),
    {
        &mut self.hands
    }
}


// ------------------------------------------------------------------
// The dealer
// ------------------------------------------------------------------

/// Configure different aspects of the game
///
/// * `stand_soft_17` - Whether the dealer should stand on soft 17 or hit
/// * `splitting` - Whether players may split a pair
/// * `doubling_down` - Whether players may double down
/// * `double_after_split` - Whether to allow doubling down after splitting
///
/// The payout multiplier for a blackjack is not part of it: it is a
/// fraction, and the library asks for the blackjack bonus of each bet when
/// a round is settled (see `Prompt::Bonuses`).
#[derive(Clone, Copy, PartialEq, Eq, Structural)]
pub struct GameConfig {
    pub stand_soft_17: bool,
    pub splitting: bool,
    pub doubling_down: bool,
    pub double_after_split: bool,
}

impl Default for GameConfig {
    /// The usual rules: stand on soft 17, and allow splitting, doubling down,
    /// and doubling after splitting.
    fn default() -> (config: GameConfig)
        ensures
            config == (GameConfig {
                stand_soft_17: true,
                splitting: true,
                doubling_down: true,
                double_after_split: true,
            }),
    {
        GameConfig {
            stand_soft_17: true,
            splitting: true,
            doubling_down: true,
            double_after_split: true,
        }
    }
}

/// What a dealer is: its hand, the shoe it draws from, its players, and the rules.
#[verifier::ext_equal]
pub struct DealerModel {
    pub hand: Seq<[char; 2]>,
    pub shoe: Seq<[char; 2]>,
    pub players: Seq<PlayerModel>,
    pub config: GameConfig,
}

/// The models of a list of players.
pub open spec fn players_view(players: Seq<Player>) -> Seq<PlayerModel> {
    players.map_values(|p: Player| p@)
}

/// Describes a blackjack dealer
pub struct Dealer {
    hand: Vec<[char; 2]>,
    shoe: Vec<[char; 2]>,
    players: Vec<Player>,
    config: GameConfig,
}

impl View for Dealer {
    type V = DealerModel;

    closed spec fn view(&self) -> DealerModel {
        DealerModel {
            hand: self.hand@,
            shoe: self.shoe@,
            players: players_view(self.players@),
            config: self.config,
        }
    }
}

/// Moves the first card of `shoe`, if there is one, to the end of `hand`;
/// the pair is the new shoe and the new hand.
pub open spec fn hit(shoe: Seq<[char; 2]>, hand: Seq<[char; 2]>) -> (Seq<[char; 2]>, Seq<[char; 2]>) {
    if shoe.len() > 0 {
        (shoe.drop_first(), hand.push(shoe[0]))
    } else {
        (shoe, hand)
    }
}

/// The dealer after a card is hit from the shoe to its own hand.
pub open spec fn hit_dealer(d: DealerModel) -> DealerModel {
    DealerModel { shoe: hit(d.shoe, d.hand).0, hand: hit(d.shoe, d.hand).1, ..d }
}

/// The dealer with hand `j` of player `i` replaced by `h`.
pub open spec fn with_hand(d: DealerModel, i: int, j: int, h: Seq<[char; 2]>) -> DealerModel {
    DealerModel {
        players: d.players.update(
            i,
            PlayerModel { money: d.players[i].money, hands: d.players[i].hands.update(j, h) },
        ),
        ..d
    }
}

/// The dealer with the money of player `i` replaced by `m`.
pub open spec fn with_money(d: DealerModel, i: int, m: i32) -> DealerModel {
    DealerModel {
        players: d.players.update(i, PlayerModel { money: m, hands: d.players[i].hands }),
        ..d
    }
}

/// The dealer after a card is hit from the shoe to hand `j` of player `i`.
pub open spec fn hit_player(d: DealerModel, i: int, j: int) -> DealerModel {
    let (shoe, hand) = hit(d.shoe, d.players[i].hands[j]);
    DealerModel { shoe: shoe, ..with_hand(d, i, j, hand) }
}

/// The dealer after a card is hit to the first hand of each of the first `k` players, in order.
pub open spec fn hit_first_hands(d: DealerModel, k: nat) -> DealerModel
    decreases k,
{
    if k == 0 {
        d
    } else {
        hit_player(hit_first_hands(d, (k - 1) as nat), k - 1, 0)
    }
}

/// One pass of dealing: a card to the dealer, then one to each player's first hand.
pub open spec fn deal_pass(d: DealerModel) -> DealerModel {
    hit_first_hands(hit_dealer(d), d.players.len())
}

/// The table after dealing: two passes.
pub open spec fn dealt(d: DealerModel) -> DealerModel {
    deal_pass(deal_pass(d))
}

/// The table after clearing: the dealer's hand is empty, and each player
/// keeps their money and has one empty hand.
pub open spec fn cleared(d: DealerModel) -> DealerModel {
    DealerModel {
        hand: Seq::empty(),
        players: d.players.map_values(
            |p: PlayerModel| PlayerModel { money: p.money, hands: seq![Seq::<[char; 2]>::empty()] },
        ),
        ..d
    }
}

/// Every player has at least one hand.
pub open spec fn all_have_hands(players: Seq<PlayerModel>) -> bool {
    forall|i: int| 0 <= i < players.len() ==> #[trigger] players[i].hands.len() >= 1
}

proof fn lemma_hit_first_hands_shape(d: DealerModel, k: nat)
    requires
        k <= d.players.len(),
        all_have_hands(d.players),
    ensures
        hit_first_hands(d, k).players.len() == d.players.len(),
        hit_first_hands(d, k).hand == d.hand,
        hit_first_hands(d, k).config == d.config,
        forall|i: int|
            0 <= i < d.players.len() ==> #[trigger] hit_first_hands(d, k).players[i].hands.len()
                == d.players[i].hands.len() && hit_first_hands(d, k).players[i].money
                == d.players[i].money,
    decreases k,
{
    if k > 0 {
        lemma_hit_first_hands_shape(d, (k - 1) as nat);
    }
}

impl Dealer {
    /// Returns a new dealer, with an empty hand and no players, that draws from
    /// `shoe` and plays by `game_config`.
    pub fn new(shoe: Vec<[char; 2]>, game_config: GameConfig) -> (dealer: Dealer)
        ensures
            dealer@ == (DealerModel {
                hand: Seq::empty(),
                shoe: shoe@,
                players: Seq::empty(),
                config: game_config,
            }),
    {
        let dealer = Dealer { hand: Vec::new(), shoe: shoe, players: Vec::new(), config: game_config };
        assert(dealer@ =~= (DealerModel {
            hand: Seq::empty(),
            shoe: shoe@,
            players: Seq::empty(),
            config: game_config,
        }));
        dealer
    }

    /// Returns a reference to the dealer's hand
    pub fn hand(&self) -> (r: &Vec<[char; 2]>)
        ensures
            r@ == self@.hand,
    {
        &self.hand
    }

    /// Returns a reference to the dealer's shoe
    pub fn shoe(&self) -> (r: &Vec<[char; 2]>)
        ensures
            r@ == self@.shoe,
    {
        &self.shoe
    }

    /// Returns a reference to the dealer's players
    pub fn players(&self) -> (r: &Vec<Player>)
        ensures
            players_view(r@) == self@.players,
    {
        &self.players
    }

    /// Returns a mutable reference to the dealer's hand
    pub fn hand_mut(&mut self) -> (r: &mut Vec<[char; 2]>)
        ensures
            r@ == old(self)@.hand,
            final(self)@ == (DealerModel { hand: final(r)@, ..old(self)@ }),
    {
        &mut self.hand
    }

    /// Returns a mutable reference to the dealer's shoe
    pub fn shoe_mut(&mut self) -> (r: &mut Vec<[char; 2]>)
        ensures
            r@ == old(self)@.shoe,
            final(self)@ == (DealerModel { shoe: final(r)@, ..old(self)@ }),
    {
        &mut self.shoe
    }

    /// Returns a mutable reference to the dealer's players
    pub fn players_mut(&mut self) -> (r: &mut Vec<Player>)
        ensures
            players_view(r@) == old(self)@.players,
            final(self)@ == (DealerModel { players: players_view(final(r)@), ..old(self)@ }),
    {
        &mut self.players
    }

    /// Clear the dealer's and all players' hands
    pub fn clear_table(&mut self)
        ensures
            final(self)@ == cleared(old(self)@),
    {
        self.hand.clear();
        let n = self.players.len();
        for i in 0..n
            invariant
                n == self.players@.len(),
                self@.hand == Seq::<[char; 2]>::empty(),
                self@.shoe == old(self)@.shoe,
                self@.config == old(self)@.config,
                self@.players.len() == old(self)@.players.len(),
                forall|k: int|
                    0 <= k < n ==> #[trigger] self@.players[k] == if k < i {
                        cleared(old(self)@).players[k]
                    } else {
                        old(self)@.players[k]
                    },
        {
            let ghost before = self.players@;
            let ghost before_view = self@.players;
            assert(self@.players[i as int] == before[i as int]@);
            assert(before[i as int]@ == old(self)@.players[i as int]);
            self.players[i].hands.clear();
            self.players[i].hands.push(Vec::new());
            proof {
                assert(self.players@[i as int]@.hands =~= seq![Seq::<[char; 2]>::empty()]);
                assert(self.players@[i as int].money == before[i as int].money);
                assert forall|k: int| 0 <= k < n implies #[trigger] self@.players[k] == if k < i + 1 {
                    cleared(old(self)@).players[k]
                } else {
                    old(self)@.players[k]
                } by {
                    assert(self@.players[k] == self.players@[k]@);
                    if k != i {
                        assert(self.players@[k] == before[k]);
                        assert(before_view[k] == before[k]@);
                    } else {
                        assert(self@.players[k] == self.players@[k]@);
                    }
                }
            }
        }
        assert(self@ =~= cleared(old(self)@));
    }

    /// One pass of dealing: a card to the dealer, then one to each player's first hand.
    fn deal_pass(&mut self)
        requires
            all_have_hands(old(self)@.players),
        ensures
            final(self)@ == deal_pass(old(self)@),
            all_have_hands(final(self)@.players),
    {
        let _ = cards::hit_card(&mut self.shoe, &mut self.hand);
        let ghost start = self@;
        assert(start =~= hit_dealer(old(self)@));
        let n = self.players.len();
        proof {
            lemma_hit_first_hands_shape(start, n as nat);
        }
        for i in 0..n
            invariant
                n == self.players@.len(),
                n == start.players.len(),
                all_have_hands(start.players),
                self@ == hit_first_hands(start, i as nat),
                hit_first_hands(start, n as nat).players.len() == n,
        {
            proof {
                lemma_hit_first_hands_shape(start, i as nat);
                assert(self@.players[i as int].hands.len() == start.players[i as int].hands.len());
            }
            self.hit_card(i, 0);
            proof {
                lemma_hit_first_hands_shape(start, (i + 1) as nat);
                assert(self.players@.len() == self@.players.len());
            }
        }
        proof {
            lemma_hit_first_hands_shape(start, n as nat);
            assert forall|i: int| 0 <= i < self@.players.len() implies #[trigger] self@.players[i].hands.len() >= 1 by {
                assert(self@.players[i].hands.len() == start.players[i].hands.len());
            }
        }
    }

    /// Deal a hand to all players: two passes, each a card to the dealer and
    /// then one to each player's first hand, while the shoe lasts.
    pub fn deal_hands(&mut self)
        requires
            all_have_hands(old(self)@.players),
        ensures
            final(self)@ == dealt(old(self)@),
    {
        self.deal_pass();
        self.deal_pass();
    }

    /// Hit a card to a player
    ///
    /// * `player` - The index of the player to hit
    /// * `hand` - The index of the player's hand (used for split hands)
    pub fn hit_card(&mut self, player: usize, hand: usize)
        requires
            player < old(self)@.players.len(),
            hand < old(self)@.players[player as int].hands.len(),
        ensures
            final(self)@ == hit_player(old(self)@, player as int, hand as int),
    {
        let ghost before = self.players@;
        let _ = cards::hit_card(&mut self.shoe, &mut self.players[player].hands[hand]);
        proof {
            assert(self.players@[player as int]@.hands =~= old(self)@.players[player as int].hands.update(
                hand as int,
                self.players@[player as int].hands@[hand as int]@,
            ));
            assert(players_view(self.players@) =~= players_view(before).update(
                player as int,
                self.players@[player as int]@,
            ));
        }
        assert(self@ =~= hit_player(old(self)@, player as int, hand as int));
    }
}


// ------------------------------------------------------------------
// A round, as a sequence of steps
// ------------------------------------------------------------------
//
// A round of blackjack alternates the dealer's decisions with questions to
// the players (bets, plays) and notices to them (the up card, the dealer's
// hits, the dealer's final hand). `Dealer::step` makes the decisions: it takes
// the reply to the previous prompt and returns the next prompt. Whoever runs
// the round asks the players and hands their answers back.

/// Where a round stands.
#[derive(Clone, Copy)]
pub enum Phase {
    /// Not begun; the table is cleared first when `clear_table` is set.
    Start { clear_table: bool },
    /// A bet was asked of `player`.
    Bet { player: usize },
    /// An error about a bet was sent to `player`; the bet is asked again next.
    BetError { player: usize },
    /// The bets are in; the hands are dealt next.
    Deal,
    /// The hands are dealt; the dealer's up card is shown next.
    ShowUpCard,
    /// The dealer's up card was shown.
    UpCard,
    /// A play on hand `hand` was asked of `player`.
    Play { player: usize, hand: usize },
    /// An error about a play on hand `hand` was sent to `player`.
    PlayError { player: usize, hand: usize },
    /// A play on hand `hand` of `player` was made; whether it busted is checked next.
    CheckBust { player: usize, hand: usize },
    /// The players are done; the dealer plays its hand.
    DealerTurn,
    /// The dealer hit a card and showed it; it plays on next.
    DealerHit,
    /// The dealer is done; the hands are paid out once the blackjack bonuses are known.
    Settle,
    /// The dealer's hand was shown.
    Reveal,
    /// The round is over.
    Over,
}

/// What a round keeps besides the table: the phase, each player's bet (all
/// they have staked, doubles and splits included), and the state of the
/// current player's turn.
#[verifier::ext_equal]
pub struct RoundModel {
    pub phase: Phase,
    pub bets: Seq<i32>,
    pub can_double: Seq<bool>,
    pub can_split: bool,
    pub stood: Seq<bool>,
    pub original_bet: i32,
    pub hand_count: nat,
    pub busted: bool,
}

/// A round in progress.
pub struct Round {
    phase: Phase,
    bets: Vec<i32>,
    can_double: Vec<bool>,
    can_split: bool,
    stood: Vec<bool>,
    original_bet: i32,
    hand_count: usize,
    busted: bool,
}

impl View for Round {
    type V = RoundModel;

    closed spec fn view(&self) -> RoundModel {
        RoundModel {
            phase: self.phase,
            bets: self.bets@,
            can_double: self.can_double@,
            can_split: self.can_split,
            stood: self.stood@,
            original_bet: self.original_bet,
            hand_count: self.hand_count as nat,
            busted: self.busted,
        }
    }
}

/// A round that has not begun.
pub open spec fn fresh_round(clear_table: bool) -> RoundModel {
    RoundModel {
        phase: Phase::Start { clear_table },
        bets: Seq::empty(),
        can_double: Seq::empty(),
        can_split: false,
        stood: Seq::empty(),
        original_bet: 0,
        hand_count: 0,
        busted: false,
    }
}

/// The answer to the previous prompt.
pub enum Reply {
    /// The answer to `Prompt::Continue`, and the first reply of a round.
    Proceed,
    /// A player's answer to a request.
    Action(PlayerAction),
    /// The blackjack bonus of each bet that `Prompt::Bonuses` listed, in the same places.
    Bonuses(Vec<i32>),
}

/// A reply, with the bonuses as sequences.
pub enum ReplyModel {
    Proceed,
    Action(PlayerAction),
    Bonuses(Seq<i32>),
}

impl View for Reply {
    type V = ReplyModel;

    open spec fn view(&self) -> ReplyModel {
        match self {
            Reply::Proceed => ReplyModel::Proceed,
            Reply::Action(a) => ReplyModel::Action(*a),
            Reply::Bonuses(b) => ReplyModel::Bonuses(b@),
        }
    }
}

/// What the dealer needs next.
pub enum Prompt {
    /// Send a request to a player (`Some` with the player's index) or to all (`None`),
    /// and reply with the answer.
    Ask(DealerRequest, Option<usize>),
    /// Nothing to ask: reply `Reply::Proceed`.
    Continue,
    /// Reply with the blackjack bonus of each of these bets, one per player.
    Bonuses(Vec<i32>),
    /// The round is over.
    Done,
}

/// A prompt, with its cards and bets as sequences.
pub enum PromptModel {
    Ask(RequestModel, Option<usize>),
    Continue,
    Bonuses(Seq<i32>),
    Done,
}

impl View for Prompt {
    type V = PromptModel;

    open spec fn view(&self) -> PromptModel {
        match self {
            Prompt::Ask(q, p) => PromptModel::Ask(q@, *p),
            Prompt::Continue => PromptModel::Continue,
            Prompt::Bonuses(b) => PromptModel::Bonuses(b@),
            Prompt::Done => PromptModel::Done,
        }
    }
}

/// The outcome of a step: the table, the round, and the next prompt.
pub struct Step {
    pub dealer: DealerModel,
    pub round: RoundModel,
    pub prompt: PromptModel,
}

pub open spec fn stepped(d: DealerModel, r: RoundModel, p: PromptModel) -> Step {
    Step { dealer: d, round: r, prompt: p }
}

/// A value that an `i32` holds.
pub open spec fn fits_i32(x: int) -> bool {
    i32::MIN <= x <= i32::MAX
}

/// Whether a hand can be split: two cards of the same rank.
pub open spec fn splittable(hand: Seq<[char; 2]>) -> bool {
    hand.len() == 2 && hand[0][1] == hand[1][1]
}

/// Ask player `i` for a bet, or deal when every player has bet.
pub open spec fn bet_or_deal(d: DealerModel, r: RoundModel, i: int) -> Step {
    if i < d.players.len() {
        stepped(
            d,
            RoundModel { phase: Phase::Bet { player: i as usize }, ..r },
            PromptModel::Ask(RequestModel::Bet, Some(i as usize)),
        )
    } else {
        stepped(d, RoundModel { phase: Phase::Deal, ..r }, PromptModel::Continue)
    }
}

/// Begin the turn of player `i`, or the dealer's turn when every player has played.
///
/// A hand may double down
/// when the rules allow it and it has taken no hit;
/// the player may split when the rules allow it, they hold a single hand that
/// is a pair, and their money covers their bet.
pub open spec fn begin_turn(d: DealerModel, r: RoundModel, i: int) -> Step {
    if i < d.players.len() {
        let p = d.players[i];
        let split = d.config.splitting && p.hands.len() == 1 && splittable(p.hands[0]) && p.money
            >= r.bets[i];
        stepped(
            d,
            RoundModel {
                phase: Phase::Play { player: i as usize, hand: 0 },
                can_double: seq![d.config.doubling_down],
                can_split: split,
                stood: seq![false],
                original_bet: r.bets[i],
                hand_count: 1,
                ..r
            },
            PromptModel::Ask(RequestModel::Play(0), Some(i as usize)),
        )
    } else {
        stepped(d, RoundModel { phase: Phase::DealerTurn, ..r }, PromptModel::Continue)
    }
}

/// Tell player `i` that action `a` on hand `j` cannot be made.
pub open spec fn play_error(d: DealerModel, r: RoundModel, i: int, j: int, a: PlayerAction) -> Step {
    stepped(
        d,
        RoundModel { phase: Phase::PlayError { player: i as usize, hand: j as usize }, ..r },
        PromptModel::Ask(
            RequestModel::Error(PlayerActionError::UnexpectedAction(j as usize, a)),
            Some(i as usize),
        ),
    )
}

/// Whether player `i` may double down on hand `j` now: the hand may, and the
/// player's money covers the original bet.
pub open spec fn may_double(d: DealerModel, r: RoundModel, i: int, j: int) -> bool {
    r.can_double[j] && d.players[i].money >= r.original_bet
}

/// Whether player `i` may split now: the turn allows it (no hit yet), they
/// hold a single hand that is a pair, and their money covers the original bet.
pub open spec fn may_split(d: DealerModel, r: RoundModel, i: int) -> bool {
    &&& r.can_split
    &&& d.players[i].hands.len() == 1
    &&& splittable(d.players[i].hands[0])
    &&& d.players[i].money >= r.original_bet
}

/// The hands once a pair is opened: the first card of the first hand moves
/// to a new, second hand.
pub open spec fn opened_pair(hands: Seq<Seq<[char; 2]>>) -> Seq<Seq<[char; 2]>> {
    let opened = hands.push(Seq::empty());
    opened.update(0, opened[0].drop_first()).update(1, opened[1].push(opened[0][0]))
}

/// The table once player `i` has paid the original bet again and opened
/// their pair, before a card is hit to each hand.
pub open spec fn pair_opened(d: DealerModel, r: RoundModel, i: int) -> DealerModel {
    let p = d.players[i];
    DealerModel {
        players: d.players.update(
            i,
            PlayerModel { money: (p.money - r.original_bet) as i32, hands: opened_pair(p.hands) },
        ),
        ..d
    }
}

/// Player `i` splits: pays the original bet again, which joins their bet,
/// moves the first card of the pair to the new hand, and has a card hit
/// to each hand. Each hand may then double down when the rules allow
/// doubling after a split.
pub open spec fn split_hand(d: DealerModel, r: RoundModel, i: int, j: int) -> Step {
    let d1 = pair_opened(d, r, i);
    let double = d.config.double_after_split && d.config.doubling_down;
    stepped(
        hit_player(hit_player(d1, i, 0), i, 1),
        RoundModel {
            phase: Phase::CheckBust { player: i as usize, hand: j as usize },
            bets: r.bets.update(i, (r.bets[i] + r.original_bet) as i32),
            stood: r.stood.push(false),
            can_double: seq![double, double],
            hand_count: 2,
            can_split: false,
            ..r
        },
        PromptModel::Continue,
    )
}

/// Player `i` plays action `a` on hand `j`.
pub open spec fn play(d: DealerModel, r: RoundModel, i: int, j: int, a: PlayerAction) -> Step {
    let check = Phase::CheckBust { player: i as usize, hand: j as usize };
    match a {
        PlayerAction::Hit => stepped(
            hit_player(d, i, j),
            RoundModel {
                phase: check,
                can_double: r.can_double.update(j, false),
                can_split: false,
                ..r
            },
            PromptModel::Continue,
        ),
        PlayerAction::Stand => stepped(
            d,
            RoundModel { phase: check, stood: r.stood.update(j, true), ..r },
            PromptModel::Continue,
        ),
        PlayerAction::DoubleDown => if may_double(d, r, i, j) {
            stepped(
                hit_player(with_money(d, i, (d.players[i].money - r.original_bet) as i32), i, j),
                RoundModel {
                    phase: check,
                    bets: r.bets.update(i, (r.bets[i] + r.original_bet) as i32),
                    stood: r.stood.update(j, true),
                    can_double: r.can_double.update(j, false),
                    ..r
                },
                PromptModel::Continue,
            )
        } else {
            play_error(d, r, i, j, a)
        },
        PlayerAction::Split => if may_split(d, r, i) {
            split_hand(d, r, i, j)
        } else {
            play_error(d, r, i, j, a)
        },
        _ => play_error(d, r, i, j, a),
    }
}

/// Which hands of player `i` are done once hand `j` is checked for a bust.
pub open spec fn stood_after_check(d: DealerModel, r: RoundModel, i: int, j: int) -> Seq<bool> {
    if hand_value(d.players[i].hands[j], true) > 21 {
        r.stood.update(j, true)
    } else {
        r.stood
    }
}

/// After a play on hand `j` of player `i`: a busted hand is done; ask again
/// for a hand that is not done, else go on to the next hand, else to the next player.
pub open spec fn check_bust(d: DealerModel, r: RoundModel, i: int, j: int) -> Step {
    let stood = stood_after_check(d, r, i, j);
    let r1 = RoundModel { stood: stood, ..r };
    if !stood[j] {
        stepped(
            d,
            RoundModel { phase: Phase::Play { player: i as usize, hand: j as usize }, ..r1 },
            PromptModel::Ask(RequestModel::Play(j as usize), Some(i as usize)),
        )
    } else if j + 1 < r.hand_count && !stood[j + 1] {
        stepped(
            d,
            RoundModel { phase: Phase::Play { player: i as usize, hand: (j + 1) as usize }, ..r1 },
            PromptModel::Ask(RequestModel::Play((j + 1) as usize), Some(i as usize)),
        )
    } else {
        begin_turn(d, r1, i + 1)
    }
}

/// Whether the dealer hits: under 17, or on a soft 17 when it does not stand on soft 17.
pub open spec fn dealer_hits(d: DealerModel) -> bool {
    let v = hand_value(d.hand, true);
    v < 17 || (v == 17 && !d.config.stand_soft_17 && is_soft(d.hand))
}

/// Ask for the blackjack bonuses of the bets, to settle the round.
pub open spec fn to_settle(d: DealerModel, r: RoundModel) -> Step {
    stepped(d, RoundModel { phase: Phase::Settle, ..r }, PromptModel::Bonuses(r.bets))
}

/// The dealer plays one card at a time: it busts over 21, hits (and shows the
/// card) while `dealer_hits`, and otherwise stands.
pub open spec fn dealer_turn(d: DealerModel, r: RoundModel) -> Step {
    let v = hand_value(d.hand, true);
    if v > 21 {
        to_settle(d, RoundModel { busted: true, ..r })
    } else if dealer_hits(d) {
        stepped(
            DealerModel { hand: d.hand.push(d.shoe[0]), shoe: d.shoe.drop_first(), ..d },
            RoundModel { phase: Phase::DealerHit, ..r },
            PromptModel::Ask(RequestModel::HitCard(d.shoe[0]), None),
        )
    } else {
        to_settle(d, r)
    }
}

/// Integer division as `i32` computes it, rounding toward zero (for `b > 0`).
pub open spec fn trunc_div(a: int, b: int) -> int {
    if a >= 0 {
        a / b
    } else {
        -((-a) / b)
    }
}

/// What a hand pays its player out of the player's whole bet `bet`: nothing
/// when it busts or loses; twice the bet shared among the player's `n_hands`
/// hands when it wins; the bet plus the blackjack bonus for a two-card 21
/// that wins, or the bet back when the dealer has a two-card 21 too; the bet
/// back on a tie.
pub open spec fn payout(
    bet: int,
    hand: Seq<[char; 2]>,
    n_hands: int,
    dealer: Seq<[char; 2]>,
    busted: bool,
    bonus: int,
) -> int {
    let v = hand_value(hand, true);
    let dv = hand_value(dealer, true);
    if v > 21 {
        0
    } else if v < 21 && (busted || v > dv) {
        trunc_div(bet * 2, n_hands)
    } else if v == 21 && (busted || v > dv) {
        if hand.len() == 2 {
            if dv == 21 && dealer.len() == 2 {
                bet
            } else {
                bet + bonus
            }
        } else {
            trunc_div(bet * 2, n_hands)
        }
    } else if v == dv {
        bet
    } else {
        0
    }
}

/// The intermediate values of `payout` fit in an `i32`, and the hand's value fits in a byte.
pub open spec fn payout_fits(
    bet: int,
    hand: Seq<[char; 2]>,
    n_hands: int,
    dealer: Seq<[char; 2]>,
    busted: bool,
    bonus: int,
) -> bool {
    let v = hand_value(hand, true);
    let dv = hand_value(dealer, true);
    &&& hand_value_fits(hand, true)
    &&& if v > 21 {
        true
    } else if v < 21 && (busted || v > dv) {
        fits_i32(bet * 2)
    } else if v == 21 && (busted || v > dv) {
        if hand.len() == 2 {
            dv == 21 && dealer.len() == 2 || fits_i32(bet + bonus)
        } else {
            fits_i32(bet * 2)
        }
    } else {
        true
    }
}

/// The sum of the payouts of the first `k` of a player's hands.
pub open spec fn winnings(
    bet: int,
    hands: Seq<Seq<[char; 2]>>,
    k: int,
    dealer: Seq<[char; 2]>,
    busted: bool,
    bonus: int,
) -> int
    decreases k,
{
    if k <= 0 {
        0
    } else {
        winnings(bet, hands, k - 1, dealer, busted, bonus) + payout(
            bet,
            hands[k - 1],
            hands.len() as int,
            dealer,
            busted,
            bonus,
        )
    }
}

/// What player `i` wins in all: the payouts of all their hands.
pub open spec fn player_winnings(d: DealerModel, r: RoundModel, bonuses: Seq<i32>, i: int) -> int {
    winnings(
        r.bets[i] as int,
        d.players[i].hands,
        d.players[i].hands.len() as int,
        d.hand,
        r.busted,
        bonuses[i] as int,
    )
}

/// The table after every hand is paid out.
pub open spec fn settled(d: DealerModel, r: RoundModel, bonuses: Seq<i32>) -> DealerModel {
    DealerModel {
        players: Seq::new(
            d.players.len(),
            |i: int|
                PlayerModel {
                    money: (d.players[i].money + player_winnings(d, r, bonuses, i)) as i32,
                    hands: d.players[i].hands,
                },
        ),
        ..d
    }
}

/// Paying out the hands of player `i` keeps each running total in an `i32`.
pub open spec fn player_settles(d: DealerModel, r: RoundModel, bonuses: Seq<i32>, i: int) -> bool {
    let p = d.players[i];
    &&& p.hands.len() <= i32::MAX
    &&& forall|j: int|
        0 <= j < p.hands.len() ==> payout_fits(
            r.bets[i] as int,
            #[trigger] p.hands[j],
            p.hands.len() as int,
            d.hand,
            r.busted,
            bonuses[i] as int,
        )
    &&& forall|k: int|
        0 <= k <= p.hands.len() ==> fits_i32(
            p.money + #[trigger] winnings(
                r.bets[i] as int,
                p.hands,
                k,
                d.hand,
                r.busted,
                bonuses[i] as int,
            ),
        )
}

/// There is a bonus for each player, and paying out every hand keeps each
/// running total in an `i32`.
pub open spec fn settle_fits(d: DealerModel, r: RoundModel, bonuses: Seq<i32>) -> bool {
    &&& bonuses.len() == d.players.len()
    &&& hand_value_fits(d.hand, true)
    &&& forall|i: int| 0 <= i < d.players.len() ==> #[trigger] player_settles(d, r, bonuses, i)
}

/// One step of a round: the table, the round and the prompt after `reply`.
pub open spec fn next(d: DealerModel, r: RoundModel, reply: ReplyModel) -> Step {
    match r.phase {
        Phase::Start { clear_table } => bet_or_deal(
            if clear_table {
                cleared(d)
            } else {
                d
            },
            fresh_round(clear_table),
            0,
        ),
        Phase::Bet { player } => {
            let i = player as int;
            match reply {
                ReplyModel::Action(a) => match a {
                    PlayerAction::Bet(amount) => if d.players[i].money >= amount {
                        bet_or_deal(
                            with_money(d, i, (d.players[i].money - amount) as i32),
                            RoundModel {
                                bets: r.bets.push(amount),
                                ..r
                            },
                            i + 1,
                        )
                    } else {
                        stepped(
                            d,
                            RoundModel { phase: Phase::BetError { player }, ..r },
                            PromptModel::Ask(
                                RequestModel::Error(PlayerActionError::NotEnoughMoney(0, a)),
                                Some(player),
                            ),
                        )
                    },
                    _ => stepped(
                        d,
                        RoundModel { phase: Phase::BetError { player }, ..r },
                        PromptModel::Ask(
                            RequestModel::Error(PlayerActionError::UnexpectedAction(0, a)),
                            Some(player),
                        ),
                    ),
                },
                _ => stepped(d, r, PromptModel::Done),
            }
        },
        Phase::BetError { player } => stepped(
            d,
            RoundModel { phase: Phase::Bet { player }, ..r },
            PromptModel::Ask(RequestModel::Bet, Some(player)),
        ),
        Phase::Deal => stepped(
            dealt(d),
            RoundModel { phase: Phase::ShowUpCard, ..r },
            PromptModel::Continue,
        ),
        Phase::ShowUpCard => stepped(
            d,
            RoundModel { phase: Phase::UpCard, ..r },
            PromptModel::Ask(RequestModel::UpCard(d.hand[1]), None),
        ),
        Phase::UpCard => begin_turn(d, r, 0),
        Phase::Play { player, hand } => match reply {
            ReplyModel::Action(a) => play(d, r, player as int, hand as int, a),
            _ => stepped(d, r, PromptModel::Done),
        },
        Phase::PlayError { player, hand } => stepped(
            d,
            RoundModel { phase: Phase::CheckBust { player, hand }, ..r },
            PromptModel::Continue,
        ),
        Phase::CheckBust { player, hand } => check_bust(d, r, player as int, hand as int),
        Phase::DealerTurn => dealer_turn(d, r),
        Phase::DealerHit => stepped(
            d,
            RoundModel { phase: Phase::DealerTurn, ..r },
            PromptModel::Continue,
        ),
        Phase::Settle => match reply {
            ReplyModel::Bonuses(b) => stepped(
                settled(d, r, b),
                RoundModel { phase: Phase::Reveal, ..r },
                PromptModel::Ask(RequestModel::DealerHand(d.hand), None),
            ),
            _ => stepped(d, r, PromptModel::Done),
        },
        Phase::Reveal => stepped(d, RoundModel { phase: Phase::Over, ..r }, PromptModel::Done),
        Phase::Over => stepped(d, r, PromptModel::Done),
    }
}

/// The reply has the kind that the phase waits for.
pub open spec fn awaits(r: RoundModel, reply: ReplyModel) -> bool {
    match r.phase {
        Phase::Start { .. } | Phase::Deal | Phase::ShowUpCard | Phase::CheckBust { .. }
        | Phase::DealerTurn => reply is Proceed,
        Phase::Settle => reply is Bonuses,
        Phase::Over => true,
        _ => reply is Action,
    }
}

/// The round agrees with the table: a bet for each player who has bet, and a turn in progress that fits the current player's hands.
pub open spec fn consistent(d: DealerModel, r: RoundModel) -> bool {
    let n = d.players.len();
    n <= usize::MAX && match r.phase {
        Phase::Start { .. } => true,
        Phase::Bet { player } | Phase::BetError { player } => player < n && r.bets.len() == player,
        Phase::Play { player, hand } | Phase::PlayError { player, hand } | Phase::CheckBust {
            player,
            hand,
        } => {
            &&& r.bets.len() == n
            &&& player < n
            &&& 1 <= r.hand_count <= 2
            &&& hand < r.hand_count
            &&& r.stood.len() == r.hand_count
            &&& r.can_double.len() == r.hand_count
            &&& r.hand_count <= d.players[player as int].hands.len()
            &&& r.can_split ==> r.hand_count == 1
            &&& !(r.phase is CheckBust) ==> !r.stood[hand as int]
        },
        _ => r.bets.len() == n,
    }
}

/// The turn of player `i` can begin: when `i` is a player, they have a hand.
pub open spec fn turn_ready(d: DealerModel, i: int) -> bool {
    i < d.players.len() ==> d.players[i].hands.len() >= 1
}

/// The step does none of what makes a round panic: an `i32` that overflows,
/// a hand value over a byte, an up card or a dealer's hit from too few cards,
/// a deal without the hand it works on.
pub open spec fn safe(d: DealerModel, r: RoundModel, reply: ReplyModel) -> bool {
    match r.phase {
        Phase::Bet { player } => match reply {
            ReplyModel::Action(PlayerAction::Bet(amount)) => d.players[player as int].money
                >= amount ==> fits_i32(d.players[player as int].money - amount),
            _ => true,
        },
        Phase::Deal => all_have_hands(d.players),
        Phase::ShowUpCard => d.hand.len() >= 2,
        Phase::UpCard => turn_ready(d, 0),
        Phase::Play { player, hand } => {
            let i = player as int;
            let j = hand as int;
            let pays = fits_i32(d.players[i].money - r.original_bet) && fits_i32(
                r.bets[i] + r.original_bet,
            );
            match reply {
                ReplyModel::Action(PlayerAction::DoubleDown) => may_double(d, r, i, j) ==> pays,
                ReplyModel::Action(PlayerAction::Split) => may_split(d, r, i) ==> pays,
                _ => true,
            }
        },
        Phase::CheckBust { player, hand } => {
            let i = player as int;
            let j = hand as int;
            let stood = stood_after_check(d, r, i, j);
            &&& hand_value_fits(d.players[i].hands[j], true)
            &&& (stood[j] && !(j + 1 < r.hand_count && !stood[j + 1])) ==> turn_ready(d, i + 1)
        },
        Phase::DealerTurn => {
            &&& hand_value_fits(d.hand, true)
            &&& (hand_value(d.hand, true) <= 21 && dealer_hits(d)) ==> d.shoe.len() > 0
        },
        Phase::Settle => match reply {
            ReplyModel::Bonuses(b) => settle_fits(d, r, b),
            _ => true,
        },
        _ => true,
    }
}

/// `Dealer::step` may be called: the reply has the awaited kind, the round
/// agrees with the table, and the step does not panic.
pub open spec fn ready(d: DealerModel, r: RoundModel, reply: ReplyModel) -> bool {
    awaits(r, reply) && consistent(d, r) && safe(d, r, reply)
}


impl Round {
    /// Returns a round that has not begun; the table is cleared first when `clear_table` is set.
    pub fn new(clear_table: bool) -> (round: Round)
        ensures
            round@ == fresh_round(clear_table),
    {
        let round = Round {
            phase: Phase::Start { clear_table },
            bets: Vec::new(),
            can_double: Vec::new(),
            can_split: false,
            stood: Vec::new(),
            original_bet: 0,
            hand_count: 0,
            busted: false,
        };
        assert(round@ =~= fresh_round(clear_table));
        round
    }

    /// Makes the round one that has not begun.
    fn reset(&mut self, clear_table: bool)
        ensures
            final(self)@ == fresh_round(clear_table),
    {
        self.phase = Phase::Start { clear_table };
        self.bets = Vec::new();
        self.can_double = Vec::new();
        self.can_split = false;
        self.stood = Vec::new();
        self.original_bet = 0;
        self.hand_count = 0;
        self.busted = false;
        assert(self@ =~= fresh_round(clear_table));
    }

    /// Where the round stands
    pub fn phase(&self) -> (r: Phase)
        ensures
            r == self@.phase,
    {
        self.phase
    }

    /// The bets of the players who have bet, in the players' order
    pub fn bets(&self) -> (r: &Vec<i32>)
        ensures
            r@ == self@.bets,
    {
        &self.bets
    }

}

/// A copy of a list of amounts.
fn copy_amounts(amounts: &Vec<i32>) -> (r: Vec<i32>)
    ensures
        r@ == amounts@,
{
    let mut r: Vec<i32> = Vec::new();
    for k in 0..amounts.len()
        invariant
            r@ == amounts@.take(k as int),
    {
        r.push(amounts[k]);
        assert(r@ =~= amounts@.take(k + 1));
    }
    assert(amounts@.take(amounts@.len() as int) =~= amounts@);
    r
}

/// A copy of a hand.
fn copy_cards(hand: &Vec<[char; 2]>) -> (r: Vec<[char; 2]>)
    ensures
        r@ == hand@,
{
    let mut r: Vec<[char; 2]> = Vec::new();
    for k in 0..hand.len()
        invariant
            r@ == hand@.take(k as int),
    {
        r.push(hand[k]);
        assert(r@ =~= hand@.take(k + 1));
    }
    assert(hand@.take(hand@.len() as int) =~= hand@);
    r
}

impl Dealer {
    /// Sets the money of player `i`.
    fn set_money(&mut self, i: usize, m: i32)
        requires
            i < old(self)@.players.len(),
        ensures
            final(self)@ == with_money(old(self)@, i as int, m),
    {
        let ghost before = self.players@;
        self.players[i].money = m;
        proof {
            assert(players_view(self.players@) =~= players_view(before).update(
                i as int,
                self.players@[i as int]@,
            ));
            assert(self.players@[i as int]@ =~= (PlayerModel {
                money: m,
                hands: old(self)@.players[i as int].hands,
            }));
        }
        assert(self@ =~= with_money(old(self)@, i as int, m));
    }

    /// Ask player `i` for a bet, or deal when every player has bet.
    fn bet_or_deal(&self, round: &mut Round, i: usize) -> (p: Prompt)
        ensures
            bet_or_deal(self@, old(round)@, i as int) == stepped(self@, final(round)@, p@),
    {
        if i < self.players.len() {
            round.phase = Phase::Bet { player: i };
            Prompt::Ask(DealerRequest::Bet, Some(i))
        } else {
            round.phase = Phase::Deal;
            Prompt::Continue
        }
    }

    /// Begin the turn of player `i`, or the dealer's turn when every player has played.
    fn begin_turn(&self, round: &mut Round, i: usize) -> (p: Prompt)
        requires
            turn_ready(self@, i as int),
            i < self@.players.len() ==> old(round)@.bets.len() == self@.players.len(),
        ensures
            begin_turn(self@, old(round)@, i as int) == stepped(self@, final(round)@, p@),
    {
        if i < self.players.len() {
            assert(self@.players[i as int] == self.players@[i as int]@);
            let bet = round.bets[i];
            let double = self.config.doubling_down;
            let split = self.config.splitting && self.players[i].hands.len() == 1 && can_split(
                &self.players[i].hands[0],
            ) && self.players[i].money >= bet;
            round.phase = Phase::Play { player: i, hand: 0 };
            round.can_double = vec![double];
            round.can_split = split;
            round.stood = vec![false];
            round.original_bet = bet;
            round.hand_count = 1;
            proof {
                assert(round.can_double@ =~= seq![double]);
                assert(round.stood@ =~= seq![false]);
            }
            Prompt::Ask(DealerRequest::Play(0), Some(i))
        } else {
            round.phase = Phase::DealerTurn;
            Prompt::Continue
        }
    }

    /// Takes the answer `a` of player `i` to a request for a bet.
    fn take_bet(&mut self, round: &mut Round, i: usize, a: PlayerAction) -> (p: Prompt)
        requires
            i < old(self)@.players.len(),
            old(round)@.bets.len() == i,
            old(round)@.phase == (Phase::Bet { player: i }),
            safe(old(self)@, old(round)@, ReplyModel::Action(a)),
        ensures
            next(old(self)@, old(round)@, ReplyModel::Action(a)) == stepped(
                final(self)@,
                final(round)@,
                p@,
            ),
    {
        assert(self@.players[i as int] == self.players@[i as int]@);
        assert(i < self.players.len());
        let next_player = i + 1;
        match a {
            PlayerAction::Bet(amount) => {
                let money = self.players[i].money;
                if money >= amount {
                    round.bets.push(amount);
                    self.set_money(i, money - amount);
                    self.bet_or_deal(round, next_player)
                } else {
                    round.phase = Phase::BetError { player: i };
                    Prompt::Ask(
                        DealerRequest::Error(PlayerActionError::NotEnoughMoney(0, a)),
                        Some(i),
                    )
                }
            },
            _ => {
                round.phase = Phase::BetError { player: i };
                Prompt::Ask(DealerRequest::Error(PlayerActionError::UnexpectedAction(0, a)), Some(i))
            },
        }
    }
}


impl Dealer {
    /// Player `i` splits hand `j` (the first hand).
    fn split_hand(&mut self, round: &mut Round, i: usize, j: usize)
        requires
            consistent(old(self)@, old(round)@),
            old(round)@.phase == (Phase::Play { player: i, hand: j }),
            may_split(old(self)@, old(round)@, i as int),
            fits_i32(old(self)@.players[i as int].money - old(round)@.original_bet),
            fits_i32(old(round)@.bets[i as int] + old(round)@.original_bet),
        ensures
            split_hand(old(self)@, old(round)@, i as int, j as int) == stepped(
                final(self)@,
                final(round)@,
                Prompt::Continue@,
            ),
    {
        let ghost d = self@;
        let ghost r = round@;
        assert(self@.players[i as int] == self.players@[i as int]@);
        let ob = round.original_bet;
        let money = self.players[i].money - ob;
        let new_bet = round.bets[i] + ob;
        round.bets.set(i, new_bet);
        // pay, open a hand, and move the first card of the first hand to the second
        let ghost before = self.players@;
        self.players[i].money = money;
        self.players[i].hands.push(Vec::new());
        let card = cards::draw_card(&mut self.players[i].hands[0]);
        match card {
            Ok(c) => {
                self.players[i].hands[1].push(c);
            },
            Err(()) => {
                assert(false);
            },
        }
        proof {
            assert(self.players@[i as int]@.hands =~= opened_pair(d.players[i as int].hands));
            assert(players_view(self.players@) =~= players_view(before).update(
                i as int,
                self.players@[i as int]@,
            ));
            assert(self@ =~= pair_opened(d, r, i as int));
        }
        self.hit_card(i, 0);
        self.hit_card(i, 1);
        round.stood.push(false);
        let double = self.config.double_after_split && self.config.doubling_down;
        round.can_double = vec![double, double];
        assert(round.can_double@ =~= seq![double, double]);
        round.hand_count = 2;
        round.can_split = false;
        round.phase = Phase::CheckBust { player: i, hand: j };
        assert(round@ =~= split_hand(d, r, i as int, j as int).round);
    }

    /// Player `i` answers `a` to a request to play hand `j`.
    fn play(&mut self, round: &mut Round, i: usize, j: usize, a: PlayerAction) -> (p: Prompt)
        requires
            consistent(old(self)@, old(round)@),
            old(round)@.phase == (Phase::Play { player: i, hand: j }),
            safe(old(self)@, old(round)@, ReplyModel::Action(a)),
        ensures
            play(old(self)@, old(round)@, i as int, j as int, a) == stepped(
                final(self)@,
                final(round)@,
                p@,
            ),
    {
        let ghost d = self@;
        let ghost r = round@;
        assert(self@.players[i as int] == self.players@[i as int]@);
        match a {
            PlayerAction::Hit => {
                self.hit_card(i, j);
                round.can_double.set(j, false);
                round.can_split = false;
                round.phase = Phase::CheckBust { player: i, hand: j };
                assert(round@ =~= play(d, r, i as int, j as int, a).round);
                Prompt::Continue
            },
            PlayerAction::Stand => {
                round.stood.set(j, true);
                round.phase = Phase::CheckBust { player: i, hand: j };
                assert(round@ =~= play(d, r, i as int, j as int, a).round);
                Prompt::Continue
            },
            PlayerAction::DoubleDown => {
                let ob = round.original_bet;
                if round.can_double[j] && self.players[i].money >= ob {
                    let money = self.players[i].money - ob;
                    self.set_money(i, money);
                    let new_bet = round.bets[i] + ob;
                    round.bets.set(i, new_bet);
                    round.stood.set(j, true);
                    self.hit_card(i, j);
                    round.can_double.set(j, false);
                    round.phase = Phase::CheckBust { player: i, hand: j };
                    assert(round@ =~= play(d, r, i as int, j as int, a).round);
                    Prompt::Continue
                } else {
                    round.phase = Phase::PlayError { player: i, hand: j };
                    Prompt::Ask(DealerRequest::Error(PlayerActionError::UnexpectedAction(j, a)), Some(i))
                }
            },
            PlayerAction::Split => {
                if round.can_split && self.players[i].hands.len() == 1 && can_split(
                    &self.players[i].hands[0],
                ) && self.players[i].money >= round.original_bet {
                    self.split_hand(round, i, j);
                    Prompt::Continue
                } else {
                    round.phase = Phase::PlayError { player: i, hand: j };
                    Prompt::Ask(DealerRequest::Error(PlayerActionError::UnexpectedAction(j, a)), Some(i))
                }
            },
            _ => {
                round.phase = Phase::PlayError { player: i, hand: j };
                Prompt::Ask(DealerRequest::Error(PlayerActionError::UnexpectedAction(j, a)), Some(i))
            },
        }
    }
}


impl Dealer {
    /// After a play on hand `j` of player `i`: see `check_bust`.
    fn check_bust(&self, round: &mut Round, i: usize, j: usize) -> (p: Prompt)
        requires
            consistent(self@, old(round)@),
            old(round)@.phase == (Phase::CheckBust { player: i, hand: j }),
            safe(self@, old(round)@, ReplyModel::Proceed),
        ensures
            check_bust(self@, old(round)@, i as int, j as int) == stepped(
                self@,
                final(round)@,
                p@,
            ),
    {
        let ghost r = round@;
        assert(self@.players[i as int] == self.players@[i as int]@);
        assert(self@.players[i as int].hands[j as int] == self.players@[i as int].hands@[j as int]@);
        if get_hand_value(&self.players[i].hands[j], true) > 21 {
            round.stood.set(j, true);
        }
        assert(round.stood@ =~= stood_after_check(self@, r, i as int, j as int));
        if !round.stood[j] {
            round.phase = Phase::Play { player: i, hand: j };
            Prompt::Ask(DealerRequest::Play(j), Some(i))
        } else if j + 1 < round.hand_count && !round.stood[j + 1] {
            round.phase = Phase::Play { player: i, hand: j + 1 };
            Prompt::Ask(DealerRequest::Play(j + 1), Some(i))
        } else {
            assert(i < self.players.len());
            self.begin_turn(round, i + 1)
        }
    }

    /// The dealer plays: see `dealer_turn`.
    fn dealer_turn(&mut self, round: &mut Round) -> (p: Prompt)
        requires
            consistent(old(self)@, old(round)@),
            old(round)@.phase == Phase::DealerTurn,
            safe(old(self)@, old(round)@, ReplyModel::Proceed),
        ensures
            dealer_turn(old(self)@, old(round)@) == stepped(final(self)@, final(round)@, p@),
    {
        let ghost d = self@;
        let v = get_hand_value(&self.hand, true);
        let hits = if v > 21 {
            round.busted = true;
            false
        } else if v < 17 {
            true
        } else {
            // a soft 17 is hit when the dealer does not stand on it
            v == 17 && !self.config.stand_soft_17 && hand_is_soft(&self.hand)
        };
        if hits {
            match cards::draw_card(&mut self.shoe) {
                Ok(card) => {
                    self.hand.push(card);
                    round.phase = Phase::DealerHit;
                    assert(self@ =~= dealer_turn(d, old(round)@).dealer);
                    Prompt::Ask(DealerRequest::HitCard(card), None)
                },
                Err(()) => {
                    assert(false);
                    Prompt::Done
                },
            }
        } else {
            round.phase = Phase::Settle;
            Prompt::Bonuses(copy_amounts(&round.bets))
        }
    }
}

/// What hand `hand` pays its player: see `payout`.
fn payout_of(
    bet: i32,
    hand: &Vec<[char; 2]>,
    n_hands: usize,
    dealer: &Vec<[char; 2]>,
    dealer_value: u8,
    busted: bool,
    bonus: i32,
) -> (r: i32)
    requires
        1 <= n_hands <= i32::MAX,
        dealer_value == hand_value(dealer@, true),
        payout_fits(bet as int, hand@, n_hands as int, dealer@, busted, bonus as int),
    ensures
        r == payout(bet as int, hand@, n_hands as int, dealer@, busted, bonus as int),
{
    let v = get_hand_value(hand, true);
    if v > 21 {
        0
    } else if v < 21 && (busted || v > dealer_value) {
        bet * 2 / (n_hands as i32)
    } else if v == 21 && (busted || v > dealer_value) {
        if hand.len() == 2 {
            if dealer_value == 21 && dealer.len() == 2 {
                bet
            } else {
                bet + bonus
            }
        } else {
            bet * 2 / (n_hands as i32)
        }
    } else if v == dealer_value {
        bet
    } else {
        0
    }
}


impl Dealer {
    /// Pays out every hand: see `settled`.
    fn settle(&mut self, round: &Round, bonuses: &Vec<i32>)
        requires
            consistent(old(self)@, round@),
            round@.phase == Phase::Settle,
            settle_fits(old(self)@, round@, bonuses@),
        ensures
            final(self)@ == settled(old(self)@, round@, bonuses@),
    {
        let ghost d = self@;
        let ghost r = round@;
        let ghost b = bonuses@;
        let dv = get_hand_value(&self.hand, true);
        let n = self.players.len();
        for i in 0..n
            invariant
                n == self.players@.len(),
                n == d.players.len(),
                r == round@,
                b == bonuses@,
                round@.bets.len() == n,
                bonuses@.len() == n,
                dv == hand_value(d.hand, true),
                settle_fits(d, r, b),
                self@.hand == d.hand,
                self@.shoe == d.shoe,
                self@.config == d.config,
                self@.players.len() == n,
                forall|k: int|
                    0 <= k < n ==> #[trigger] self@.players[k] == if k < i {
                        settled(d, r, b).players[k]
                    } else {
                        d.players[k]
                    },
        {
            let ghost p0 = d.players[i as int];
            assert(self@.players[i as int] == self.players@[i as int]@);
            let nh = self.players[i].hands.len();
            assert(p0.hands.len() == nh);
            for j in 0..nh
                invariant
                    n == self.players@.len(),
                    n == d.players.len(),
                    i < n,
                    r == round@,
                    b == bonuses@,
                    round@.bets.len() == n,
                    bonuses@.len() == n,
                    dv == hand_value(d.hand, true),
                    settle_fits(d, r, b),
                    p0 == d.players[i as int],
                    nh == p0.hands.len(),
                    self@.hand == d.hand,
                    self@.shoe == d.shoe,
                    self@.config == d.config,
                    self@.players.len() == n,
                    self@.players[i as int].hands == p0.hands,
                    self@.players[i as int].money == p0.money + winnings(
                        r.bets[i as int] as int,
                        p0.hands,
                        j as int,
                        d.hand,
                        r.busted,
                        b[i as int] as int,
                    ),
                    forall|k: int|
                        0 <= k < n && k != i ==> #[trigger] self@.players[k] == if k < i {
                            settled(d, r, b).players[k]
                        } else {
                            d.players[k]
                        },
            {
                assert(self@.players[i as int] == self.players@[i as int]@);
                assert(self@.players[i as int].hands[j as int] == self.players@[i as int].hands@[j as int]@);
                assert(player_settles(d, r, b, i as int));
                assert(payout_fits(
                    r.bets[i as int] as int,
                    p0.hands[j as int],
                    p0.hands.len() as int,
                    d.hand,
                    r.busted,
                    b[i as int] as int,
                ));
                let pay = payout_of(
                    round.bets[i],
                    &self.players[i].hands[j],
                    nh,
                    &self.hand,
                    dv,
                    round.busted,
                    bonuses[i],
                );
                assert(fits_i32(p0.money + winnings(
                    r.bets[i as int] as int,
                    p0.hands,
                    j + 1,
                    d.hand,
                    r.busted,
                    b[i as int] as int,
                )));
                let m = self.players[i].money + pay;
                self.set_money(i, m);
                assert(self.players@.len() == self@.players.len());
            }
            proof {
                assert(self@.players[i as int] =~= settled(d, r, b).players[i as int]);
            }
        }
        assert(self@ =~= settled(d, r, b));
    }

    /// Begins a round: clears the table when asked to, then asks for the first bet.
    fn begin_round(
        &mut self,
        round: &mut Round,
        clear_table: bool,
        Ghost(reply): Ghost<ReplyModel>,
    ) -> (p: Prompt)
        requires
            old(round)@.phase == (Phase::Start { clear_table }),
        ensures
            final(self)@ == next(old(self)@, old(round)@, reply).dealer,
            final(round)@ == next(old(self)@, old(round)@, reply).round,
            p@ == next(old(self)@, old(round)@, reply).prompt,
    {
        if clear_table {
            self.clear_table();
        }
        round.reset(clear_table);
        self.bet_or_deal(round, 0)
    }

    /// One step of a round (see `next`): takes the reply to the previous
    /// prompt and returns the next prompt.
    ///
    /// `ready` must hold: the reply is of the kind the round waits for, the
    /// round agrees with the table, and the step does none of what makes a
    /// round panic (see `safe`). `can_step` tells whether it holds.
    pub fn step(&mut self, round: &mut Round, reply: Reply) -> (prompt: Prompt)
        requires
            ready(old(self)@, old(round)@, reply@),
        ensures
            final(self)@ == next(old(self)@, old(round)@, reply@).dealer,
            final(round)@ == next(old(self)@, old(round)@, reply@).round,
            prompt@ == next(old(self)@, old(round)@, reply@).prompt,
    {
        let ghost d = self@;
        let ghost r = round@;
        let out = match round.phase {
            Phase::Start { clear_table } => self.begin_round(round, clear_table, Ghost(reply@)),
            Phase::Bet { player } => match reply {
                Reply::Action(a) => self.take_bet(round, player, a),
                _ => Prompt::Done,
            },
            Phase::BetError { player } => {
                round.phase = Phase::Bet { player };
                Prompt::Ask(DealerRequest::Bet, Some(player))
            },
            Phase::Deal => {
                self.deal_hands();
                round.phase = Phase::ShowUpCard;
                Prompt::Continue
            },
            Phase::ShowUpCard => {
                let card = self.hand[1];
                round.phase = Phase::UpCard;
                Prompt::Ask(DealerRequest::UpCard(card), None)
            },
            Phase::UpCard => self.begin_turn(round, 0),
            Phase::Play { player, hand } => match reply {
                Reply::Action(a) => self.play(round, player, hand, a),
                _ => Prompt::Done,
            },
            Phase::PlayError { player, hand } => {
                round.phase = Phase::CheckBust { player, hand };
                Prompt::Continue
            },
            Phase::CheckBust { player, hand } => self.check_bust(round, player, hand),
            Phase::DealerTurn => self.dealer_turn(round),
            Phase::DealerHit => {
                round.phase = Phase::DealerTurn;
                Prompt::Continue
            },
            Phase::Settle => match reply {
                Reply::Bonuses(bonuses) => {
                    self.settle(round, &bonuses);
                    round.phase = Phase::Reveal;
                    Prompt::Ask(DealerRequest::DealerHand(copy_cards(&self.hand)), None)
                },
                _ => Prompt::Done,
            },
            Phase::Reveal => {
                round.phase = Phase::Over;
                Prompt::Done
            },
            Phase::Over => Prompt::Done,
        };
        out
    }
}


/// Whether `get_hand_value` can compute the value of a hand: see `hand_value_fits`.
pub fn hand_value_fits_in_byte(hand: &Vec<[char; 2]>, auto_aces: bool) -> (r: bool)
    ensures
        r == hand_value_fits(hand@, auto_aces),
{
    let mut base: u64 = 0;
    let mut aces: u64 = 0;
    let mut idx: usize = 0;
    assert(hand@.take(0) =~= Seq::<[char; 2]>::empty());
    while idx < hand.len()
        invariant
            idx <= hand@.len(),
            base == base_points(hand@.take(idx as int)),
            aces == ace_count(hand@.take(idx as int)),
            base + aces <= 255,
        decreases hand@.len() - idx,
    {
        assert(hand@.take(idx + 1).drop_last() =~= hand@.take(idx as int));
        proof {
            lemma_prefix_counts(hand@, idx + 1);
        }
        let rank = hand[idx][1];
        if rank == 'A' {
            aces = aces + 1;
        }
        base = base + card_points(rank) as u64;
        idx = idx + 1;
        if base + aces > 255 {
            return false;
        }
    }
    assert(hand@.take(hand@.len() as int) =~= hand@);
    if auto_aces {
        true
    } else {
        base + 11 * aces <= 255
    }
}

/// Whether a value fits in an `i32`.
fn fits_in_i32(x: i64) -> (r: bool)
    ensures
        r == fits_i32(x as int),
{
    i32::MIN as i64 <= x && x <= i32::MAX as i64
}

/// Whether paying out a hand keeps its intermediate values in an `i32`: see `payout_fits`.
fn payout_fits_in_i32(
    bet: i32,
    hand: &Vec<[char; 2]>,
    n_hands: usize,
    dealer: &Vec<[char; 2]>,
    dealer_value: u8,
    busted: bool,
    bonus: i32,
) -> (r: bool)
    requires
        dealer_value == hand_value(dealer@, true),
    ensures
        r == payout_fits(bet as int, hand@, n_hands as int, dealer@, busted, bonus as int),
{
    if !hand_value_fits_in_byte(hand, true) {
        return false;
    }
    let v = get_hand_value(hand, true);
    let twice = fits_in_i32(bet as i64 * 2);
    if v > 21 {
        true
    } else if v < 21 && (busted || v > dealer_value) {
        twice
    } else if v == 21 && (busted || v > dealer_value) {
        if hand.len() == 2 {
            (dealer_value == 21 && dealer.len() == 2) || fits_in_i32(bet as i64 + bonus as i64)
        } else {
            twice
        }
    } else {
        true
    }
}

impl Dealer {
    /// Whether player `i`'s turn can begin: see `turn_ready`.
    fn turn_is_ready(&self, i: usize) -> (r: bool)
        ensures
            r == turn_ready(self@, i as int),
    {
        if i < self.players.len() {
            assert(self@.players[i as int] == self.players@[i as int]@);
            self.players[i].hands.len() >= 1
        } else {
            true
        }
    }

    /// Whether every player has a hand: see `all_have_hands`.
    fn every_player_has_a_hand(&self) -> (r: bool)
        ensures
            r == all_have_hands(self@.players),
    {
        let n = self.players.len();
        for i in 0..n
            invariant
                n == self.players@.len(),
                forall|k: int| 0 <= k < i ==> #[trigger] self@.players[k].hands.len() >= 1,
        {
            assert(self@.players[i as int] == self.players@[i as int]@);
            if self.players[i].hands.len() == 0 {
                assert(self@.players[i as int].hands.len() == 0);
                return false;
            }
        }
        true
    }

    /// Whether paying out the hands of player `i` keeps each running total in
    /// an `i32`: see `player_settles`.
    fn player_settles_in_i32(&self, round: &Round, bonuses: &Vec<i32>, i: usize, dealer_value: u8) -> (r: bool)
        requires
            i < self@.players.len(),
            i < round@.bets.len(),
            i < bonuses@.len(),
            dealer_value == hand_value(self@.hand, true),
        ensures
            r == player_settles(self@, round@, bonuses@, i as int),
    {
        let ghost d = self@;
        let ghost r = round@;
        let ghost b = bonuses@;
        assert(self@.players[i as int] == self.players@[i as int]@);
        let ghost p = d.players[i as int];
        let nh = self.players[i].hands.len();
        if nh > i32::MAX as usize {
            return false;
        }
        let bet = round.bets[i];
        let bonus = bonuses[i];
        let mut total: i64 = self.players[i].money as i64;
        assert(winnings(bet as int, p.hands, 0, d.hand, r.busted, bonus as int) == 0);
        for j in 0..nh
            invariant
                d == self@,
                i < self.players@.len(),
                self.players@.len() == d.players.len(),
                p == d.players[i as int],
                nh == p.hands.len(),
                nh <= i32::MAX,
                bet == r.bets[i as int],
                bonus == b[i as int],
                r == round@,
                b == bonuses@,
                dealer_value == hand_value(d.hand, true),
                fits_i32(total as int),
                total == p.money + winnings(bet as int, p.hands, j as int, d.hand, r.busted, bonus as int),
                forall|k: int|
                    0 <= k < j ==> payout_fits(
                        bet as int,
                        #[trigger] p.hands[k],
                        nh as int,
                        d.hand,
                        r.busted,
                        bonus as int,
                    ),
                forall|k: int|
                    0 <= k <= j ==> fits_i32(
                        p.money + #[trigger] winnings(bet as int, p.hands, k, d.hand, r.busted, bonus as int),
                    ),
        {
            assert(self@.players[i as int] == self.players@[i as int]@);
            assert(self@.players[i as int].hands[j as int] == self.players@[i as int].hands@[j as int]@);
            if !payout_fits_in_i32(bet, &self.players[i].hands[j], nh, &self.hand, dealer_value, round.busted, bonus) {
                assert(!payout_fits(bet as int, p.hands[j as int], nh as int, d.hand, r.busted, bonus as int));
                assert(r.bets[i as int] == bet);
                return false;
            }
            let pay = payout_of(bet, &self.players[i].hands[j], nh, &self.hand, dealer_value, round.busted, bonus);
            total = total + pay as i64;
            assert(total == p.money + winnings(bet as int, p.hands, j + 1, d.hand, r.busted, bonus as int));
            if !fits_in_i32(total) {
                assert(r.bets[i as int] == bet);
                return false;
            }
        }
        true
    }

    /// Whether paying out every hand keeps each running total in an `i32`: see `settle_fits`.
    fn settle_fits_in_i32(&self, round: &Round, bonuses: &Vec<i32>) -> (r: bool)
        requires
            round@.bets.len() == self@.players.len(),
        ensures
            r == settle_fits(self@, round@, bonuses@),
    {
        let n = self.players.len();
        if bonuses.len() != n {
            return false;
        }
        if !hand_value_fits_in_byte(&self.hand, true) {
            return false;
        }
        let dv = get_hand_value(&self.hand, true);
        for i in 0..n
            invariant
                n == self.players@.len(),
                n == self@.players.len(),
                round@.bets.len() == n,
                bonuses@.len() == n,
                hand_value_fits(self@.hand, true),
                dv == hand_value(self@.hand, true),
                forall|k: int| 0 <= k < i ==> #[trigger] player_settles(self@, round@, bonuses@, k),
        {
            if !self.player_settles_in_i32(round, bonuses, i, dv) {
                return false;
            }
        }
        true
    }

    /// Whether the round agrees with the table: see `consistent`.
    fn agrees_with(&self, round: &Round) -> (r: bool)
        ensures
            r == consistent(self@, round@),
    {
        let n = self.players.len();
        assert(self@.players.len() == n);
        match round.phase {
            Phase::Start { .. } => true,
            Phase::Bet { player } | Phase::BetError { player } => player < n && round.bets.len()
                == player,
            Phase::Play { player, hand } | Phase::PlayError { player, hand } | Phase::CheckBust {
                player,
                hand,
            } => {
                if round.bets.len() != n || player >= n {
                    return false;
                }
                assert(self@.players[player as int] == self.players@[player as int]@);
                let hc = round.hand_count;
                let checking = match round.phase {
                    Phase::CheckBust { .. } => true,
                    _ => false,
                };
                1 <= hc && hc <= 2 && hand < hc && round.stood.len() == hc && round.can_double.len()
                    == hc && hc <= self.players[player].hands.len()
                    && (!round.can_split || hc == 1) && (checking || !round.stood[hand])
            },
            _ => round.bets.len() == n,
        }
    }

    /// Whether `step` may be called with this round and reply: see `ready`.
    ///
    /// Where it is false, the step would do what makes a round panic, or the
    /// round and reply do not fit together.
    pub fn can_step(&self, round: &Round, reply: &Reply) -> (r: bool)
        ensures
            r == ready(self@, round@, reply@),
    {
        let awaited = match round.phase {
            Phase::Start { .. } | Phase::Deal | Phase::ShowUpCard | Phase::CheckBust { .. }
            | Phase::DealerTurn => match reply {
                Reply::Proceed => true,
                _ => false,
            },
            Phase::Settle => match reply {
                Reply::Bonuses(_) => true,
                _ => false,
            },
            Phase::Over => true,
            _ => match reply {
                Reply::Action(_) => true,
                _ => false,
            },
        };
        if !awaited || !self.agrees_with(round) {
            return false;
        }
        match round.phase {
            Phase::Bet { player } => match reply {
                Reply::Action(PlayerAction::Bet(amount)) => {
                    assert(self@.players[player as int] == self.players@[player as int]@);
                    let money = self.players[player].money;
                    money < *amount || fits_in_i32(money as i64 - *amount as i64)
                },
                _ => true,
            },
            Phase::Deal => self.every_player_has_a_hand(),
            Phase::ShowUpCard => self.hand.len() >= 2,
            Phase::UpCard => self.turn_is_ready(0),
            Phase::Play { player, hand } => {
                assert(self@.players[player as int] == self.players@[player as int]@);
                let ob = round.original_bet as i64;
                let pays = fits_in_i32(self.players[player].money as i64 - ob) && fits_in_i32(
                    round.bets[player] as i64 + ob,
                );
                let money = self.players[player].money;
                match reply {
                    Reply::Action(PlayerAction::DoubleDown) => {
                        !(round.can_double[hand] && money >= round.original_bet) || pays
                    },
                    Reply::Action(PlayerAction::Split) => {
                        let may = round.can_split && self.players[player].hands.len() == 1
                            && can_split(&self.players[player].hands[0]) && money
                            >= round.original_bet;
                        !may || pays
                    },
                    _ => true,
                }
            },
            Phase::CheckBust { player, hand } => {
                assert(self@.players[player as int] == self.players@[player as int]@);
                assert(self@.players[player as int].hands[hand as int]
                    == self.players@[player as int].hands@[hand as int]@);
                let h = &self.players[player].hands[hand];
                if !hand_value_fits_in_byte(h, true) {
                    return false;
                }
                let busts = get_hand_value(h, true) > 21;
                let stood_j = busts || round.stood[hand];
                let next_open = hand + 1 < round.hand_count && !round.stood[hand + 1];
                assert(stood_after_check(self@, round@, player as int, hand as int)[hand as int] == stood_j);
                assert(hand + 1 < round.hand_count ==> stood_after_check(self@, round@, player as int, hand as int)[hand + 1] == round@.stood[hand + 1]);
                assert(player < self.players.len());
                !(stood_j && !next_open) || self.turn_is_ready(player + 1)
            },
            Phase::DealerTurn => {
                if !hand_value_fits_in_byte(&self.hand, true) {
                    return false;
                }
                let v = get_hand_value(&self.hand, true);
                let hits = v < 17 || (v == 17 && !self.config.stand_soft_17 && hand_is_soft(
                    &self.hand,
                ));
                !(v <= 21 && hits) || self.shoe.len() > 0
            },
            Phase::Settle => match reply {
                Reply::Bonuses(b) => self.settle_fits_in_i32(round, b),
                _ => true,
            },
            _ => true,
        }
    }
}

} // verus!
