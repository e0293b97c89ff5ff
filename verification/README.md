# twentyone

A blackjack engine, verified with Verus.

- `src/cards.rs` makes decks and shoes, shuffles them (with `rand`), and
  draws and hits cards.
- `src/game.rs` holds hand values, players, the dealer, and a round of play
  as a state machine: `Dealer::step` takes the answer to the dealer's last
  request and returns the next request. `next` states each step exactly;
  `ready` and `Dealer::can_step` say when a step may be taken.
- `src/laws.rs` proves what holds of every step: the round stays consistent
  with the table, no card is made or lost, money only moves between a
  player's purse and their bet until the round is settled, and more; and
  of a whole round: the hands hold exactly the cards taken from the front
  of the shoe.
- `app/lib.rs` is a table around the engine: the rules with their
  blackjack payout, and a dealer that runs whole rounds by asking a callback.
