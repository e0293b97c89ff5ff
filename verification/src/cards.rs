//! Decks and shoes of cards, and moving cards out of them.
//!
//! A card is a pair of characters: its suit (`S`, `H`, `C`, `D`) and its rank
//! (`2` to `9`, `T`, `J`, `Q`, `K`, `A`).
use rand::rngs::ThreadRng;
use rand::seq::SliceRandom;
use vstd::prelude::*;

verus! {

/// The suit of the `k`-th card of a fresh deck: thirteen spades, then hearts, clubs, diamonds.
pub open spec fn suit_at(k: int) -> char {
    if k < 13 {
        'S'
    } else if k < 26 {
        'H'
    } else if k < 39 {
        'C'
    } else {
        'D'
    }
}

/// The `r`-th rank, from two up to the ace.
pub open spec fn rank_at(r: int) -> char {
    if r == 0 {
        '2'
    } else if r == 1 {
        '3'
    } else if r == 2 {
        '4'
    } else if r == 3 {
        '5'
    } else if r == 4 {
        '6'
    } else if r == 5 {
        '7'
    } else if r == 6 {
        '8'
    } else if r == 7 {
        '9'
    } else if r == 8 {
        'T'
    } else if r == 9 {
        'J'
    } else if r == 10 {
        'Q'
    } else if r == 11 {
        'K'
    } else {
        'A'
    }
}

/// The `k`-th card (`0 <= k < 52`) of a deck in its original order.
pub open spec fn fresh_card(k: int) -> [char; 2] {
    [suit_at(k), rank_at(k % 13)]
}

/// A 52-card deck in its original order.
pub open spec fn fresh_deck() -> Seq<[char; 2]> {
    Seq::new(52, |k: int| fresh_card(k))
}

/// `n` fresh decks, one after the other.
pub open spec fn fresh_shoe(n: nat) -> Seq<[char; 2]> {
    Seq::new(52 * n, |k: int| fresh_card(k % 52))
}

/// Returns a 52-card deck in order.
pub fn create_deck() -> (deck: Vec<[char; 2]>)
    ensures
        deck@ == fresh_deck(),
{
    let mut deck: Vec<[char; 2]> = Vec::new();
    let suits = ['S', 'H', 'C', 'D'];
    let values = ['2', '3', '4', '5', '6', '7', '8', '9', 'T', 'J', 'Q', 'K', 'A'];
    assert(suits@ == seq!['S', 'H', 'C', 'D']);
    assert(values@ == seq!['2', '3', '4', '5', '6', '7', '8', '9', 'T', 'J', 'Q', 'K', 'A']);
    for i in 0..4usize
        invariant
            suits@ == seq!['S', 'H', 'C', 'D'],
            values@ == seq!['2', '3', '4', '5', '6', '7', '8', '9', 'T', 'J', 'Q', 'K', 'A'],
            deck@.len() == 13 * i,
            forall|k: int| 0 <= k < deck@.len() ==> deck@[k] == fresh_card(k),
    {
        for j in 0..13usize
            invariant
                suits@ == seq!['S', 'H', 'C', 'D'],
                values@ == seq!['2', '3', '4', '5', '6', '7', '8', '9', 'T', 'J', 'Q', 'K', 'A'],
                i < 4,
                deck@.len() == 13 * i + j,
                forall|k: int| 0 <= k < deck@.len() ==> deck@[k] == fresh_card(k),
        {
            let card = [suits[i], values[j]];
            proof {
                let k = 13 * i + j;
                assert(k % 13 == j) by (nonlinear_arith)
                    requires
                        k == 13 * i + j,
                        j < 13,
                ;
                assert(card@ =~= fresh_card(k)@);
            }
            deck.push(card);
        }
    }
    assert(deck@ =~= fresh_deck());
    deck
}


/// Returns a shoe holding `deck_count` decks, each in its original order.
pub fn create_shoe(deck_count: u8) -> (shoe: Vec<[char; 2]>)
    ensures
        shoe@ == fresh_shoe(deck_count as nat),
{
    let mut shoe: Vec<[char; 2]> = Vec::new();
    for n in 0..deck_count
        invariant
            shoe@ == fresh_shoe(n as nat),
    {
        let mut deck = create_deck();
        let ghost before = shoe@;
        shoe.append(&mut deck);
        proof {
            assert forall|k: int| 0 <= k < shoe@.len() implies shoe@[k] == fresh_card(k % 52) by {
                if k >= before.len() {
                    assert(k % 52 == k - 52 * n) by (nonlinear_arith)
                        requires
                            52 * n <= k < 52 * n + 52,
                    ;
                }
            }
            assert(shoe@ =~= fresh_shoe((n + 1) as nat));
        }
    }
    shoe
}

/// Takes the first card of a deck or shoe: `Ok` with it, removed from the deck,
/// or `Err(())`, with the deck untouched, when the deck is empty.
pub fn draw_card(deck: &mut Vec<[char; 2]>) -> (card: Result<[char; 2], ()>)
    ensures
        old(deck)@.len() > 0 ==> card == Ok::<[char; 2], ()>(old(deck)@[0])
            && final(deck)@ == old(deck)@.drop_first(),
        old(deck)@.len() == 0 ==> card == Err::<[char; 2], ()>(()) && final(deck)@ == old(deck)@,
{
    if deck.len() > 0 {
        let card = deck[0];
        deck.remove(0);
        assert(deck@ =~= old(deck)@.drop_first());
        Ok(card)
    } else {
        Err(())
    }
}

/// Moves the first card of a deck or shoe to the end of a hand: `Ok(())`, or
/// `Err(())`, with both untouched, when the deck is empty.
pub fn hit_card(deck: &mut Vec<[char; 2]>, hand: &mut Vec<[char; 2]>) -> (r: Result<(), ()>)
    ensures
        old(deck)@.len() > 0 ==> r is Ok && final(deck)@ == old(deck)@.drop_first()
            && final(hand)@ == old(hand)@.push(old(deck)@[0]),
        old(deck)@.len() == 0 ==> r is Err && final(deck)@ == old(deck)@
            && final(hand)@ == old(hand)@,
{
    match draw_card(deck) {
        Ok(card) => {
            hand.push(card);
            Ok(())
        },
        Err(()) => Err(()),
    }
}


/// The thread-local random number generator of `rand`.
#[verifier::external_type_specification]
#[verifier::external_body]
pub struct ExThreadRng(ThreadRng);

/// Calls `rand::thread_rng`, which hands out this thread's generator.
/// Nothing is claimed of the generator it returns.
#[verifier::external_body]
fn thread_rng() -> (rng: ThreadRng) {
    rand::thread_rng()
}

/// Calls `SliceRandom::shuffle` of `rand` on the cards. Its source swaps
/// elements in place (a Fisher-Yates shuffle), so the claim is only that the
/// result is a permutation of the input: the same length and the same multiset
/// of cards. Which permutation comes out depends on the generator and is not stated.
#[verifier::external_body]
fn shuffle_with(cards: &mut Vec<[char; 2]>, rng: &mut ThreadRng)
    ensures
        final(cards)@.len() == old(cards)@.len(),
        final(cards)@.to_multiset() == old(cards)@.to_multiset(),
{
    cards.shuffle(rng);
}

/// Shuffles a deck or shoe into a random order: the result holds the same
/// cards, as many times each, in an order that the random generator picks.
pub fn shuffle_deck(deck: &mut Vec<[char; 2]>)
    ensures
        final(deck)@.len() == old(deck)@.len(),
        final(deck)@.to_multiset() == old(deck)@.to_multiset(),
{
    let mut rng = thread_rng();
    shuffle_with(deck, &mut rng);
}

} // verus!
