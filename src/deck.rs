//! Building, shuffling and naming: the calls into `rand` and `uuid`.
use vstd::prelude::*;

use crate::cards::{fresh_deck, fresh_deck_card, suit_at, Card, Rank, Suit};
use crate::models::Game;
use rand::seq::SliceRandom;

verus! {

/// Relies on rand's `SliceRandom::shuffle` with `thread_rng`: it reorders the
/// slice in place by swaps (Fisher-Yates), so the result is a permutation of
/// the input.
#[verifier::external_body]
fn shuffle_cards(deck: &mut Vec<Card>)
    ensures
        final(deck)@.len() == old(deck)@.len(),
        final(deck)@.to_multiset() == old(deck)@.to_multiset(),
{
    let mut rng = rand::thread_rng();
    deck.as_mut_slice().shuffle(&mut rng);
}

/// Relies on uuid's `Uuid::new_v4` and its hyphenated `Display`: a fresh
/// random identifier as text.
#[verifier::external_body]
pub(crate) fn new_table_id() -> (r: String) {
    uuid::Uuid::new_v4().to_string()
}

/// The suit of block `i` of a fresh deck.
fn suit_of_block(i: usize) -> (s: Suit)
    requires
        i < 4,
    ensures
        s == suit_at(i as int),
{
    if i == 0 {
        Suit::Hearts
    } else if i == 1 {
        Suit::Diamonds
    } else if i == 2 {
        Suit::Clubs
    } else {
        Suit::Spades
    }
}

/// The rank of value `v`.
fn rank_of_value(v: usize) -> (r: Rank)
    requires
        2 <= v <= 14,
    ensures
        r == Rank::spec_from_value(v as int),
{
    if v == 2 {
        Rank::Two
    } else if v == 3 {
        Rank::Three
    } else if v == 4 {
        Rank::Four
    } else if v == 5 {
        Rank::Five
    } else if v == 6 {
        Rank::Six
    } else if v == 7 {
        Rank::Seven
    } else if v == 8 {
        Rank::Eight
    } else if v == 9 {
        Rank::Nine
    } else if v == 10 {
        Rank::Ten
    } else if v == 11 {
        Rank::Jack
    } else if v == 12 {
        Rank::Queen
    } else if v == 13 {
        Rank::King
    } else {
        Rank::Ace
    }
}

/// A fresh deck in random order.
pub fn shuffled_deck() -> (deck: Vec<Card>)
    ensures
        deck@.len() == 52,
        deck@.to_multiset() == fresh_deck().to_multiset(),
{
    let mut deck = Game::create_deck();
    shuffle_cards(&mut deck);
    deck
}

impl Game {
    /// All 52 cards, suit by suit, each suit from two up to ace.
    pub fn create_deck() -> (deck: Vec<Card>)
        ensures
            deck@ == fresh_deck(),
    {
        let mut deck: Vec<Card> = Vec::new();
        let mut s: usize = 0;
        while s < 4
            invariant
                s <= 4,
                deck@.len() == 13 * s,
                forall|i: int| 0 <= i < deck@.len() ==> #[trigger] deck@[i] == fresh_deck_card(i),
            decreases 4 - s,
        {
            let suit = suit_of_block(s);
            let mut v: usize = 2;
            while v <= 14
                invariant
                    s < 4,
                    2 <= v <= 15,
                    suit == suit_at(s as int),
                    deck@.len() == 13 * s + v - 2,
                    forall|i: int| 0 <= i < deck@.len() ==> #[trigger] deck@[i] == fresh_deck_card(i),
                decreases 15 - v,
            {
                let k: usize = 13 * s + v - 2;
                assert(k / 13 == s as int && k % 13 == v - 2) by (nonlinear_arith)
                    requires
                        k == 13 * s + v - 2,
                        2 <= v <= 14,
                ;
                deck.push(Card { suit, rank: rank_of_value(v) });
                v += 1;
            }
            s += 1;
        }
        assert(deck@ =~= fresh_deck());
        deck
    }
}

} // verus!
