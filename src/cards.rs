use vstd::prelude::*;

verus! {

/// The four suits; they carry no ranking weight.
#[derive(Clone, Copy, Debug, PartialEq, Eq, Structural)]
pub enum Suit {
    Hearts,
    Diamonds,
    Clubs,
    Spades,
}

/// Card ranks, from two up to ace.
#[derive(Clone, Copy, Debug, PartialEq, Eq, Structural)]
pub enum Rank {
    Two,
    Three,
    Four,
    Five,
    Six,
    Seven,
    Eight,
    Nine,
    Ten,
    Jack,
    Queen,
    King,
    Ace,
}

impl Rank {
    /// Numeric value of the rank: two is 2, ..., king is 13, ace is 14.
    pub open spec fn spec_value(&self) -> u8 {
        match self {
            Rank::Two => 2,
            Rank::Three => 3,
            Rank::Four => 4,
            Rank::Five => 5,
            Rank::Six => 6,
            Rank::Seven => 7,
            Rank::Eight => 8,
            Rank::Nine => 9,
            Rank::Ten => 10,
            Rank::Jack => 11,
            Rank::Queen => 12,
            Rank::King => 13,
            Rank::Ace => 14,
        }
    }

    /// The rank whose value is `v` (for `2 <= v <= 14`).
    pub open spec fn spec_from_value(v: int) -> Rank {
        if v <= 2 {
            Rank::Two
        } else if v == 3 {
            Rank::Three
        } else if v == 4 {
            Rank::Four
        } else if v == 5 {
            Rank::Five
        } else if v == 6 {
            Rank::Six
        } else if v == 7 {
            Rank::Seven
        } else if v == 8 {
            Rank::Eight
        } else if v == 9 {
            Rank::Nine
        } else if v == 10 {
            Rank::Ten
        } else if v == 11 {
            Rank::Jack
        } else if v == 12 {
            Rank::Queen
        } else if v == 13 {
            Rank::King
        } else {
            Rank::Ace
        }
    }

    #[verifier::when_used_as_spec(spec_value)]
    pub fn value(&self) -> (v: u8)
        ensures
            v == self.spec_value(),
            2 <= v <= 14,
    {
        match self {
            Rank::Two => 2,
            Rank::Three => 3,
            Rank::Four => 4,
            Rank::Five => 5,
            Rank::Six => 6,
            Rank::Seven => 7,
            Rank::Eight => 8,
            Rank::Nine => 9,
            Rank::Ten => 10,
            Rank::Jack => 11,
            Rank::Queen => 12,
            Rank::King => 13,
            Rank::Ace => 14,
        }
    }
}

/// A playing card.
#[derive(Clone, Copy, Debug, PartialEq, Eq, Structural)]
pub struct Card {
    pub suit: Suit,
    pub rank: Rank,
}

/// The suit of the `i`-th block of thirteen cards in a fresh deck.
pub open spec fn suit_at(i: int) -> Suit {
    if i == 0 {
        Suit::Hearts
    } else if i == 1 {
        Suit::Diamonds
    } else if i == 2 {
        Suit::Clubs
    } else {
        Suit::Spades
    }
}

/// The card at position `i` of a freshly built deck: suits in the order
/// hearts, diamonds, clubs, spades, and inside each suit the ranks from two
/// up to ace.
pub open spec fn fresh_deck_card(i: int) -> Card {
    Card { suit: suit_at(i / 13), rank: Rank::spec_from_value(i % 13 + 2) }
}

/// A freshly built deck of 52 cards.
pub open spec fn fresh_deck() -> Seq<Card> {
    Seq::new(52, |i: int| fresh_deck_card(i))
}

/// Every one of the 52 (suit, rank) pairs stands in a fresh deck exactly once.
pub proof fn lemma_fresh_deck_complete(c: Card)
    ensures
        fresh_deck().contains(c),
        fresh_deck().to_multiset().count(c) == 1,
{
    lemma_card_once(fresh_deck(), c);
}

proof fn lemma_card_once(d: Seq<Card>, c: Card)
    requires
        d == fresh_deck(),
    ensures
        d.contains(c),
        d.to_multiset().count(c) == 1,
{
    let s: int = if c.suit == Suit::Hearts {
        0
    } else if c.suit == Suit::Diamonds {
        1
    } else if c.suit == Suit::Clubs {
        2
    } else {
        3
    };
    let k: int = s * 13 + c.rank.spec_value() - 2;
    assert(k / 13 == s && k % 13 == c.rank.spec_value() - 2) by (nonlinear_arith)
        requires
            k == s * 13 + c.rank.spec_value() - 2,
            0 <= c.rank.spec_value() - 2 < 13,
            0 <= s < 4,
    ;
    assert(d[k] == c);
    assert forall|i: int| 0 <= i < 52 && i != k implies d[i] != c by {
        if d[i] == c {
            assert(i / 13 == s);
            assert(i % 13 == k % 13);
            assert(i == 13 * (i / 13) + i % 13);
            assert(k == 13 * (k / 13) + k % 13);
        }
    }
    lemma_count_single(d, c, k);
}

/// A value that stands at exactly one position of a sequence counts once in
/// its multiset.
proof fn lemma_count_single(d: Seq<Card>, c: Card, k: int)
    requires
        0 <= k < d.len(),
        d[k] == c,
        forall|i: int| 0 <= i < d.len() && i != k ==> d[i] != c,
    ensures
        d.contains(c),
        d.to_multiset().count(c) == 1,
    decreases d.len(),
{
    broadcast use vstd::seq_lib::group_to_multiset_ensures;

    if k == d.len() - 1 {
        assert(d == d.drop_last().push(c));
        assert(!d.drop_last().contains(c));
    } else {
        let p = d.drop_last();
        lemma_count_single(p, c, k);
        assert(d == p.push(d.last()));
    }
}

} // verus!
