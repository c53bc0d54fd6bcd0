use holdem_engine::{Card, Game, HandRank, Player, Rank, Suit};

fn table() -> Game {
    let players = vec![
        Player {
            id: "alice".to_string(),
            name: "Alice".to_string(),
            chips: 1000,
            hand: Vec::new(),
            current_bet: 0,
            is_folded: false,
            is_all_in: false,
        },
        Player {
            id: "bob".to_string(),
            name: "Bob".to_string(),
            chips: 1000,
            hand: Vec::new(),
            current_bet: 0,
            is_folded: false,
            is_all_in: false,
        },
    ];
    Game::new(players)
}

#[test]
fn test_card_creation() {
    let card = Card {
        suit: Suit::Hearts,
        rank: Rank::Ace,
    };
    assert_eq!(card.suit, Suit::Hearts);
    assert_eq!(card.rank, Rank::Ace);
}

#[test]
fn test_deck_creation() {
    let deck = Game::create_deck();
    assert_eq!(deck.len(), 52);
}

#[test]
fn game_tests_test_hand_evaluation_high_card() {
    let hand = vec![
        Card { suit: Suit::Hearts, rank: Rank::Two },
        Card { suit: Suit::Clubs, rank: Rank::Five },
        Card { suit: Suit::Diamonds, rank: Rank::Seven },
        Card { suit: Suit::Spades, rank: Rank::Nine },
        Card { suit: Suit::Hearts, rank: Rank::Jack },
    ];
    let result = table().evaluate_hand(hand);
    assert_eq!(result.rank, HandRank::HighCard);
}

#[test]
fn test_hand_evaluation_pair() {
    let hand = vec![
        Card { suit: Suit::Hearts, rank: Rank::Two },
        Card { suit: Suit::Clubs, rank: Rank::Two },
        Card { suit: Suit::Diamonds, rank: Rank::Seven },
        Card { suit: Suit::Spades, rank: Rank::Nine },
        Card { suit: Suit::Hearts, rank: Rank::Jack },
    ];
    let result = table().evaluate_hand(hand);
    assert_eq!(result.rank, HandRank::OnePair);
}

#[test]
fn test_best_hand_from_seven_cards() {
    let cards = vec![
        Card { suit: Suit::Hearts, rank: Rank::Ace },
        Card { suit: Suit::Clubs, rank: Rank::Ace },
        Card { suit: Suit::Diamonds, rank: Rank::King },
        Card { suit: Suit::Spades, rank: Rank::Queen },
        Card { suit: Suit::Hearts, rank: Rank::Jack },
        Card { suit: Suit::Clubs, rank: Rank::Ten },
        Card { suit: Suit::Diamonds, rank: Rank::Two },
    ];
    let result = table().evaluate_hand(cards);
    // Deve encontrar uma sequência (straight)
    assert_eq!(result.rank, HandRank::Straight);
}

#[test]
fn test_compare_hands() {
    let hand1 = HandRank::OnePair;
    let hand2 = HandRank::HighCard;
    assert!(hand1.value() > hand2.value());
}
