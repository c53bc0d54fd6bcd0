use holdem_engine::{Card, Game, GameState, HandRank, Player, PlayerAction, Rank, Suit};

fn create_test_players() -> Vec<Player> {
    vec![
        Player {
            id: "player1".to_string(),
            name: "Alice".to_string(),
            chips: 1000,
            hand: Vec::new(),
            current_bet: 0,
            is_folded: false,
            is_all_in: false,
        },
        Player {
            id: "player2".to_string(),
            name: "Bob".to_string(),
            chips: 1000,
            hand: Vec::new(),
            current_bet: 0,
            is_folded: false,
            is_all_in: false,
        },
        Player {
            id: "player3".to_string(),
            name: "Charlie".to_string(),
            chips: 1000,
            hand: Vec::new(),
            current_bet: 0,
            is_folded: false,
            is_all_in: false,
        },
    ]
}

#[test]
fn test_game_creation() {
    let players = create_test_players();
    let game = Game::new(players.clone());
    
    assert_eq!(game.players.len(), 3);
    assert_eq!(game.state, GameState::PreFlop);
    assert_eq!(game.pot, 0);
    assert_eq!(game.current_bet, 0);
    assert_eq!(game.current_player_index, 0);
    assert_eq!(game.dealer_index, 0);
}

#[test]
fn test_game_start_round() {
    let players = create_test_players();
    let mut game = Game::new(players);
    
    game.start_round();
    
    // Verificar que os blinds foram postados
    assert!(game.pot > 0);
    assert!(game.current_bet > 0);
    
    // Verificar que cada jogador recebeu 2 cartas
    for player in &game.players {
        assert_eq!(player.hand.len(), 2);
    }
    
    // Verificar que o estado é PreFlop
    assert_eq!(game.state, GameState::PreFlop);
}

#[test]
fn test_turn_validation_rejects_wrong_player() {
    let players = create_test_players();
    let mut game = Game::new(players);
    game.start_round();
    
    println!("Current player index: {}", game.current_player_index);
    println!("Current player ID: {}", game.players[game.current_player_index].id);
    
    // Tentar fazer uma ação com um jogador que não é o atual
    let wrong_player_id = if game.players[game.current_player_index].id == "player1" {
        "player2"
    } else {
        "player1"
    };
    
    let result = game.process_action(wrong_player_id, PlayerAction::Check);
    
    // Deve retornar erro
    assert!(result.is_err());
    assert_eq!(result.unwrap_err().message(), "Não é sua vez de jogar");
}

#[test]
fn test_turn_validation_accepts_correct_player() {
    let players = create_test_players();
    let mut game = Game::new(players);
    game.start_round();
    
    let current_player_id = game.players[game.current_player_index].id.clone();
    
    // Se há uma aposta atual (big blind), fazer call em vez de check
    let action = if game.current_bet > 0 {
        PlayerAction::Call
    } else {
        PlayerAction::Check
    };
      let result = game.process_action(&current_player_id, action);
    
    // Deve ser aceito
    assert!(result.is_ok());
    // Verificar que não retornou resultado de fim de jogo ainda
    assert!(result.unwrap().is_none());
}

#[test]
fn test_game_state_does_not_advance_on_invalid_action() {
    let players = create_test_players();
    let mut game = Game::new(players);
    game.start_round();
    
    let initial_state = game.state.clone();
    let initial_community_cards = game.community_cards.len();
    let initial_current_player = game.current_player_index;
    
    // Tentar fazer uma ação com jogador errado
    let wrong_player_id = if game.players[game.current_player_index].id == "player1" {
        "player2"
    } else {
        "player1"
    };
    
    let result = game.process_action(wrong_player_id, PlayerAction::Check);
    
    // Verificar que a ação foi rejeitada
    assert!(result.is_err());
    
    // Verificar que o estado do jogo NÃO mudou
    assert_eq!(game.state, initial_state);
    assert_eq!(game.community_cards.len(), initial_community_cards);
    assert_eq!(game.current_player_index, initial_current_player);
}

#[test]
fn test_multiple_invalid_actions_do_not_advance_game() {
    let players = create_test_players();
    let mut game = Game::new(players);
    game.start_round();
    
    let initial_state = game.state.clone();
    let initial_community_cards = game.community_cards.len();
    let initial_current_player = game.current_player_index;
    
    // Fazer várias ações inválidas
    for _ in 0..5 {
        let wrong_player_id = if game.players[game.current_player_index].id == "player1" {
            "player2"
        } else {
            "player1"
        };
        
        let result = game.process_action(wrong_player_id, PlayerAction::Check);
        assert!(result.is_err());
    }
    
    // Verificar que o estado do jogo NÃO mudou após múltiplas ações inválidas
    assert_eq!(game.state, initial_state);
    assert_eq!(game.community_cards.len(), initial_community_cards);
    assert_eq!(game.current_player_index, initial_current_player);
}

#[test]
fn test_game_progression_after_valid_actions() {
    let players = create_test_players();
    let mut game = Game::new(players);
    game.start_round();
    
    let initial_state = game.state.clone();
    assert_eq!(initial_state, GameState::PreFlop);
    
    // Todos os jogadores fazem call ou check em sequência
    let num_players = game.players.len();
    for i in 0..num_players {
        let current_player_id = game.players[game.current_player_index].id.clone();
        
        // Determinar a ação apropriada
        let action = if game.current_bet > game.players[game.current_player_index].current_bet {
            PlayerAction::Call
        } else {
            PlayerAction::Check
        };
        
        println!("Player {} ({}) making action: {:?}", 
                 i, current_player_id, action);
          let result = game.process_action(&current_player_id, action);
        assert!(result.is_ok(), "Action failed for player {}: {:?}", current_player_id, result);
    }
    
    // Após todos fazerem suas ações, o jogo deve avançar para o Flop
    assert_eq!(game.state, GameState::Flop);
    assert_eq!(game.community_cards.len(), 3); // Flop tem 3 cartas
}

#[test]
fn test_interleaved_invalid_and_valid_actions() {
    let players = create_test_players();
    let mut game = Game::new(players);
    game.start_round();
    
    // Fazer uma ação inválida
    let wrong_player_id = if game.players[game.current_player_index].id == "player1" {
        "player2"
    } else {
        "player1"
    };
    
    let invalid_result = game.process_action(wrong_player_id, PlayerAction::Check);
    assert!(invalid_result.is_err());
    
    let state_after_invalid = game.state.clone();
    let cards_after_invalid = game.community_cards.len();
    let player_after_invalid = game.current_player_index;
    
    // Fazer uma ação válida
    let current_player_id = game.players[game.current_player_index].id.clone();
    let action = if game.current_bet > game.players[game.current_player_index].current_bet {
        PlayerAction::Call
    } else {
        PlayerAction::Check
    };
      let valid_result = game.process_action(&current_player_id, action);
    assert!(valid_result.is_ok());
    
    // Verificar que apenas a ação válida teve efeito
    // (O jogador atual deve ter mudado após a ação válida)
    assert_ne!(game.current_player_index, player_after_invalid);
}    #[test] 
fn test_betting_round_completion_logic() {
    let players = create_test_players();
    let mut game = Game::new(players);
    game.start_round();
    
    let initial_state = game.state.clone();
    assert_eq!(initial_state, GameState::PreFlop);
    
    // Fazer algumas ações inválidas no meio do jogo
    let initial_current_player = game.current_player_index;
    
    // Primeira ação inválida
    let wrong_player_id = if game.players[game.current_player_index].id == "player1" {
        "player2"
    } else {
        "player1"
    };
    
    let invalid_result = game.process_action(wrong_player_id, PlayerAction::Call);
    assert!(invalid_result.is_err());
    
    // Verificar que o estado não mudou após ação inválida
    assert_eq!(game.state, initial_state);
    assert_eq!(game.current_player_index, initial_current_player);
    
    // Agora fazer uma ação válida
    let current_player_id = game.players[game.current_player_index].id.clone();
    let action = if game.current_bet > game.players[game.current_player_index].current_bet {
        PlayerAction::Call
    } else {
        PlayerAction::Check
    };
      let valid_result = game.process_action(&current_player_id, action);
    assert!(valid_result.is_ok());
    
    // Após uma ação válida, o jogador atual deve ter mudado
    assert_ne!(game.current_player_index, initial_current_player);
    
    // Mas ainda deve estar no PreFlop (só 1 jogador fez ação)
    assert_eq!(game.state, GameState::PreFlop);
}

#[test]
fn test_rapid_invalid_actions_stress_test() {
    let players = create_test_players();
    let mut game = Game::new(players);
    game.start_round();
    
    let initial_state = game.state.clone();
    let initial_community_cards = game.community_cards.len();
    let initial_current_player = game.current_player_index;
    
    // Simular 100 ações inválidas rápidas
    for i in 0..100 {
        let wrong_player_id = format!("wrong_player_{}", i);
        let result = game.process_action(&wrong_player_id, PlayerAction::Check);
        assert!(result.is_err());
    }
    
    // O jogo deve permanecer no mesmo estado
    assert_eq!(game.state, initial_state);
    assert_eq!(game.community_cards.len(), initial_community_cards);
    assert_eq!(game.current_player_index, initial_current_player);
    
    // Uma ação válida ainda deve funcionar
    let current_player_id = game.players[game.current_player_index].id.clone();
    let action = if game.current_bet > game.players[game.current_player_index].current_bet {
        PlayerAction::Call
    } else {
        PlayerAction::Check
    };
    
    let valid_result = game.process_action(&current_player_id, action);
    assert!(valid_result.is_ok());
}

#[test]
fn test_has_betting_round_completed_logic() {
    let players = create_test_players();
    let mut game = Game::new(players);
    game.start_round();
    
    // No início do PreFlop, há big blind, então current_bet > 0
    assert!(game.current_bet > 0);
    
    // Resetar para simular início de uma nova fase (Flop)
    game.state = GameState::Flop;
    game.current_bet = 0;
    for player in &mut game.players {
        player.current_bet = 0;
    }
    game.round_bets.clear();
    
    // Agora current_bet == 0, mas nem todos tiveram sua vez
    let round_completed = game.has_betting_round_completed();
    println!("Round completed when current_bet=0: {}", round_completed);
    
    // Se retornar true quando current_bet=0, isso pode causar advance prematuro
    if round_completed {
        println!("WARNING: has_betting_round_completed returns true when current_bet=0");
        println!("This could cause premature game state advancement!");
    }
}

#[test]
fn test_invalid_actions_should_not_advance_game_state() {
    let players = create_test_players();
    let mut game = Game::new(players);
    game.start_round();
    
    let initial_state = game.state.clone();
    let initial_community_cards = game.community_cards.len();
    let initial_current_player = game.current_player_index;
    
    println!("Initial state: {:?}", initial_state);
    println!("Initial current player: {}", game.players[initial_current_player].id);
    
    // Fazer 10 ações inválidas consecutivas
    for i in 0..10 {
        let wrong_player_id = format!("invalid_player_{}", i);
        let result = game.process_action(&wrong_player_id, PlayerAction::Check);
        
        // Verificar que foi rejeitada
        assert!(result.is_err());
        
        // Verificar que NADA mudou
        assert_eq!(game.state, initial_state, "Game state changed after invalid action {}", i);
        assert_eq!(game.community_cards.len(), initial_community_cards, "Community cards changed after invalid action {}", i);
        assert_eq!(game.current_player_index, initial_current_player, "Current player changed after invalid action {}", i);
    }
    
    println!("After 10 invalid actions - state: {:?}", game.state);
    println!("Current player still: {}", game.players[game.current_player_index].id);
    
    // O jogo ainda deve estar exatamente no mesmo estado
    assert_eq!(game.state, GameState::PreFlop);
    assert_eq!(game.community_cards.len(), 0);
    
    // Uma ação válida ainda deve funcionar normalmente
    let current_player_id = game.players[game.current_player_index].id.clone();
    let action = if game.current_bet > 0 {
        PlayerAction::Call
    } else {
        PlayerAction::Check
    };
    
    let valid_result = game.process_action(&current_player_id, action);
    assert!(valid_result.is_ok(), "Valid action should work after invalid ones");
    
    // Após UMA ação válida, ainda deve estar no PreFlop
    assert_eq!(game.state, GameState::PreFlop, "Should still be in PreFlop after only one valid action");
}

#[test]
fn test_hand_evaluation_royal_flush() {
    let players = create_test_players();
    let game = Game::new(players);
    
    let cards = vec![
        Card { suit: Suit::Hearts, rank: Rank::Ace },
        Card { suit: Suit::Hearts, rank: Rank::King },
        Card { suit: Suit::Hearts, rank: Rank::Queen },
        Card { suit: Suit::Hearts, rank: Rank::Jack },
        Card { suit: Suit::Hearts, rank: Rank::Ten },
        Card { suit: Suit::Spades, rank: Rank::Two },
        Card { suit: Suit::Clubs, rank: Rank::Three },
    ];
    
    let evaluation = game.evaluate_hand(cards);
    assert_eq!(evaluation.rank, HandRank::RoyalFlush);
}

#[test]
fn test_hand_evaluation_straight_flush() {
    let players = create_test_players();
    let game = Game::new(players);
    
    let cards = vec![
        Card { suit: Suit::Hearts, rank: Rank::Nine },
        Card { suit: Suit::Hearts, rank: Rank::Eight },
        Card { suit: Suit::Hearts, rank: Rank::Seven },
        Card { suit: Suit::Hearts, rank: Rank::Six },
        Card { suit: Suit::Hearts, rank: Rank::Five },
        Card { suit: Suit::Spades, rank: Rank::Two },
        Card { suit: Suit::Clubs, rank: Rank::Three },
    ];
    
    let evaluation = game.evaluate_hand(cards);
    assert_eq!(evaluation.rank, HandRank::StraightFlush);
}

#[test]
fn test_hand_evaluation_four_of_a_kind() {
    let players = create_test_players();
    let game = Game::new(players);
    
    let cards = vec![
        Card { suit: Suit::Hearts, rank: Rank::Ace },
        Card { suit: Suit::Diamonds, rank: Rank::Ace },
        Card { suit: Suit::Clubs, rank: Rank::Ace },
        Card { suit: Suit::Spades, rank: Rank::Ace },
        Card { suit: Suit::Hearts, rank: Rank::King },
        Card { suit: Suit::Spades, rank: Rank::Two },
        Card { suit: Suit::Clubs, rank: Rank::Three },
    ];
    
    let evaluation = game.evaluate_hand(cards);
    assert_eq!(evaluation.rank, HandRank::FourOfAKind);
}

#[test]
fn test_hand_evaluation_full_house() {
    let players = create_test_players();
    let game = Game::new(players);
    
    let cards = vec![
        Card { suit: Suit::Hearts, rank: Rank::Ace },
        Card { suit: Suit::Diamonds, rank: Rank::Ace },
        Card { suit: Suit::Clubs, rank: Rank::Ace },
        Card { suit: Suit::Spades, rank: Rank::King },
        Card { suit: Suit::Hearts, rank: Rank::King },
        Card { suit: Suit::Spades, rank: Rank::Two },
        Card { suit: Suit::Clubs, rank: Rank::Three },
    ];
    
    let evaluation = game.evaluate_hand(cards);
    assert_eq!(evaluation.rank, HandRank::FullHouse);
}

#[test]
fn test_hand_evaluation_flush() {
    let players = create_test_players();
    let game = Game::new(players);
    
    let cards = vec![
        Card { suit: Suit::Hearts, rank: Rank::Ace },
        Card { suit: Suit::Hearts, rank: Rank::King },
        Card { suit: Suit::Hearts, rank: Rank::Nine },
        Card { suit: Suit::Hearts, rank: Rank::Seven },
        Card { suit: Suit::Hearts, rank: Rank::Five },
        Card { suit: Suit::Spades, rank: Rank::Two },
        Card { suit: Suit::Clubs, rank: Rank::Three },
    ];
    
    let evaluation = game.evaluate_hand(cards);
    assert_eq!(evaluation.rank, HandRank::Flush);
}

#[test]
fn test_hand_evaluation_straight() {
    let players = create_test_players();
    let game = Game::new(players);
    
    let cards = vec![
        Card { suit: Suit::Hearts, rank: Rank::Ace },
        Card { suit: Suit::Diamonds, rank: Rank::King },
        Card { suit: Suit::Clubs, rank: Rank::Queen },
        Card { suit: Suit::Spades, rank: Rank::Jack },
        Card { suit: Suit::Hearts, rank: Rank::Ten },
        Card { suit: Suit::Spades, rank: Rank::Two },
        Card { suit: Suit::Clubs, rank: Rank::Three },
    ];
    
    let evaluation = game.evaluate_hand(cards);
    assert_eq!(evaluation.rank, HandRank::Straight);
}

#[test]
fn test_hand_evaluation_wheel_straight() {
    let players = create_test_players();
    let game = Game::new(players);
    
    let cards = vec![
        Card { suit: Suit::Hearts, rank: Rank::Ace },
        Card { suit: Suit::Diamonds, rank: Rank::Two },
        Card { suit: Suit::Clubs, rank: Rank::Three },
        Card { suit: Suit::Spades, rank: Rank::Four },
        Card { suit: Suit::Hearts, rank: Rank::Five },
        Card { suit: Suit::Spades, rank: Rank::King },
        Card { suit: Suit::Clubs, rank: Rank::Queen },
    ];
    
    let evaluation = game.evaluate_hand(cards);
    assert_eq!(evaluation.rank, HandRank::Straight);
}

#[test]
fn test_hand_evaluation_three_of_a_kind() {
    let players = create_test_players();
    let game = Game::new(players);
    
    let cards = vec![
        Card { suit: Suit::Hearts, rank: Rank::Ace },
        Card { suit: Suit::Diamonds, rank: Rank::Ace },
        Card { suit: Suit::Clubs, rank: Rank::Ace },
        Card { suit: Suit::Spades, rank: Rank::King },
        Card { suit: Suit::Hearts, rank: Rank::Queen },
        Card { suit: Suit::Spades, rank: Rank::Two },
        Card { suit: Suit::Clubs, rank: Rank::Three },
    ];
    
    let evaluation = game.evaluate_hand(cards);
    assert_eq!(evaluation.rank, HandRank::ThreeOfAKind);
}

#[test]
fn test_hand_evaluation_two_pair() {
    let players = create_test_players();
    let game = Game::new(players);
    
    let cards = vec![
        Card { suit: Suit::Hearts, rank: Rank::Ace },
        Card { suit: Suit::Diamonds, rank: Rank::Ace },
        Card { suit: Suit::Clubs, rank: Rank::King },
        Card { suit: Suit::Spades, rank: Rank::King },
        Card { suit: Suit::Hearts, rank: Rank::Queen },
        Card { suit: Suit::Spades, rank: Rank::Two },
        Card { suit: Suit::Clubs, rank: Rank::Three },
    ];
    
    let evaluation = game.evaluate_hand(cards);
    assert_eq!(evaluation.rank, HandRank::TwoPair);
}

#[test]
fn test_hand_evaluation_one_pair() {
    let players = create_test_players();
    let game = Game::new(players);
    
    let cards = vec![
        Card { suit: Suit::Hearts, rank: Rank::Ace },
        Card { suit: Suit::Diamonds, rank: Rank::Ace },
        Card { suit: Suit::Clubs, rank: Rank::King },
        Card { suit: Suit::Spades, rank: Rank::Queen },
        Card { suit: Suit::Hearts, rank: Rank::Jack },
        Card { suit: Suit::Spades, rank: Rank::Two },
        Card { suit: Suit::Clubs, rank: Rank::Three },
    ];
    
    let evaluation = game.evaluate_hand(cards);
    assert_eq!(evaluation.rank, HandRank::OnePair);
}

#[test]
fn game_test_hand_evaluation_high_card() {
    let players = create_test_players();
    let game = Game::new(players);
    
    let cards = vec![
        Card { suit: Suit::Hearts, rank: Rank::Ace },
        Card { suit: Suit::Diamonds, rank: Rank::King },
        Card { suit: Suit::Clubs, rank: Rank::Jack },
        Card { suit: Suit::Spades, rank: Rank::Nine },
        Card { suit: Suit::Hearts, rank: Rank::Seven },
        Card { suit: Suit::Spades, rank: Rank::Two },
        Card { suit: Suit::Clubs, rank: Rank::Three },
    ];
    
    let evaluation = game.evaluate_hand(cards);
    assert_eq!(evaluation.rank, HandRank::HighCard);
}

#[test]
fn test_complete_game_with_winner_determination() {
    let players = create_test_players();
    let mut game = Game::new(players);
    
    // Começar a rodada
    game.start_round();
    
    // Verificar que os jogadores receberam cartas
    for player in &game.players {
        assert_eq!(player.hand.len(), 2);
    }
    
    // Simular que todos os jogadores fazem call/check para avançar para o flop
    let num_players = game.players.len();
    for _ in 0..num_players {
        let current_player_id = game.players[game.current_player_index].id.clone();
        let action = if game.current_bet > game.players[game.current_player_index].current_bet {
            PlayerAction::Call
        } else {
            PlayerAction::Check
        };
        let _ = game.process_action(&current_player_id, action);
    }
    
    // Deve estar no flop agora
    assert_eq!(game.state, GameState::Flop);
    assert_eq!(game.community_cards.len(), 3);
    
    // Continuar até o river
    for _ in 0..num_players {
        let current_player_id = game.players[game.current_player_index].id.clone();
        let _ = game.process_action(&current_player_id, PlayerAction::Check);
    }
    
    assert_eq!(game.state, GameState::Turn);
    assert_eq!(game.community_cards.len(), 4);
    
    for _ in 0..num_players {
        let current_player_id = game.players[game.current_player_index].id.clone();
        let _ = game.process_action(&current_player_id, PlayerAction::Check);
    }
    
    assert_eq!(game.state, GameState::River);
    assert_eq!(game.community_cards.len(), 5);
    
    for _ in 0..num_players {
        let current_player_id = game.players[game.current_player_index].id.clone();
        let _ = game.process_action(&current_player_id, PlayerAction::Check);
    }
    
    // Deve ter terminado
    assert_eq!(game.state, GameState::Finished);
    
    // Verificar que um vencedor foi determinado (pot foi distribuído)
    assert_eq!(game.pot, 0);
    
    // Verificar que pelo menos um jogador ganhou fichas
    let total_chips: u32 = game.players.iter().map(|p| p.chips).sum();
    assert!(total_chips > 0);
}
