use holdem_engine::{
    ActionError, Card, Game, GameState, HandRank, Player, PlayerAction, Rank, Suit,
    ShowdownResult,
};

fn seat(id: &str, chips: u32) -> Player {
    Player {
        id: id.to_string(),
        name: id.to_uppercase(),
        chips,
        hand: Vec::new(),
        current_bet: 0,
        is_folded: false,
        is_all_in: false,
    }
}

fn three_seats() -> Vec<Player> {
    vec![seat("a", 1000), seat("b", 1000), seat("c", 1000)]
}

fn c(suit: Suit, rank: Rank) -> Card {
    Card { suit, rank }
}

fn total_chips(game: &Game) -> u32 {
    game.players.iter().map(|p| p.chips).sum::<u32>() + game.pot
}

fn act_current(game: &mut Game, action: PlayerAction) -> Result<Option<ShowdownResult>, ActionError> {
    let id = game.players[game.current_player_index].id.clone();
    game.process_action(&id, action)
}

fn call_or_check(game: &mut Game) -> Result<Option<ShowdownResult>, ActionError> {
    let action = if game.current_bet > game.players[game.current_player_index].current_bet {
        PlayerAction::Call
    } else {
        PlayerAction::Check
    };
    act_current(game, action)
}

#[test]
fn wheel_is_five_high_straight() {
    let game = Game::new(three_seats());
    let wheel = game.evaluate_hand(vec![
        c(Suit::Hearts, Rank::Ace),
        c(Suit::Diamonds, Rank::Two),
        c(Suit::Clubs, Rank::Three),
        c(Suit::Spades, Rank::Four),
        c(Suit::Hearts, Rank::Five),
    ]);
    assert_eq!(wheel.rank, HandRank::Straight);
    assert_eq!(wheel.kickers, vec![5]);
    let six_to_ten = game.evaluate_hand(vec![
        c(Suit::Hearts, Rank::Six),
        c(Suit::Diamonds, Rank::Seven),
        c(Suit::Clubs, Rank::Eight),
        c(Suit::Spades, Rank::Nine),
        c(Suit::Hearts, Rank::Ten),
    ]);
    assert_eq!(six_to_ten.rank, HandRank::Straight);
    assert_eq!(six_to_ten.kickers, vec![10]);
    assert_eq!(wheel.cmp(&six_to_ten), std::cmp::Ordering::Less);
    assert!(wheel < six_to_ten);
    assert_eq!(six_to_ten.cmp(&wheel), std::cmp::Ordering::Greater);
}

#[test]
fn suited_wheel_is_five_high_straight_flush() {
    let game = Game::new(three_seats());
    let e = game.evaluate_hand(vec![
        c(Suit::Clubs, Rank::Ace),
        c(Suit::Clubs, Rank::Two),
        c(Suit::Clubs, Rank::Three),
        c(Suit::Clubs, Rank::Four),
        c(Suit::Clubs, Rank::Five),
    ]);
    assert_eq!(e.rank, HandRank::StraightFlush);
    assert_eq!(e.kickers, vec![5]);
}

fn canonical_hands() -> Vec<Vec<Card>> {
    vec![
        // high card
        vec![c(Suit::Hearts, Rank::Ace), c(Suit::Diamonds, Rank::King), c(Suit::Clubs, Rank::Nine), c(Suit::Spades, Rank::Seven), c(Suit::Hearts, Rank::Four)],
        // one pair
        vec![c(Suit::Hearts, Rank::Two), c(Suit::Diamonds, Rank::Two), c(Suit::Clubs, Rank::Nine), c(Suit::Spades, Rank::Seven), c(Suit::Hearts, Rank::Four)],
        // two pair
        vec![c(Suit::Hearts, Rank::Two), c(Suit::Diamonds, Rank::Two), c(Suit::Clubs, Rank::Three), c(Suit::Spades, Rank::Three), c(Suit::Hearts, Rank::Four)],
        // three of a kind
        vec![c(Suit::Hearts, Rank::Two), c(Suit::Diamonds, Rank::Two), c(Suit::Clubs, Rank::Two), c(Suit::Spades, Rank::Seven), c(Suit::Hearts, Rank::Four)],
        // straight
        vec![c(Suit::Hearts, Rank::Two), c(Suit::Diamonds, Rank::Three), c(Suit::Clubs, Rank::Four), c(Suit::Spades, Rank::Five), c(Suit::Hearts, Rank::Six)],
        // flush
        vec![c(Suit::Hearts, Rank::Two), c(Suit::Hearts, Rank::Three), c(Suit::Hearts, Rank::Four), c(Suit::Hearts, Rank::Five), c(Suit::Hearts, Rank::Seven)],
        // full house
        vec![c(Suit::Hearts, Rank::Two), c(Suit::Diamonds, Rank::Two), c(Suit::Clubs, Rank::Two), c(Suit::Spades, Rank::Three), c(Suit::Hearts, Rank::Three)],
        // four of a kind
        vec![c(Suit::Hearts, Rank::Two), c(Suit::Diamonds, Rank::Two), c(Suit::Clubs, Rank::Two), c(Suit::Spades, Rank::Two), c(Suit::Hearts, Rank::Three)],
        // straight flush
        vec![c(Suit::Spades, Rank::Two), c(Suit::Spades, Rank::Three), c(Suit::Spades, Rank::Four), c(Suit::Spades, Rank::Five), c(Suit::Spades, Rank::Six)],
        // royal flush
        vec![c(Suit::Spades, Rank::Ten), c(Suit::Spades, Rank::Jack), c(Suit::Spades, Rank::Queen), c(Suit::Spades, Rank::King), c(Suit::Spades, Rank::Ace)],
    ]
}

#[test]
fn categories_are_ordered() {
    let game = Game::new(three_seats());
    let expected = [
        HandRank::HighCard,
        HandRank::OnePair,
        HandRank::TwoPair,
        HandRank::ThreeOfAKind,
        HandRank::Straight,
        HandRank::Flush,
        HandRank::FullHouse,
        HandRank::FourOfAKind,
        HandRank::StraightFlush,
        HandRank::RoyalFlush,
    ];
    let evals: Vec<_> = canonical_hands().into_iter().map(|h| game.evaluate_hand(h)).collect();
    for (e, r) in evals.iter().zip(expected.iter()) {
        assert_eq!(e.rank, *r);
    }
    for i in 0..evals.len() {
        for j in 0..evals.len() {
            let want = i.cmp(&j);
            assert_eq!(evals[i].cmp(&evals[j]), want, "{} vs {}", i, j);
        }
    }
}

#[test]
fn tie_break_keys() {
    let game = Game::new(three_seats());
    let hands = canonical_hands();
    assert_eq!(game.evaluate_hand(hands[0].clone()).kickers, vec![14, 13, 9, 7, 4]);
    assert_eq!(game.evaluate_hand(hands[1].clone()).kickers, vec![2, 9, 7, 4]);
    assert_eq!(game.evaluate_hand(hands[2].clone()).kickers, vec![3, 2, 4]);
    assert_eq!(game.evaluate_hand(hands[3].clone()).kickers, vec![2, 7, 4]);
    assert_eq!(game.evaluate_hand(hands[4].clone()).kickers, vec![6]);
    assert_eq!(game.evaluate_hand(hands[5].clone()).kickers, vec![7, 5, 4, 3, 2]);
    assert_eq!(game.evaluate_hand(hands[6].clone()).kickers, vec![2, 3]);
    assert_eq!(game.evaluate_hand(hands[7].clone()).kickers, vec![2, 3]);
    assert_eq!(game.evaluate_hand(hands[8].clone()).kickers, vec![6]);
    assert_eq!(game.evaluate_hand(hands[9].clone()).kickers, vec![14]);
    let sorted: Vec<Rank> = game.evaluate_hand(hands[0].clone()).cards.iter().map(|c| c.rank).collect();
    assert_eq!(sorted, vec![Rank::Ace, Rank::King, Rank::Nine, Rank::Seven, Rank::Four]);
}

#[test]
fn evaluation_ignores_card_order() {
    let game = Game::new(three_seats());
    let cards = vec![
        c(Suit::Hearts, Rank::Ace),
        c(Suit::Clubs, Rank::Ace),
        c(Suit::Diamonds, Rank::King),
        c(Suit::Spades, Rank::King),
        c(Suit::Hearts, Rank::Jack),
        c(Suit::Clubs, Rank::Four),
        c(Suit::Diamonds, Rank::Two),
    ];
    let base = game.evaluate_hand(cards.clone());
    assert_eq!(base.rank, HandRank::TwoPair);
    assert_eq!(base.kickers, vec![14, 13, 11]);
    let mut rotated = cards.clone();
    for _ in 0..cards.len() {
        rotated.rotate_left(1);
        assert!(game.evaluate_hand(rotated.clone()) == base);
        let mut reversed = rotated.clone();
        reversed.reverse();
        assert!(game.evaluate_hand(reversed) == base);
    }
}

#[test]
fn five_card_selections_are_all_listed() {
    let game = Game::new(three_seats());
    let cards: Vec<Card> = Game::create_deck().into_iter().take(7).collect();
    let combos = game.get_five_card_combinations(cards.clone());
    assert_eq!(combos.len(), 21);
    assert_eq!(combos[0], cards[0..5].to_vec());
    assert_eq!(combos[20], cards[2..7].to_vec());
}

#[test]
fn fresh_deck_holds_every_card_once() {
    let deck = Game::create_deck();
    assert_eq!(deck.len(), 52);
    for i in 0..deck.len() {
        for j in (i + 1)..deck.len() {
            assert_ne!(deck[i], deck[j]);
        }
    }
    assert_eq!(deck[0], c(Suit::Hearts, Rank::Two));
    assert_eq!(deck[51], c(Suit::Spades, Rank::Ace));
}

#[test]
fn new_table_has_shuffled_full_deck_and_id() {
    let a = Game::new(three_seats());
    let b = Game::new(three_seats());
    assert_eq!(a.deck.len(), 52);
    for card in Game::create_deck() {
        assert_eq!(a.deck.iter().filter(|d| **d == card).count(), 1);
    }
    assert_ne!(a.deck, Game::create_deck());
    assert_ne!(a.deck, b.deck);
    assert!(!a.id.is_empty());
    assert_ne!(a.id, b.id);
    assert_eq!(a.small_blind, 5);
    assert_eq!(a.big_blind, 10);
}

#[test]
fn three_player_scenario_reaches_flop() {
    let mut game = Game::new(three_seats());
    game.start_round();
    assert_eq!(game.pot, 15);
    assert_eq!(game.current_bet, 10);
    for p in &game.players {
        assert_eq!(p.hand.len(), 2);
    }
    assert_eq!(game.current_player_index, (game.dealer_index + 3) % 3);
    assert_eq!(game.players[1].chips, 995);
    assert_eq!(game.players[2].chips, 990);
    // The first seat calls and the small blind completes: the big blind has
    // already acted by posting, so the street closes.
    act_current(&mut game, PlayerAction::Call).unwrap();
    assert_eq!(game.state, GameState::PreFlop);
    act_current(&mut game, PlayerAction::Call).unwrap();
    assert_eq!(game.state, GameState::Flop);
    assert_eq!(game.community_cards.len(), 3);
    assert_eq!(game.pot, 30);
    assert_eq!(game.current_bet, 0);
    for p in &game.players {
        assert_eq!(p.current_bet, 0);
    }
    assert!(game.round_bets.is_empty());
    assert_eq!(game.current_player_index, 1);
    // The third player's turn comes on the flop.
    act_current(&mut game, PlayerAction::Check).unwrap();
    assert_eq!(game.state, GameState::Flop);
    assert_eq!(game.current_player_index, 2);
}

#[test]
fn deck_shrinks_by_two_per_seat_plus_eight() {
    let mut game = Game::new(three_seats());
    game.start_round();
    assert_eq!(game.deck.len(), 52 - 6);
    for _ in 0..3 {
        call_or_check(&mut game).unwrap();
    }
    assert_eq!(game.deck.len(), 52 - 6 - 4);
    for _ in 0..3 {
        call_or_check(&mut game).unwrap();
    }
    assert_eq!(game.state, GameState::Turn);
    assert_eq!(game.deck.len(), 52 - 6 - 6);
    for _ in 0..3 {
        call_or_check(&mut game).unwrap();
    }
    assert_eq!(game.state, GameState::River);
    assert_eq!(game.community_cards.len(), 5);
    assert_eq!(game.deck.len(), 52 - (2 * 3 + 8));
    let mut seen: Vec<Card> = game.deck.clone();
    seen.extend(game.community_cards.iter().cloned());
    for p in &game.players {
        seen.extend(p.hand.iter().cloned());
    }
    for i in 0..seen.len() {
        for j in (i + 1)..seen.len() {
            assert_ne!(seen[i], seen[j]);
        }
    }
}

#[test]
fn full_hand_conserves_chips() {
    let mut game = Game::new(three_seats());
    game.start_round();
    let before = 3000;
    assert_eq!(total_chips(&game), before);
    act_current(&mut game, PlayerAction::Raise(40)).unwrap();
    assert_eq!(total_chips(&game), before);
    let mut result = None;
    for _ in 0..20 {
        if game.state == GameState::Finished {
            break;
        }
        result = call_or_check(&mut game).unwrap();
        assert_eq!(total_chips(&game), before);
    }
    assert_eq!(game.state, GameState::Finished);
    assert_eq!(game.pot, 0);
    assert_eq!(total_chips(&game), before);
    match result {
        Some(ShowdownResult::Showdown { pot_won, winners, all_hands }) => {
            assert_eq!(pot_won, 150);
            assert!(!winners.is_empty());
            assert_eq!(all_hands.len(), 3);
        }
        other => panic!("expected a showdown, got {:?}", other),
    }
    assert!(game.get_hand_result().is_some());
}

#[test]
fn split_pot_gives_odd_chip_to_first_winner() {
    let mut game = Game::new(vec![seat("a", 500), seat("b", 500), seat("c", 500)]);
    game.start_round();
    // Board: a royal flush that every player plays.
    game.community_cards = vec![
        c(Suit::Spades, Rank::Ten),
        c(Suit::Spades, Rank::Jack),
        c(Suit::Spades, Rank::Queen),
        c(Suit::Spades, Rank::King),
        c(Suit::Spades, Rank::Ace),
    ];
    game.players[0].hand = vec![c(Suit::Hearts, Rank::Two), c(Suit::Hearts, Rank::Three)];
    game.players[1].hand = vec![c(Suit::Clubs, Rank::Two), c(Suit::Clubs, Rank::Three)];
    game.players[2].hand = vec![c(Suit::Diamonds, Rank::Two), c(Suit::Diamonds, Rank::Four)];
    for p in game.players.iter_mut() {
        p.current_bet = 0;
        p.chips = 490;
    }
    game.players[2].is_folded = true;
    game.pot = 31;
    game.current_bet = 0;
    game.round_bets.clear();
    game.state = GameState::River;
    game.current_player_index = 0;
    let before = total_chips(&game);
    act_current(&mut game, PlayerAction::Check).unwrap();
    let result = act_current(&mut game, PlayerAction::Check).unwrap();
    assert_eq!(game.state, GameState::Finished);
    assert_eq!(game.players[0].chips, 490 + 16);
    assert_eq!(game.players[1].chips, 490 + 15);
    assert_eq!(game.players[2].chips, 490);
    assert_eq!(game.pot, 0);
    assert_eq!(total_chips(&game), before);
    match result {
        Some(ShowdownResult::Showdown { pot_won, winners, .. }) => {
            assert_eq!(pot_won, 31);
            assert_eq!(winners.len(), 2);
            assert_eq!(winners[0].id, "a");
            assert_eq!(winners[1].id, "b");
            assert_eq!(winners[0].hand_rank, HandRank::RoyalFlush);
        }
        other => panic!("expected a showdown, got {:?}", other),
    }
}

#[test]
fn last_player_standing_takes_pot() {
    let mut game = Game::new(vec![seat("a", 100), seat("b", 100)]);
    game.start_round();
    // dealer 0: small blind seat 1, big blind seat 0, first to act seat 1
    assert_eq!(game.current_player_index, 1);
    act_current(&mut game, PlayerAction::Fold).unwrap();
    let mut result = None;
    for _ in 0..10 {
        if game.state == GameState::Finished {
            break;
        }
        result = call_or_check(&mut game).unwrap();
    }
    assert_eq!(game.state, GameState::Finished);
    assert_eq!(game.players[0].chips, 105);
    assert_eq!(game.players[1].chips, 95);
    match result {
        Some(ShowdownResult::SingleWinner { winner, pot_won }) => {
            assert_eq!(winner.id, "a");
            assert_eq!(pot_won, 15);
        }
        other => panic!("expected a single winner, got {:?}", other),
    }
    match game.get_hand_result() {
        Some(ShowdownResult::SingleWinner { winner, pot_won }) => {
            assert_eq!(winner.id, "a");
            assert_eq!(pot_won, 0);
        }
        other => panic!("expected a single winner, got {:?}", other),
    }
}

#[test]
fn rejected_actions_change_nothing() {
    let mut game = Game::new(three_seats());
    game.start_round();
    let snapshot = format!("{:?}", game);
    let current = game.players[game.current_player_index].id.clone();
    let other = game.players[(game.current_player_index + 1) % 3].id.clone();
    assert_eq!(game.process_action(&other, PlayerAction::Call).unwrap_err(), ActionError::NotYourTurn);
    assert_eq!(game.process_action(&current, PlayerAction::Check).unwrap_err(), ActionError::CannotCheck);
    assert_eq!(
        game.process_action(&current, PlayerAction::Raise(5000)).unwrap_err(),
        ActionError::InsufficientChips
    );
    assert_eq!(
        game.process_action(&current, PlayerAction::Raise(u32::MAX)).unwrap_err(),
        ActionError::InsufficientChips
    );
    assert_eq!(format!("{:?}", game), snapshot);
}

#[test]
fn folded_seat_cannot_act() {
    let mut game = Game::new(three_seats());
    game.start_round();
    let i = game.current_player_index;
    game.players[i].is_folded = true;
    let id = game.players[i].id.clone();
    let err = game.process_action(&id, PlayerAction::Check).unwrap_err();
    assert_eq!(err, ActionError::AlreadyFolded);
    assert_eq!(err.message(), "Jogador já foldou");
}

#[test]
fn finished_hand_refuses_actions() {
    let mut game = Game::new(three_seats());
    game.start_round();
    game.state = GameState::Finished;
    let id = game.players[game.current_player_index].id.clone();
    assert_eq!(game.process_action(&id, PlayerAction::Call).unwrap_err(), ActionError::HandNotInProgress);
    assert_eq!(ActionError::CannotCheck.message(), "Não é possível dar check, há uma aposta a ser igualada");
    assert_eq!(ActionError::InsufficientChips.message(), "Fichas insuficientes para essa aposta");
}

#[test]
fn raise_and_all_in_move_chips() {
    let mut game = Game::new(vec![seat("a", 1000), seat("b", 1000), seat("c", 300)]);
    game.start_round();
    // seat 0 acts first: call 10 then raise 40 more
    assert_eq!(game.current_player_index, 0);
    act_current(&mut game, PlayerAction::Raise(40)).unwrap();
    assert_eq!(game.players[0].chips, 950);
    assert_eq!(game.players[0].current_bet, 50);
    assert_eq!(game.current_bet, 50);
    assert_eq!(game.pot, 65);
    assert_eq!(game.round_bets.get(&0), Some(&50));
    assert_eq!(game.current_player_index, 1);
    act_current(&mut game, PlayerAction::Call).unwrap();
    assert_eq!(game.players[1].chips, 950);
    assert_eq!(game.pot, 110);
    act_current(&mut game, PlayerAction::AllIn).unwrap();
    assert_eq!(game.players[2].chips, 0);
    assert!(game.players[2].is_all_in);
    assert_eq!(game.players[2].current_bet, 300);
    assert_eq!(game.current_bet, 300);
    assert_eq!(game.pot, 400);
    assert_eq!(game.state, GameState::PreFlop);
    assert_eq!(game.current_player_index, 0);
}

#[test]
fn check_is_recorded_before_the_street_closes() {
    let mut game = Game::new(three_seats());
    game.start_round();
    for _ in 0..2 {
        call_or_check(&mut game).unwrap();
    }
    assert_eq!(game.state, GameState::Flop);
    assert!(!game.has_betting_round_completed());
    act_current(&mut game, PlayerAction::Check).unwrap();
    assert_eq!(game.state, GameState::Flop);
    assert_eq!(game.round_bets.len(), 1);
    act_current(&mut game, PlayerAction::Check).unwrap();
    assert_eq!(game.state, GameState::Flop);
    act_current(&mut game, PlayerAction::Check).unwrap();
    assert_eq!(game.state, GameState::Turn);
}

#[test]
fn next_hand_moves_the_button() {
    let mut game = Game::new(three_seats());
    game.start_round();
    game.next_hand();
    assert_eq!(game.dealer_index, 1);
    assert_eq!(game.state, GameState::PreFlop);
    assert_eq!(game.players[2].current_bet, 5);
    assert_eq!(game.players[0].current_bet, 10);
    assert_eq!(game.current_player_index, 1);
    assert_eq!(game.pot, 15);
    let snap = game.get_game_state();
    assert_eq!(snap.pot, 15);
    assert_eq!(snap.current_player.as_deref(), Some("b"));
    assert_eq!(snap.players.len(), 3);
    assert_eq!(snap.game_id, game.id);
}

#[test]
fn showdown_ranks_every_hand() {
    let mut game = Game::new(three_seats());
    game.start_round();
    game.community_cards = vec![
        c(Suit::Clubs, Rank::Two),
        c(Suit::Diamonds, Rank::Seven),
        c(Suit::Hearts, Rank::Nine),
        c(Suit::Spades, Rank::Jack),
        c(Suit::Clubs, Rank::King),
    ];
    game.players[0].hand = vec![c(Suit::Hearts, Rank::Three), c(Suit::Hearts, Rank::Four)];
    game.players[1].hand = vec![c(Suit::Hearts, Rank::King), c(Suit::Diamonds, Rank::King)];
    game.players[2].hand = vec![c(Suit::Spades, Rank::Ace), c(Suit::Diamonds, Rank::Ace)];
    for p in game.players.iter_mut() {
        p.current_bet = 0;
    }
    game.current_bet = 0;
    game.round_bets.clear();
    game.state = GameState::River;
    game.current_player_index = 0;
    let pot = game.pot;
    let chips_b = game.players[1].chips;
    for _ in 0..3 {
        act_current(&mut game, PlayerAction::Check).unwrap();
    }
    assert_eq!(game.state, GameState::Finished);
    assert_eq!(game.players[1].chips, chips_b + pot);
    match game.get_hand_result() {
        Some(ShowdownResult::Showdown { winners, all_hands, .. }) => {
            assert_eq!(winners.len(), 1);
            assert_eq!(winners[0].id, "b");
            assert_eq!(winners[0].hand_rank, HandRank::ThreeOfAKind);
            let ids: Vec<&str> = all_hands.iter().map(|r| r.id.as_str()).collect();
            assert_eq!(ids, vec!["b", "c", "a"]);
            assert_eq!(all_hands[1].hand_rank, HandRank::OnePair);
            assert_eq!(all_hands[2].hand_rank, HandRank::HighCard);
            assert_eq!(all_hands[0].best_hand.len(), 5);
        }
        other => panic!("expected a showdown, got {:?}", other),
    }
}

#[test]
fn cards_come_off_the_end_of_the_deck() {
    let mut game = Game::new(three_seats());
    let deck = Game::create_deck();
    game.deck = deck.clone();
    game.deal_hole_cards();
    assert_eq!(game.players[0].hand, vec![deck[51], deck[48]]);
    assert_eq!(game.players[1].hand, vec![deck[50], deck[47]]);
    assert_eq!(game.players[2].hand, vec![deck[49], deck[46]]);
    assert_eq!(game.deck, deck[..46].to_vec());
    game.deal_flop();
    // deck[45] is burnt
    assert_eq!(game.community_cards, vec![deck[44], deck[43], deck[42]]);
    game.deal_turn();
    assert_eq!(game.community_cards[3], deck[40]);
    game.deal_river();
    assert_eq!(game.community_cards[4], deck[38]);
    assert_eq!(game.deck.len(), 38);
}

#[test]
fn straight_detection() {
    let game = Game::new(three_seats());
    assert!(game.is_straight(&[10, 9, 8, 7, 6]));
    assert!(game.is_straight(&[14, 5, 4, 3, 2]));
    assert!(!game.is_straight(&[14, 13, 12, 11, 9]));
    assert!(!game.is_straight(&[9, 9, 8, 7, 6]));
    assert!(!game.is_straight(&[2, 3, 4, 5, 6]));
}

#[test]
fn blinds_are_capped_by_stacks() {
    let mut game = Game::new(vec![seat("a", 1000), seat("b", 3), seat("c", 7)]);
    game.start_round();
    assert_eq!(game.players[1].chips, 0);
    assert_eq!(game.players[1].current_bet, 3);
    assert_eq!(game.players[2].chips, 0);
    assert_eq!(game.players[2].current_bet, 7);
    assert_eq!(game.current_bet, 7);
    assert_eq!(game.pot, 10);
    assert_eq!(game.round_bets.get(&1), Some(&3));
    assert_eq!(game.round_bets.get(&2), Some(&7));
}

#[test]
fn seats_with_chips_are_counted() {
    let mut game = Game::new(vec![seat("a", 0), seat("b", 10), seat("c", 0)]);
    assert_eq!(game.players_with_chips(), 1);
    game.players[2].chips = 4;
    assert_eq!(game.players_with_chips(), 2);
}

#[test]
fn table_size_and_chip_limits() {
    assert!(Game::can_seat(&three_seats()));
    assert!(!Game::can_seat(&vec![seat("a", 10)]));
    let crowd: Vec<Player> = (0..23).map(|i| seat(&format!("p{}", i), 10)).collect();
    assert!(!Game::can_seat(&crowd));
    assert!(Game::can_seat(&crowd[..22].to_vec()));
    assert!(!Game::can_seat(&vec![seat("a", u32::MAX), seat("b", 1)]));
    assert!(Game::can_seat(&vec![seat("a", u32::MAX - 1), seat("b", 1)]));
}
