//! The betting-round state machine.
use vstd::prelude::*;

use crate::cards::fresh_deck;
use crate::deck::{new_table_id, shuffled_deck};
use crate::laws::deck_accounted;
use crate::models::{Game, GameState, Player, PlayerAction};
use crate::showdown::{action_reported, advance_reported, ShowdownResult};
use crate::table::{
    active_count, active_upto, after_action, all_hands, all_matched, bet_applied, bets_cleared,
    blinds_posted, board_dealt, chips_in_play, commit, dealt_to, funded_upto, hand_reset, hand_started,
    lemma_bet_applied_wf, lemma_bets_cleared_wf, lemma_chips_le_total, lemma_chips_same,
    lemma_commit_wf, lemma_hands_empty, lemma_hands_push, lemma_hands_same, lemma_scan_same,
    lemma_player_views, lemma_seat_scan_range, lemma_street_advanced_wf, lemma_turn_passed_wf,
    lemma_views_update, chips_upto,
    player_views, rejection, seat_scan, seats_reset, street_advanced, street_complete,
    total_chips, turn_passed, turns_taken, ActionError, GameView, PlayerView, MAX_PLAYERS,
};

verus! {

broadcast use vstd::std_specs::hash::group_hash_axioms, vstd::seq_lib::group_to_multiset_ensures;

impl Game {
    /// Seats `players` in the given order at a table with blinds 5 and 10 and a
    /// shuffled deck; no hand is started.
    pub fn new(players: Vec<Player>) -> (g: Game)
        requires
            2 <= players@.len() <= MAX_PLAYERS,
            total_chips(player_views(players@)) <= u32::MAX,
        ensures
            g@.players == player_views(players@),
            g@.deck.len() == 52,
            g@.deck.to_multiset() == fresh_deck().to_multiset(),
            g@.community.len() == 0,
            g@.pot == 0,
            g@.current_bet == 0,
            g@.current == 0,
            g@.dealer == 0,
            g@.small_blind == 5,
            g@.big_blind == 10,
            g@.state == GameState::PreFlop,
            g@.round_bets == Map::<usize, u32>::empty(),
    {
        let deck = shuffled_deck();
        Game {
            id: new_table_id(),
            players,
            deck,
            community_cards: Vec::new(),
            pot: 0,
            current_bet: 0,
            current_player_index: 0,
            dealer_index: 0,
            small_blind: 5,
            big_blind: 10,
            state: GameState::PreFlop,
            round_bets: std::collections::HashMap::new(),
        }
    }

    /// The first seat, from `base + k` on clockwise, that can act.
    fn first_active_from(&self, base: usize, k: usize) -> (r: usize)
        requires
            base < self.players@.len() <= MAX_PLAYERS,
            k <= 1,
        ensures
            r == seat_scan(self@.players, base as int, k as int),
            r < self.players@.len(),
    {
        let n = self.players.len();
        let mut j: usize = k;
        proof {
            lemma_seat_scan_range(self@.players, base as int, k as int);
        }
        while j <= n
            invariant
                n == self.players@.len() <= MAX_PLAYERS,
                base < n,
                k <= j <= n + 1,
                seat_scan(self@.players, base as int, k as int) == seat_scan(
                    self@.players,
                    base as int,
                    j as int,
                ),
            decreases n + 1 - j,
        {
            let idx = (base + j) % n;
            if !self.players[idx].is_folded && !self.players[idx].is_all_in {
                return idx;
            }
            j += 1;
        }
        base
    }

    /// The seat that acts first before the flop: the first that can act from
    /// three seats after the dealer on.
    pub fn get_first_active_player_after_big_blind(&self) -> (r: usize)
        requires
            self.dealer_index < self.players@.len() <= MAX_PLAYERS,
        ensures
            r == seat_scan(
                self@.players,
                (self.dealer_index + 3) % (self.players@.len() as int),
                0,
            ),
            r < self.players@.len(),
    {
        let start = (self.dealer_index + 3) % self.players.len();
        self.first_active_from(start, 0)
    }

    /// The seat that acts first after the flop: the first that can act after
    /// the dealer.
    pub fn get_first_active_player_after_dealer(&self) -> (r: usize)
        requires
            self.dealer_index < self.players@.len() <= MAX_PLAYERS,
        ensures
            r == seat_scan(self@.players, self.dealer_index as int, 1),
            r < self.players@.len(),
    {
        self.first_active_from(self.dealer_index, 1)
    }

    /// Passes the turn to the next seat that can act.
    fn next_player(&mut self)
        requires
            old(self)@.current < old(self)@.players.len() <= MAX_PLAYERS,
        ensures
            final(self)@ == turn_passed(old(self)@),
            final(self)@.current < final(self)@.players.len(),
    {
        let idx = self.first_active_from(self.current_player_index, 1);
        self.current_player_index = idx;
    }

    /// Moves `amount` chips of seat `i` from its stack into its street bet and
    /// the pot, and records the seat as having acted.
    fn commit_chips(&mut self, i: usize, amount: u32)
        requires
            old(self)@.wf(),
            i < old(self)@.players.len(),
            amount <= old(self)@.players[i as int].chips,
        ensures
            final(self)@ == commit(old(self)@, i as int, amount as int),
    {
        let ghost v = self@;
        proof {
            lemma_chips_le_total(v.players, i as int, v.players.len() as int);
        }
        let chips = self.players[i].chips - amount;
        let bet = self.players[i].current_bet + amount;
        let ghost before = self.players@;
        self.players[i].chips = chips;
        self.players[i].current_bet = bet;
        proof {
            lemma_views_update(before, i as int, self.players@[i as int]);
            assert(self.players@ == before.update(i as int, self.players@[i as int]));
        }
        self.pot = self.pot + amount;
        self.round_bets.insert(i, bet);
        assert(self@.players =~= commit(v, i as int, amount as int).players);
        assert(self@.round_bets =~= commit(v, i as int, amount as int).round_bets);
    }

    /// Applies a legal action of the seat to act, before the turn passes.
    fn apply_bet(&mut self, action: PlayerAction)
        requires
            old(self)@.wf(),
            !old(self)@.players[old(self)@.current as int].is_folded,
            rejection(old(self)@, old(self)@.players[old(self)@.current as int].id, action)
                is None,
        ensures
            final(self)@ == bet_applied(old(self)@, action),
    {
        let ghost v = self@;
        let i = self.current_player_index;
        let cb = self.current_bet;
        let bet = self.players[i].current_bet;
        let chips = self.players[i].chips;
        let to_call: u32 = if cb > bet {
            cb - bet
        } else {
            0
        };
        match action {
            PlayerAction::Fold => {
                let ghost before = self.players@;
                self.players[i].is_folded = true;
                proof {
                    lemma_views_update(before, i as int, self.players@[i as int]);
                }
                assert(self@.players =~= bet_applied(v, action).players);
            },
            PlayerAction::Check => {
                self.round_bets.insert(i, bet);
                assert(self@.round_bets =~= bet_applied(v, action).round_bets);
            },
            PlayerAction::Call => {
                let amount = if to_call < chips {
                    to_call
                } else {
                    chips
                };
                self.commit_chips(i, amount);
                assert(self@.players.len() == self.players@.len());
                if self.players[i].chips == 0 {
                    let ghost before = self.players@;
                    self.players[i].is_all_in = true;
                    proof {
                        lemma_views_update(before, i as int, self.players@[i as int]);
                    }
                    assert(self@.players =~= bet_applied(v, action).players);
                }
            },
            PlayerAction::Raise(amount) => {
                self.commit_chips(i, to_call + amount);
                assert(self@.players.len() == self.players@.len());
                self.current_bet = self.players[i].current_bet;
            },
            PlayerAction::AllIn => {
                self.commit_chips(i, chips);
                assert(self@.players.len() == self.players@.len());
                let ghost before = self.players@;
                self.players[i].is_all_in = true;
                proof {
                    lemma_views_update(before, i as int, self.players@[i as int]);
                }
                assert(self@.players =~= bet_applied(v, action).players.update(
                    i as int,
                    self@.players[i as int],
                ));
                if self.players[i].current_bet > cb {
                    self.current_bet = self.players[i].current_bet;
                }
                assert(self@.players =~= bet_applied(v, action).players);
            },
        }
    }

    /// Whether every seat that can act has had its turn on this street: with
    /// no bet, each has acted; with a bet, each has acted or matched it.
    pub fn has_betting_round_completed(&self) -> (r: bool)
        ensures
            r == turns_taken(self@),
    {
        let n = self.players.len();
        let mut i: usize = 0;
        while i < n
            invariant
                n == self@.players.len(),
                i <= n,
                self.current_bet == 0 ==> forall|j: int|
                    0 <= j < i && #[trigger] self@.players[j].active()
                        ==> self@.round_bets.contains_key(j as usize),
                self.current_bet != 0 ==> forall|j: int|
                    0 <= j < i && #[trigger] self@.players[j].active()
                        ==> self@.players[j].current_bet == self.current_bet
                        || self@.round_bets.contains_key(j as usize),
            decreases n - i,
        {
            assert(self@.players[i as int] == self.players@[i as int]@);
            let p = &self.players[i];
            if !p.is_folded && !p.is_all_in {
                let acted = self.round_bets.contains_key(&i);
                assert(acted == self@.round_bets.contains_key(i));
                assert(self@.players[i as int].active());
                if self.current_bet == 0 {
                    if !acted {
                        return false;
                    }
                } else if p.current_bet != self.current_bet && !acted {
                    return false;
                }
            }
            i += 1;
        }
        true
    }

    /// How many seats can still act.
    fn count_active(&self) -> (r: usize)
        requires
            self@.players.len() <= MAX_PLAYERS,
        ensures
            r == active_count(self@.players),
    {
        let n = self.players.len();
        let mut c: usize = 0;
        let mut i: usize = 0;
        while i < n
            invariant
                n == self@.players.len() <= MAX_PLAYERS,
                i <= n,
                c == active_upto(self@.players, i as int),
                c <= i,
            decreases n - i,
        {
            assert(self@.players[i as int] == self.players@[i as int]@);
            if !self.players[i].is_folded && !self.players[i].is_all_in {
                c += 1;
            }
            i += 1;
        }
        c
    }

    /// Every seat that can act has matched the table bet.
    fn all_bets_equal(&self) -> (r: bool)
        ensures
            r == all_matched(self@),
    {
        let n = self.players.len();
        let mut i: usize = 0;
        while i < n
            invariant
                n == self@.players.len(),
                i <= n,
                forall|j: int|
                    0 <= j < i && #[trigger] self@.players[j].active() ==> self@.players[j].current_bet
                        == self.current_bet,
            decreases n - i,
        {
            assert(self@.players[i as int] == self.players@[i as int]@);
            let p = &self.players[i];
            if !p.is_folded && !p.is_all_in && p.current_bet != self.current_bet {
                assert(self@.players[i as int].active());
                return false;
            }
            i += 1;
        }
        true
    }

    /// Clears the street bets of all seats and of the table.
    fn clear_street_bets(&mut self)
        ensures
            final(self)@ == bets_cleared(old(self)@),
    {
        let ghost v = self@;
        let n = self.players.len();
        let mut i: usize = 0;
        while i < n
            invariant
                n == self@.players.len() == v.players.len(),
                i <= n,
                forall|j: int|
                    0 <= j < i ==> #[trigger] self@.players[j] == (PlayerView {
                        current_bet: 0,
                        ..v.players[j]
                    }),
                forall|j: int| i <= j < n ==> #[trigger] self@.players[j] == v.players[j],
                self@ == (GameView { players: self@.players, ..v }),
            decreases n - i,
        {
            let ghost before = self.players@;
            assert(self@.players[i as int] == before[i as int]@);
            assert(before[i as int]@ == v.players[i as int]);
            self.players[i].current_bet = 0;
            proof {
                lemma_views_update(before, i as int, self.players@[i as int]);
                assert(self@.players[i as int] == (PlayerView {
                    current_bet: 0,
                    ..v.players[i as int]
                }));
            }
            i += 1;
        }
        self.current_bet = 0;
        self.round_bets.clear();
        assert(self@.players =~= bets_cleared(v).players);
    }

    /// Burns one card and turns `n` over onto the board.
    fn deal_board(&mut self, n: usize)
        requires
            old(self)@.deck.len() >= n + 1,
        ensures
            final(self)@ == board_dealt(old(self)@, n as int),
    {
        let ghost v = self@;
        let ghost l = v.deck.len() as int;
        let _burn = self.deck.pop();
        let mut k: usize = 0;
        while k < n
            invariant
                k <= n,
                l == v.deck.len(),
                l >= n + 1,
                self@ == (GameView {
                    deck: v.deck.subrange(0, l - 1 - k),
                    community: v.community + v.deck.subrange(l - 1 - k, l - 1).reverse(),
                    ..v
                }),
            decreases n - k,
        {
            match self.deck.pop() {
                Some(c) => {
                    self.community_cards.push(c);
                },
                None => {},
            }
            k += 1;
            assert(self@.deck =~= v.deck.subrange(0, l - 1 - k));
            assert(self@.community =~= v.community + v.deck.subrange(l - 1 - k, l - 1).reverse());
        }
    }

    /// Burns one card and deals the three-card flop.
    pub fn deal_flop(&mut self)
        requires
            old(self)@.deck.len() >= 4,
        ensures
            final(self)@ == board_dealt(old(self)@, 3),
    {
        self.deal_board(3);
    }

    /// Burns one card and deals the turn card.
    pub fn deal_turn(&mut self)
        requires
            old(self)@.deck.len() >= 2,
        ensures
            final(self)@ == board_dealt(old(self)@, 1),
    {
        self.deal_board(1);
    }

    /// Burns one card and deals the river card.
    pub fn deal_river(&mut self)
        requires
            old(self)@.deck.len() >= 2,
        ensures
            final(self)@ == board_dealt(old(self)@, 1),
    {
        self.deal_board(1);
    }

    /// Closes the street: clears the bets, deals the next board cards and
    /// hands the turn to the first seat after the dealer; from the river, goes
    /// to the showdown and returns its result.
    fn advance_game_state(&mut self) -> (r: Option<ShowdownResult>)
        requires
            old(self).wf(),
            old(self)@.state.is_betting_street(),
        ensures
            final(self)@ == street_advanced(old(self)@),
            advance_reported(old(self)@, r),
    {
        let ghost v = self@;
        proof {
            lemma_bets_cleared_wf(v);
        }
        self.clear_street_bets();
        match self.state {
            GameState::PreFlop => {
                self.state = GameState::Flop;
                self.deal_flop();
            },
            GameState::Flop => {
                self.state = GameState::Turn;
                self.deal_turn();
            },
            GameState::Turn => {
                self.state = GameState::River;
                self.deal_river();
            },
            GameState::River => {
                self.state = GameState::Showdown;
                return self.determine_winner();
            },
            _ => {},
        }
        assert(self@.players.len() == self.players@.len());
        self.current_player_index = self.get_first_active_player_after_dealer();
        None
    }

    /// Closes the street if it is complete.
    fn check_round_completion(&mut self) -> (r: Option<ShowdownResult>)
        requires
            old(self).wf(),
            old(self)@.state.is_betting_street(),
        ensures
            final(self)@ == if street_complete(old(self)@) {
                street_advanced(old(self)@)
            } else {
                old(self)@
            },
            if street_complete(old(self)@) {
                advance_reported(old(self)@, r)
            } else {
                r is None
            },
    {
        let active = self.count_active();
        if active <= 1 {
            return self.advance_game_state();
        }
        let all_bets_equal = self.all_bets_equal();
        let all_players_had_turn = self.has_betting_round_completed();
        proof {
            let v = self@;
            if all_bets_equal && all_players_had_turn && v.current_bet != 0 {
                assert forall|i: int|
                    0 <= i < v.players.len() && #[trigger] v.players[i].active() implies v.round_bets.contains_key(
                    i as usize,
                ) by {
                    assert(v.players[i].current_bet == v.current_bet);
                }
            }
        }
        if all_bets_equal && all_players_had_turn {
            return self.advance_game_state();
        }
        None
    }

    /// Plays `action` for the player `player_id`. A refused action changes
    /// nothing; a legal one is applied, the turn passes on, and the street
    /// closes if it is complete; the result of a showdown that this brings
    /// about is returned.
    pub fn process_action(&mut self, player_id: &str, action: PlayerAction) -> (r: Result<
        Option<ShowdownResult>,
        ActionError,
    >)
        requires
            old(self).wf(),
        ensures
            final(self).wf(),
            chips_in_play(final(self)@) == chips_in_play(old(self)@),
            match r {
                Ok(res) => rejection(old(self)@, player_id@, action) is None && final(self)@
                    == after_action(old(self)@, action) && action_reported(old(self)@, action, res),
                Err(e) => rejection(old(self)@, player_id@, action) == Some(e) && *final(self)
                    == *old(self),
            },
    {
        let ghost v = self@;
        match self.state {
            GameState::PreFlop | GameState::Flop | GameState::Turn | GameState::River => {},
            _ => {
                return Err(ActionError::HandNotInProgress);
            },
        }
        let i = self.current_player_index;
        let pid = player_id.to_owned();
        assert(self@.players[i as int] == self.players@[i as int]@);
        if !(self.players[i].id == pid) {
            return Err(ActionError::NotYourTurn);
        }
        if self.players[i].is_folded {
            return Err(ActionError::AlreadyFolded);
        }
        let cb = self.current_bet;
        let bet = self.players[i].current_bet;
        let chips = self.players[i].chips;
        match action {
            PlayerAction::Check => {
                if cb > bet {
                    return Err(ActionError::CannotCheck);
                }
            },
            PlayerAction::Raise(amount) => {
                let to_call: u32 = if cb > bet {
                    cb - bet
                } else {
                    0
                };
                if to_call > chips || amount > chips - to_call {
                    return Err(ActionError::InsufficientChips);
                }
            },
            _ => {},
        }
        proof {
            lemma_bet_applied_wf(v, action);
            lemma_turn_passed_wf(bet_applied(v, action));
        }
        self.apply_bet(action);
        self.next_player();
        proof {
            let w = turn_passed(bet_applied(v, action));
            if street_complete(w) {
                lemma_street_advanced_wf(w);
            }
        }
        let round_result = self.check_round_completion();
        Ok(round_result)
    }

    /// Deals two hole cards to every seat, one at a time round the table,
    /// from the end of the deck.
    pub fn deal_hole_cards(&mut self)
        requires
            old(self)@.players.len() <= MAX_PLAYERS,
            old(self)@.deck.len() >= 2 * old(self)@.players.len(),
        ensures
            final(self)@ == (GameView {
                players: final(self)@.players,
                deck: final(self)@.deck,
                ..old(self)@
            }),
            final(self)@.players.len() == old(self)@.players.len(),
            forall|i: int|
                0 <= i < old(self)@.players.len() ==> #[trigger] final(self)@.players[i] == (
                PlayerView { hand: final(self)@.players[i].hand, ..old(self)@.players[i] }),
            forall|i: int|
                0 <= i < old(self)@.players.len() ==> (#[trigger] final(self)@.players[i]).hand
                    == old(self)@.players[i].hand + dealt_to(
                    old(self)@.deck,
                    old(self)@.players.len() as int,
                    i,
                    2,
                ),
            final(self)@.deck == old(self)@.deck.subrange(
                0,
                old(self)@.deck.len() - 2 * old(self)@.players.len(),
            ),
            final(self)@.deck.to_multiset().add(all_hands(final(self)@.players)) == old(
                self,
            )@.deck.to_multiset().add(all_hands(old(self)@.players)),
    {
        let ghost v = self@;
        let n = self.players.len();
        proof {
            assert forall|i: int| 0 <= i < n implies (#[trigger] v.players[i]).hand == v.players[i].hand
                + dealt_to(v.deck, n as int, i, 0) by {
                assert(v.players[i].hand =~= v.players[i].hand + dealt_to(v.deck, n as int, i, 0));
            }
            assert(v.deck.subrange(0, v.deck.len() - 0 * n) =~= v.deck);
        }
        let mut pass: usize = 0;
        while pass < 2
            invariant
                pass <= 2,
                n == v.players.len() == self@.players.len() <= MAX_PLAYERS,
                v.deck.len() >= 2 * n,
                self@ == (GameView { players: self@.players, deck: self@.deck, ..v }),
                forall|i: int|
                    0 <= i < n ==> #[trigger] self@.players[i] == (PlayerView {
                        hand: self@.players[i].hand,
                        ..v.players[i]
                    }),
                forall|i: int|
                    0 <= i < n ==> (#[trigger] self@.players[i]).hand == v.players[i].hand + dealt_to(
                        v.deck,
                        n as int,
                        i,
                        pass as int,
                    ),
                self@.deck == v.deck.subrange(0, v.deck.len() - pass * n),
                self@.deck.to_multiset().add(all_hands(self@.players)) == v.deck.to_multiset().add(
                    all_hands(v.players),
                ),
            decreases 2 - pass,
        {
            let mut j: usize = 0;
            while j < n
                invariant
                    pass < 2,
                    j <= n,
                    n == v.players.len() == self@.players.len() <= MAX_PLAYERS,
                    v.deck.len() >= 2 * n,
                    self@ == (GameView { players: self@.players, deck: self@.deck, ..v }),
                    forall|i: int|
                        0 <= i < n ==> #[trigger] self@.players[i] == (PlayerView {
                            hand: self@.players[i].hand,
                            ..v.players[i]
                        }),
                    forall|i: int|
                        0 <= i < j ==> (#[trigger] self@.players[i]).hand == v.players[i].hand
                            + dealt_to(v.deck, n as int, i, pass + 1),
                    forall|i: int|
                        j <= i < n ==> (#[trigger] self@.players[i]).hand == v.players[i].hand
                            + dealt_to(v.deck, n as int, i, pass as int),
                    self@.deck == v.deck.subrange(0, v.deck.len() - pass * n - j),
                    self@.deck.to_multiset().add(all_hands(self@.players)) == v.deck.to_multiset().add(
                        all_hands(v.players),
                    ),
                decreases n - j,
            {
                assert(self@.deck.len() >= 1) by (nonlinear_arith)
                    requires
                        self@.deck.len() == v.deck.len() - pass * n - j,
                        v.deck.len() >= 2 * n,
                        pass < 2,
                        j < n,
                ;
                let ghost d = self@.deck;
                let ghost ps = self@.players;
                let ghost before = self.players@;
                match self.deck.pop() {
                    Some(c) => {
                        assert(self@.players[j as int] == self.players@[j as int]@);
                        self.players[j].hand.push(c);
                        proof {
                            lemma_views_update(before, j as int, self.players@[j as int]);
                            assert(self@.players == ps.update(
                                j as int,
                                PlayerView { hand: ps[j as int].hand.push(c), ..ps[j as int] },
                            ));
                            lemma_hands_push(ps, j as int, c, n as int);
                            assert(c == v.deck[v.deck.len() - 1 - pass * n - j]);
                            assert(ps[j as int].hand.push(c) =~= v.players[j as int].hand + dealt_to(
                                v.deck,
                                n as int,
                                j as int,
                                pass + 1,
                            ));
                            assert(d =~= self@.deck.push(c));
                            assert(self@.deck.push(c).to_multiset() =~= self@.deck.to_multiset().insert(c));
                            assert(self@.deck.to_multiset().add(all_hands(self@.players))
                                =~= d.to_multiset().add(all_hands(ps)));
                        }
                    },
                    None => {},
                }
                j += 1;
            }
            assert((pass + 1) * n == pass * n + n) by (nonlinear_arith);
            pass += 1;
        }
    }

    /// Posts the small and big blinds from the two seats after the dealer, on a
    /// street where nobody has bet yet.
    pub fn post_blinds(&mut self)
        requires
            old(self).wf(),
            forall|i: int|
                0 <= i < old(self)@.players.len() ==> (#[trigger] old(self)@.players[i]).current_bet
                    == 0,
            old(self)@.round_bets == Map::<usize, u32>::empty(),
            old(self)@.state == GameState::PreFlop,
        ensures
            final(self)@ == blinds_posted(old(self)@),
            final(self).wf(),
            chips_in_play(final(self)@) == chips_in_play(old(self)@),
    {
        let ghost v = self@;
        let n = self.players.len();
        let small_blind_index = (self.dealer_index + 1) % n;
        let big_blind_index = (self.dealer_index + 2) % n;
        assert(self@.players[small_blind_index as int] == self.players@[small_blind_index as int]@);
        let small_blind_amount = if self.small_blind < self.players[small_blind_index].chips {
            self.small_blind
        } else {
            self.players[small_blind_index].chips
        };
        proof {
            lemma_commit_wf(v, small_blind_index as int, small_blind_amount as int);
        }
        self.commit_chips(small_blind_index, small_blind_amount);
        let ghost v1 = self@;
        assert(self@.players.len() == self.players@.len());
        assert(self@.players[big_blind_index as int] == self.players@[big_blind_index as int]@);
        let big_blind_amount = if self.big_blind < self.players[big_blind_index].chips {
            self.big_blind
        } else {
            self.players[big_blind_index].chips
        };
        proof {
            lemma_commit_wf(v1, big_blind_index as int, big_blind_amount as int);
        }
        self.commit_chips(big_blind_index, big_blind_amount);
        self.current_bet = big_blind_amount;
    }

    /// Starts a new hand: seats reset, a freshly shuffled deck, two hole cards
    /// each, blinds posted, and the first seat after the big blind to act.
    pub fn start_round(&mut self)
        requires
            2 <= old(self)@.players.len() <= MAX_PLAYERS,
            old(self).dealer_index < old(self)@.players.len(),
            total_chips(old(self)@.players) <= u32::MAX,
        ensures
            hand_started(old(self)@, final(self)@),
            deck_accounted(final(self)@),
            final(self).wf(),
            chips_in_play(final(self)@) == total_chips(old(self)@.players),
    {
        let ghost v = self@;
        let n = self.players.len();
        let mut i: usize = 0;
        while i < n
            invariant
                n == self@.players.len() == v.players.len(),
                i <= n,
                forall|j: int|
                    0 <= j < i ==> #[trigger] self@.players[j] == seats_reset(v.players)[j],
                forall|j: int| i <= j < n ==> #[trigger] self@.players[j] == v.players[j],
                self@ == (GameView { players: self@.players, ..v }),
            decreases n - i,
        {
            let ghost before = self.players@;
            assert(self@.players[i as int] == before[i as int]@);
            self.players[i].hand.clear();
            self.players[i].current_bet = 0;
            self.players[i].is_folded = false;
            self.players[i].is_all_in = false;
            proof {
                assert(self.players@ =~= before.update(i as int, self.players@[i as int]));
                lemma_views_update(before, i as int, self.players@[i as int]);
                assert(self@.players[i as int] =~= seats_reset(v.players)[i as int]);
            }
            i += 1;
        }
        assert(self@.players =~= seats_reset(v.players));
        self.deck = shuffled_deck();
        self.community_cards.clear();
        self.pot = 0;
        self.current_bet = 0;
        self.round_bets.clear();
        self.state = GameState::PreFlop;
        self.current_player_index = self.dealer_index;
        let ghost r = self@;
        assert(r == (GameView { deck: r.deck, current: r.current, ..hand_reset(v) }));
        proof {
            lemma_chips_same(v.players, r.players, n as int);
        }
        self.deal_hole_cards();
        let ghost h = self@;
        proof {
            lemma_hands_empty(r.players, n as int);
            assert(r.deck.to_multiset().add(all_hands(r.players)) =~= r.deck.to_multiset());
            assert forall|j: int| 0 <= j < n implies (#[trigger] h.players[j]).hand.len() == 2 by {
                assert(r.players[j].hand.len() == 0);
            }
        }
        proof {
            lemma_chips_same(r.players, h.players, n as int);
            assert(h.wf());
        }
        self.post_blinds();
        let ghost b = self@;
        assert(self@.players.len() == self.players@.len());
        self.current_player_index = self.get_first_active_player_after_big_blind();
        proof {
            let b0 = blinds_posted(hand_reset(v));
            let r0 = GameView { deck: r.deck, current: r.current, ..hand_reset(v) };
            assert forall|j: int| 0 <= j < n implies #[trigger] b.players[j] == (PlayerView {
                hand: b.players[j].hand,
                ..b0.players[j]
            }) by {
                assert(h.players[j] == (PlayerView { hand: h.players[j].hand, ..r.players[j] }));
            }
            assert(all_hands(b.players) == all_hands(h.players)) by {
                lemma_hands_same(b.players, h.players, n as int);
            }
            lemma_scan_same(b.players, b0.players, (v.dealer + 3) % (n as int), 0);
            assert(self@.round_bets =~= b0.round_bets);
        }
    }

    /// Moves the dealer button one seat on and starts a new hand.
    pub fn next_hand(&mut self)
        requires
            2 <= old(self)@.players.len() <= MAX_PLAYERS,
            old(self).dealer_index < old(self)@.players.len(),
            total_chips(old(self)@.players) <= u32::MAX,
        ensures
            hand_started(
                GameView {
                    dealer: ((old(self)@.dealer + 1) % (old(self)@.players.len() as int)) as usize,
                    ..old(self)@
                },
                final(self)@,
            ),
            deck_accounted(final(self)@),
            final(self).wf(),
            chips_in_play(final(self)@) == total_chips(old(self)@.players),
    {
        self.dealer_index = (self.dealer_index + 1) % self.players.len();
        self.start_round();
    }

    /// How many seats still have chips; a new hand needs two of them.
    pub fn players_with_chips(&self) -> (r: usize)
        ensures
            r == funded_upto(self@.players, self@.players.len() as int),
    {
        let n = self.players.len();
        let mut c: usize = 0;
        let mut i: usize = 0;
        while i < n
            invariant
                n == self@.players.len(),
                i <= n,
                c == funded_upto(self@.players, i as int),
                c <= i,
            decreases n - i,
        {
            assert(self@.players[i as int] == self.players@[i as int]@);
            if self.players[i].chips > 0 {
                c += 1;
            }
            i += 1;
        }
        c
    }

    /// Whether `players` can sit at a table: two to `MAX_PLAYERS` seats, and
    /// chips that fit in a `u32` counter all together.
    pub fn can_seat(players: &Vec<Player>) -> (r: bool)
        ensures
            r == (2 <= players@.len() <= MAX_PLAYERS && total_chips(player_views(players@))
                <= u32::MAX),
    {
        let n = players.len();
        if n < 2 || n > MAX_PLAYERS {
            return false;
        }
        let ghost ps = player_views(players@);
        proof {
            lemma_player_views(players@);
        }
        let mut total: u64 = 0;
        let mut i: usize = 0;
        while i < n
            invariant
                n == players@.len() == ps.len() <= MAX_PLAYERS,
                ps == player_views(players@),
                forall|j: int| 0 <= j < n ==> #[trigger] ps[j] == players@[j]@,
                i <= n,
                total == chips_upto(ps, i as int),
                total <= i * (u32::MAX as int),
            decreases n - i,
        {
            let c = players[i].chips;
            assert(total + c <= (i + 1) * (u32::MAX as int)) by (nonlinear_arith)
                requires
                    total <= i * (u32::MAX as int),
                    c <= u32::MAX,
            ;
            assert(ps[i as int].chips == c);
            total = total + c as u64;
            i += 1;
        }
        total <= u32::MAX as u64
    }
}

} // verus!
