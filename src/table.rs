//! The mathematical model of a table and the rules of a hand, as spec
//! functions from one table state to the next.
use vstd::multiset::Multiset;
use vstd::prelude::*;

use crate::cards::{fresh_deck, Card};
use crate::hand::{
    eval_cmp, evaluate, lemma_eval_cmp_antisym, lemma_eval_cmp_refl, lemma_eval_cmp_trans, EvalView,
};
use crate::models::{Game, GameState, Player, PlayerAction};

verus! {

/// The most seats one deck can serve: two hole cards each, plus three burns
/// and five board cards.
pub const MAX_PLAYERS: usize = 22;

/// A seat as plain values.
pub struct PlayerView {
    pub id: Seq<char>,
    pub name: Seq<char>,
    pub chips: u32,
    pub hand: Seq<Card>,
    pub current_bet: u32,
    pub is_folded: bool,
    pub is_all_in: bool,
}

impl PlayerView {
    pub open spec fn active(self) -> bool {
        !self.is_folded && !self.is_all_in
    }
}

/// The table as plain values.
pub struct GameView {
    pub id: Seq<char>,
    pub players: Seq<PlayerView>,
    pub deck: Seq<Card>,
    pub community: Seq<Card>,
    pub pot: u32,
    pub current_bet: u32,
    pub current: usize,
    pub dealer: usize,
    pub small_blind: u32,
    pub big_blind: u32,
    pub state: GameState,
    pub round_bets: Map<usize, u32>,
}

impl View for Player {
    type V = PlayerView;

    open spec fn view(&self) -> PlayerView {
        PlayerView {
            id: self.id@,
            name: self.name@,
            chips: self.chips,
            hand: self.hand@,
            current_bet: self.current_bet,
            is_folded: self.is_folded,
            is_all_in: self.is_all_in,
        }
    }
}

pub open spec fn player_views(ps: Seq<Player>) -> Seq<PlayerView> {
    ps.map_values(|p: Player| p@)
}

impl View for Game {
    type V = GameView;

    open spec fn view(&self) -> GameView {
        GameView {
            id: self.id@,
            players: player_views(self.players@),
            deck: self.deck@,
            community: self.community_cards@,
            pot: self.pot,
            current_bet: self.current_bet,
            current: self.current_player_index,
            dealer: self.dealer_index,
            small_blind: self.small_blind,
            big_blind: self.big_blind,
            state: self.state,
            round_bets: self.round_bets@,
        }
    }
}

/// The chips in front of the first `k` seats.
pub open spec fn chips_upto(ps: Seq<PlayerView>, k: int) -> int
    decreases k,
{
    if k <= 0 || ps.len() == 0 {
        0
    } else {
        chips_upto(ps, k - 1) + ps[k - 1].chips
    }
}

/// The chips in front of all seats.
pub open spec fn total_chips(ps: Seq<PlayerView>) -> int {
    chips_upto(ps, ps.len() as int)
}

/// All chips at the table: the stacks and the pot.
pub open spec fn chips_in_play(v: GameView) -> int {
    total_chips(v.players) + v.pot
}

/// Cards the deck must still provide, from this street to the river.
pub open spec fn cards_needed(s: GameState) -> nat {
    match s {
        GameState::PreFlop => 8,
        GameState::Flop => 4,
        GameState::Turn => 2,
        _ => 0,
    }
}

/// Board cards on a betting street.
pub open spec fn board_size(s: GameState) -> nat {
    match s {
        GameState::Flop => 3,
        GameState::Turn => 4,
        GameState::River => 5,
        _ => 0,
    }
}

impl GameView {
    /// The invariant of a table between operations.
    pub open spec fn wf(self) -> bool {
        &&& 2 <= self.players.len() <= MAX_PLAYERS
        &&& self.current < self.players.len()
        &&& self.dealer < self.players.len()
        &&& chips_in_play(self) <= u32::MAX
        &&& forall|i: int|
            0 <= i < self.players.len() ==> #[trigger] self.players[i].current_bet <= self.pot
        &&& forall|i: int|
            0 <= i < self.players.len() && #[trigger] self.players[i].current_bet > 0
                ==> self.round_bets.contains_key(i as usize)
        &&& self.deck.len() >= cards_needed(self.state)
        &&& self.state.is_betting_street() ==> self.community.len() == board_size(self.state)
        &&& (self.state == GameState::Showdown || self.state == GameState::Finished)
            ==> self.community.len() == 5
        &&& forall|i: usize|
            #[trigger] self.round_bets.contains_key(i) ==> (i as int) < self.players.len()
                && self.round_bets[i] == self.players[i as int].current_bet
        &&& self.state == GameState::Finished ==> self.pot == 0 || forall|i: int|
            0 <= i < self.players.len() ==> #[trigger] self.players[i].is_folded
    }
}

impl Game {
    pub open spec fn wf(&self) -> bool {
        self@.wf()
    }
}

/// Seats are visited clockwise from `base + k`; the first one that can act is
/// chosen. If none of `base + k ..= base + n` can act, `base` is kept.
pub open spec fn seat_scan(ps: Seq<PlayerView>, base: int, k: int) -> int
    decreases ps.len() + 1 - k,
{
    if k > ps.len() || k < 0 || ps.len() == 0 {
        base
    } else if ps[(base + k) % (ps.len() as int)].active() {
        (base + k) % (ps.len() as int)
    } else {
        seat_scan(ps, base, k + 1)
    }
}

/// The seat that acts next after seat `from`.
pub open spec fn next_seat(ps: Seq<PlayerView>, from: int) -> int {
    seat_scan(ps, from, 1)
}

/// How many of the first `k` seats can still act.
pub open spec fn active_upto(ps: Seq<PlayerView>, k: int) -> nat
    decreases k,
{
    if k <= 0 || ps.len() == 0 {
        0
    } else {
        active_upto(ps, k - 1) + if ps[k - 1].active() {
            1nat
        } else {
            0nat
        }
    }
}

pub open spec fn active_count(ps: Seq<PlayerView>) -> nat {
    active_upto(ps, ps.len() as int)
}

/// How many of the first `k` seats still have chips in front of them.
pub open spec fn funded_upto(ps: Seq<PlayerView>, k: int) -> nat
    decreases k,
{
    if k <= 0 || ps.len() == 0 {
        0
    } else {
        funded_upto(ps, k - 1) + if ps[k - 1].chips > 0 {
            1nat
        } else {
            0nat
        }
    }
}

/// Every seat that can act has matched the table bet.
pub open spec fn all_matched(v: GameView) -> bool {
    forall|i: int|
        0 <= i < v.players.len() && #[trigger] v.players[i].active() ==> v.players[i].current_bet
            == v.current_bet
}

/// Every seat that can act has acted on this street.
pub open spec fn all_acted(v: GameView) -> bool {
    forall|i: int|
        0 <= i < v.players.len() && #[trigger] v.players[i].active() ==> v.round_bets.contains_key(
            i as usize,
        )
}

/// Whether every seat that can act has had its turn: with no bet on the
/// street each must have acted; with a bet, each must have acted or matched it.
pub open spec fn turns_taken(v: GameView) -> bool {
    if v.current_bet == 0 {
        all_acted(v)
    } else {
        forall|i: int|
            0 <= i < v.players.len() && #[trigger] v.players[i].active() ==> v.players[i].current_bet
                == v.current_bet || v.round_bets.contains_key(i as usize)
    }
}

/// The street is over: at most one seat can still act, or every seat that can
/// act has matched the table bet and has acted on this street.
pub open spec fn street_complete(v: GameView) -> bool {
    active_count(v.players) <= 1 || (all_matched(v) && all_acted(v))
}

/// Why an action is refused, if it is.
#[derive(Clone, Copy, Debug, PartialEq, Eq, Structural)]
pub enum ActionError {
    /// The hand is not on a betting street.
    HandNotInProgress,
    /// The player is not the one to act.
    NotYourTurn,
    /// The player to act has folded.
    AlreadyFolded,
    /// A check while a bet is open.
    CannotCheck,
    /// A raise larger than the stack.
    InsufficientChips,
}

impl ActionError {
    /// The text shown to the player whose action was refused.
    pub fn message(&self) -> (r: String)
        ensures
            r@ == match self {
                ActionError::HandNotInProgress => "A mão não está em andamento"@,
                ActionError::NotYourTurn => "Não é sua vez de jogar"@,
                ActionError::AlreadyFolded => "Jogador já foldou"@,
                ActionError::CannotCheck => "Não é possível dar check, há uma aposta a ser igualada"@,
                ActionError::InsufficientChips => "Fichas insuficientes para essa aposta"@,
            },
    {
        match self {
            ActionError::HandNotInProgress => "A mão não está em andamento".to_owned(),
            ActionError::NotYourTurn => "Não é sua vez de jogar".to_owned(),
            ActionError::AlreadyFolded => "Jogador já foldou".to_owned(),
            ActionError::CannotCheck => "Não é possível dar check, há uma aposta a ser igualada".to_owned(),
            ActionError::InsufficientChips => "Fichas insuficientes para essa aposta".to_owned(),
        }
    }
}

/// What a call would cost before the stack is considered.
pub open spec fn to_call(v: GameView, p: PlayerView) -> int {
    if v.current_bet > p.current_bet {
        v.current_bet - p.current_bet
    } else {
        0
    }
}

/// The refusal for `action` sent by `pid`, or none when it is legal.
pub open spec fn rejection(v: GameView, pid: Seq<char>, action: PlayerAction) -> Option<
    ActionError,
> {
    let p = v.players[v.current as int];
    if !v.state.is_betting_street() {
        Some(ActionError::HandNotInProgress)
    } else if p.id != pid {
        Some(ActionError::NotYourTurn)
    } else if p.is_folded {
        Some(ActionError::AlreadyFolded)
    } else {
        match action {
            PlayerAction::Check => if v.current_bet > p.current_bet {
                Some(ActionError::CannotCheck)
            } else {
                None
            },
            PlayerAction::Raise(amount) => if to_call(v, p) + amount > p.chips {
                Some(ActionError::InsufficientChips)
            } else {
                None
            },
            _ => None,
        }
    }
}

/// Seat `i` moves `amount` chips from its stack to its street bet and to the
/// pot, and is recorded as having acted with its new street total.
pub open spec fn commit(v: GameView, i: int, amount: int) -> GameView {
    let p = v.players[i];
    let q = PlayerView {
        chips: (p.chips - amount) as u32,
        current_bet: (p.current_bet + amount) as u32,
        ..p
    };
    GameView {
        players: v.players.update(i, q),
        pot: (v.pot + amount) as u32,
        round_bets: v.round_bets.insert(i as usize, q.current_bet),
        ..v
    }
}

/// The table after the seat to act plays a legal `action`.
pub open spec fn bet_applied(v: GameView, action: PlayerAction) -> GameView {
    let i = v.current as int;
    let p = v.players[i];
    match action {
        PlayerAction::Fold => GameView {
            players: v.players.update(i, PlayerView { is_folded: true, ..p }),
            ..v
        },
        PlayerAction::Check => GameView {
            round_bets: v.round_bets.insert(i as usize, p.current_bet),
            ..v
        },
        PlayerAction::Call => {
            let amount = if to_call(v, p) < p.chips {
                to_call(v, p)
            } else {
                p.chips as int
            };
            let w = commit(v, i, amount);
            if p.chips - amount == 0 {
                GameView {
                    players: w.players.update(i, PlayerView { is_all_in: true, ..w.players[i] }),
                    ..w
                }
            } else {
                w
            }
        },
        PlayerAction::Raise(amount) => {
            let w = commit(v, i, to_call(v, p) + amount);
            GameView { current_bet: w.players[i].current_bet, ..w }
        },
        PlayerAction::AllIn => {
            let w = commit(v, i, p.chips as int);
            let x = GameView {
                players: w.players.update(i, PlayerView { is_all_in: true, ..w.players[i] }),
                ..w
            };
            if x.players[i].current_bet > v.current_bet {
                GameView { current_bet: x.players[i].current_bet, ..x }
            } else {
                x
            }
        },
    }
}

/// The turn passes to the next seat that can act.
pub open spec fn turn_passed(v: GameView) -> GameView {
    GameView { current: next_seat(v.players, v.current as int) as usize, ..v }
}

/// Street bets are cleared.
pub open spec fn bets_cleared(v: GameView) -> GameView {
    GameView {
        players: v.players.map_values(|p: PlayerView| PlayerView { current_bet: 0, ..p }),
        current_bet: 0,
        round_bets: Map::empty(),
        ..v
    }
}

/// One card is burnt and `n` are turned face up on the board.
pub open spec fn board_dealt(v: GameView, n: int) -> GameView {
    let l = v.deck.len() as int;
    GameView {
        deck: v.deck.subrange(0, l - 1 - n),
        community: v.community + v.deck.subrange(l - 1 - n, l - 1).reverse(),
        ..v
    }
}

/// The next street: bets cleared, the board dealt, the first seat after the
/// dealer to act; from the river, the showdown.
pub open spec fn street_advanced(v: GameView) -> GameView {
    let c = bets_cleared(v);
    let first = seat_scan(c.players, c.dealer as int, 1) as usize;
    match v.state {
        GameState::PreFlop => GameView {
            state: GameState::Flop,
            current: first,
            ..board_dealt(c, 3)
        },
        GameState::Flop => GameView { state: GameState::Turn, current: first, ..board_dealt(c, 1) },
        GameState::Turn => GameView { state: GameState::River, current: first, ..board_dealt(c, 1) },
        GameState::River => showdown(GameView { state: GameState::Showdown, ..c }),
        _ => GameView { current: first, ..c },
    }
}

/// The table after a legal action: the bet, the turn passing on, and the
/// street closing if it is complete.
pub open spec fn after_action(v: GameView, action: PlayerAction) -> GameView {
    let w = turn_passed(bet_applied(v, action));
    if street_complete(w) {
        street_advanced(w)
    } else {
        w
    }
}

// ---- starting a hand ----

/// The first `r` cards that seat `i` of `n` receives when cards go round the
/// table one at a time from the end of deck `d`.
pub open spec fn dealt_to(d: Seq<Card>, n: int, i: int, r: int) -> Seq<Card> {
    Seq::new(r as nat, |q: int| d[d.len() - 1 - q * n - i])
}

/// Seats as they are when a hand begins: no cards, no bet, nobody out.
pub open spec fn seats_reset(ps: Seq<PlayerView>) -> Seq<PlayerView> {
    ps.map_values(
        |p: PlayerView|
            PlayerView { hand: seq![], current_bet: 0, is_folded: false, is_all_in: false, ..p },
    )
}

pub open spec fn min_u32(a: u32, b: u32) -> u32 {
    if a < b {
        a
    } else {
        b
    }
}

/// The small blind (seat after the dealer) and the big blind (the seat after
/// that) are posted, each capped by the seat's stack; the table bet is the
/// big blind that was posted.
pub open spec fn blinds_posted(v: GameView) -> GameView {
    let n = v.players.len() as int;
    let sb = (v.dealer + 1) % n;
    let bb = (v.dealer + 2) % n;
    let v1 = commit(v, sb, min_u32(v.small_blind, v.players[sb].chips) as int);
    let b = min_u32(v.big_blind, v1.players[bb].chips);
    let v2 = commit(v1, bb, b as int);
    GameView { current_bet: b, ..v2 }
}

/// The table as a new hand begins, before cards are dealt and blinds posted.
pub open spec fn hand_reset(v: GameView) -> GameView {
    GameView {
        players: seats_reset(v.players),
        community: seq![],
        pot: 0,
        current_bet: 0,
        round_bets: Map::empty(),
        state: GameState::PreFlop,
        ..v
    }
}

/// `w` is table `v` once a new hand has begun: seats reset, a reshuffled deck
/// from which each seat got two cards, blinds posted, and the first seat
/// that can act from three after the dealer on to act.
pub open spec fn hand_started(v: GameView, w: GameView) -> bool {
    let n = v.players.len() as int;
    let b = blinds_posted(hand_reset(v));
    &&& w.players.len() == n
    &&& forall|i: int|
        0 <= i < n ==> #[trigger] w.players[i] == (PlayerView { hand: w.players[i].hand, ..b.players[i] })
    &&& forall|i: int| 0 <= i < n ==> (#[trigger] w.players[i]).hand.len() == 2
    &&& w.deck.len() == 52 - 2 * n
    &&& w.deck.to_multiset().add(all_hands(w.players)) == fresh_deck().to_multiset()
    &&& w == (GameView {
        players: w.players,
        deck: w.deck,
        current: seat_scan(b.players, (v.dealer + 3) % n, 0) as usize,
        ..b
    })
}

// ---- showdown ----

/// A seat still in the hand.
pub open spec fn contender(v: GameView, i: int) -> bool {
    0 <= i < v.players.len() && !v.players[i].is_folded
}

/// How many of the first `k` seats are still in the hand.
pub open spec fn contenders_upto(v: GameView, k: int) -> nat
    decreases k,
{
    if k <= 0 {
        0
    } else {
        contenders_upto(v, k - 1) + if contender(v, k - 1) {
            1nat
        } else {
            0nat
        }
    }
}

pub open spec fn contender_count(v: GameView) -> nat {
    contenders_upto(v, v.players.len() as int)
}

/// The best five of a seat's hole cards and the board.
pub open spec fn seat_eval(v: GameView, i: int) -> EvalView {
    evaluate(v.players[i].hand + v.community)
}

/// A seat whose hand is at least as strong as every other contender's.
pub open spec fn is_winner(v: GameView, i: int) -> bool {
    &&& contender(v, i)
    &&& forall|j: int| #[trigger] contender(v, j) ==> eval_cmp(seat_eval(v, i), seat_eval(v, j)) >= 0
}

/// How many winners sit before seat `k`.
pub open spec fn winners_upto(v: GameView, k: int) -> nat
    decreases k,
{
    if k <= 0 {
        0
    } else {
        winners_upto(v, k - 1) + if is_winner(v, k - 1) {
            1nat
        } else {
            0nat
        }
    }
}

pub open spec fn winner_count(v: GameView) -> nat {
    winners_upto(v, v.players.len() as int)
}

/// What seat `i` takes from the pot: an equal share for each winner, and one
/// more chip for each of the first `pot % winners` winners in seat order.
pub open spec fn payout(v: GameView, i: int) -> int {
    let w = winner_count(v);
    if is_winner(v, i) && w > 0 {
        v.pot as int / w as int + if winners_upto(v, i) < v.pot as int % w as int {
            1int
        } else {
            0int
        }
    } else {
        0
    }
}

/// The hand is settled: with at least one contender the pot goes to the
/// winners; with none it stays where it is.
pub open spec fn showdown(v: GameView) -> GameView {
    if contender_count(v) == 0 {
        GameView { state: GameState::Finished, ..v }
    } else {
        GameView {
            players: Seq::new(
                v.players.len(),
                |i: int| PlayerView { chips: (v.players[i].chips + payout(v, i)) as u32, ..v.players[i] },
            ),
            pot: 0,
            state: GameState::Finished,
            ..v
        }
    }
}

// ---- facts about the sums over seats ----

/// The hole cards of the first `k` seats.
pub open spec fn hands_upto(ps: Seq<PlayerView>, k: int) -> Multiset<Card>
    decreases k,
{
    if k <= 0 || ps.len() == 0 {
        Multiset::empty()
    } else {
        hands_upto(ps, k - 1).add(ps[k - 1].hand.to_multiset())
    }
}

pub open spec fn all_hands(ps: Seq<PlayerView>) -> Multiset<Card> {
    hands_upto(ps, ps.len() as int)
}

pub proof fn lemma_chips_update(ps: Seq<PlayerView>, j: int, q: PlayerView, k: int)
    requires
        0 <= j < ps.len(),
        k <= ps.len(),
    ensures
        chips_upto(ps.update(j, q), k) == chips_upto(ps, k) + if j < k {
            q.chips - ps[j].chips
        } else {
            0
        },
    decreases k,
{
    if k > 0 {
        lemma_chips_update(ps, j, q, k - 1);
    }
}

pub proof fn lemma_chips_le_total(ps: Seq<PlayerView>, j: int, k: int)
    requires
        0 <= j < k <= ps.len(),
    ensures
        ps[j].chips <= chips_upto(ps, k),
        chips_upto(ps, k) >= 0,
    decreases k,
{
    lemma_chips_nonneg(ps, k - 1);
    if j < k - 1 {
        lemma_chips_le_total(ps, j, k - 1);
    }
}

pub proof fn lemma_chips_nonneg(ps: Seq<PlayerView>, k: int)
    ensures
        chips_upto(ps, k) >= 0,
    decreases k,
{
    if k > 0 {
        lemma_chips_nonneg(ps, k - 1);
    }
}

/// Sums over seats depend only on the chips of those seats.
pub proof fn lemma_chips_same(ps: Seq<PlayerView>, qs: Seq<PlayerView>, k: int)
    requires
        k <= ps.len(),
        ps.len() == qs.len(),
        forall|i: int| 0 <= i < k ==> #[trigger] ps[i].chips == qs[i].chips,
    ensures
        chips_upto(ps, k) == chips_upto(qs, k),
    decreases k,
{
    if k > 0 {
        lemma_chips_same(ps, qs, k - 1);
    }
}

pub proof fn lemma_scan_same(ps: Seq<PlayerView>, qs: Seq<PlayerView>, base: int, k: int)
    requires
        ps.len() == qs.len(),
        forall|i: int| 0 <= i < ps.len() ==> #[trigger] ps[i].active() == qs[i].active(),
    ensures
        seat_scan(ps, base, k) == seat_scan(qs, base, k),
    decreases ps.len() + 1 - k,
{
    if !(k > ps.len() || k < 0 || ps.len() == 0) {
        lemma_scan_same(ps, qs, base, k + 1);
    }
}

pub proof fn lemma_hands_push(ps: Seq<PlayerView>, j: int, c: Card, k: int)
    requires
        0 <= j < ps.len(),
        k <= ps.len(),
    ensures
        hands_upto(ps.update(j, PlayerView { hand: ps[j].hand.push(c), ..ps[j] }), k) == if j
            < k {
            hands_upto(ps, k).insert(c)
        } else {
            hands_upto(ps, k)
        },
    decreases k,
{
    broadcast use vstd::seq_lib::group_to_multiset_ensures;

    let qs = ps.update(j, PlayerView { hand: ps[j].hand.push(c), ..ps[j] });
    if k > 0 {
        lemma_hands_push(ps, j, c, k - 1);
        if j == k - 1 {
            assert(hands_upto(qs, k) =~= hands_upto(ps, k).insert(c));
        } else if j < k - 1 {
            assert(hands_upto(qs, k) =~= hands_upto(ps, k).insert(c));
        }
    }
}

pub proof fn lemma_seat_scan_range(ps: Seq<PlayerView>, base: int, k: int)
    requires
        0 <= base < ps.len(),
    ensures
        0 <= seat_scan(ps, base, k) < ps.len(),
    decreases ps.len() + 1 - k,
{
    if !(k > ps.len() || k < 0 || ps.len() == 0) {
        lemma_seat_scan_range(ps, base, k + 1);
    }
}

// ---- the invariant is kept, and no chip is made or lost ----

pub proof fn lemma_commit_wf(v: GameView, i: int, amount: int)
    requires
        v.wf(),
        v.state != GameState::Finished,
        0 <= i < v.players.len(),
        0 <= amount <= v.players[i].chips,
    ensures
        commit(v, i, amount).wf(),
        chips_in_play(commit(v, i, amount)) == chips_in_play(v),
{
    let w = commit(v, i, amount);
    let n = v.players.len() as int;
    lemma_chips_le_total(v.players, i, n);
    lemma_chips_update(v.players, i, w.players[i], n);
    assert forall|j: int| 0 <= j < n && #[trigger] w.players[j].current_bet > 0 implies w.round_bets.contains_key(j as usize) by {
        if j != i {
            assert(w.players[j] == v.players[j]);
        }
    }
    assert forall|j: int| 0 <= j < n implies #[trigger] w.players[j].current_bet <= w.pot by {
        if j != i {
            assert(w.players[j] == v.players[j]);
        }
    }
    assert forall|j: usize| #[trigger] w.round_bets.contains_key(j) implies (j as int) < n
        && w.round_bets[j] == w.players[j as int].current_bet by {
        if j as int != i {
            assert(v.round_bets.contains_key(j));
            assert(w.players[j as int] == v.players[j as int]);
        }
    }
}

/// Changing flags of one seat, and nothing else of it, keeps the invariant.
pub proof fn lemma_flag_wf(v: GameView, i: int, q: PlayerView)
    requires
        v.wf(),
        v.state != GameState::Finished,
        0 <= i < v.players.len(),
        q.chips == v.players[i].chips,
        q.current_bet == v.players[i].current_bet,
    ensures
        (GameView { players: v.players.update(i, q), ..v }).wf(),
        chips_in_play(GameView { players: v.players.update(i, q), ..v }) == chips_in_play(v),
{
    let w = GameView { players: v.players.update(i, q), ..v };
    lemma_chips_update(v.players, i, q, v.players.len() as int);
    assert forall|j: int| 0 <= j < v.players.len() && #[trigger] w.players[j].current_bet > 0 implies w.round_bets.contains_key(j as usize) by {
        assert(w.players[j].current_bet == v.players[j].current_bet);
    }
    assert forall|j: int| 0 <= j < v.players.len() implies #[trigger] w.players[j].current_bet <= w.pot by {
        assert(w.players[j].current_bet == v.players[j].current_bet);
    }
    assert forall|j: usize| #[trigger] w.round_bets.contains_key(j) implies (j as int)
        < v.players.len() && w.round_bets[j] == w.players[j as int].current_bet by {
        assert(w.players[j as int].current_bet == v.players[j as int].current_bet);
    }
}

pub proof fn lemma_bet_applied_wf(v: GameView, action: PlayerAction)
    requires
        v.wf(),
        rejection(v, v.players[v.current as int].id, action) is None,
    ensures
        bet_applied(v, action).wf(),
        chips_in_play(bet_applied(v, action)) == chips_in_play(v),
{
    let i = v.current as int;
    let p = v.players[i];
    match action {
        PlayerAction::Fold => {
            lemma_flag_wf(v, i, PlayerView { is_folded: true, ..p });
        },
        PlayerAction::Check => {
            let w = bet_applied(v, action);
            assert forall|j: usize| #[trigger] w.round_bets.contains_key(j) implies (j as int)
                < v.players.len() && w.round_bets[j] == w.players[j as int].current_bet by {
                if j as int != i {
                    assert(v.round_bets.contains_key(j));
                }
            }
        },
        PlayerAction::Call => {
            let amount = if to_call(v, p) < p.chips {
                to_call(v, p)
            } else {
                p.chips as int
            };
            lemma_commit_wf(v, i, amount);
            let w = commit(v, i, amount);
            lemma_flag_wf(w, i, PlayerView { is_all_in: true, ..w.players[i] });
        },
        PlayerAction::Raise(amount) => {
            lemma_commit_wf(v, i, to_call(v, p) + amount);
        },
        PlayerAction::AllIn => {
            lemma_commit_wf(v, i, p.chips as int);
            let w = commit(v, i, p.chips as int);
            lemma_flag_wf(w, i, PlayerView { is_all_in: true, ..w.players[i] });
        },
    }
}

pub proof fn lemma_turn_passed_wf(v: GameView)
    requires
        v.wf(),
    ensures
        turn_passed(v).wf(),
        chips_in_play(turn_passed(v)) == chips_in_play(v),
{
    lemma_seat_scan_range(v.players, v.current as int, 1);
}

pub proof fn lemma_bets_cleared_wf(v: GameView)
    requires
        v.wf(),
    ensures
        bets_cleared(v).wf(),
        chips_in_play(bets_cleared(v)) == chips_in_play(v),
        forall|i: int|
            0 <= i < v.players.len() ==> #[trigger] bets_cleared(v).players[i].active()
                == v.players[i].active(),
{
    let c = bets_cleared(v);
    lemma_chips_same(v.players, c.players, v.players.len() as int);
}

/// What the first `k` seats take from the pot.
pub open spec fn payouts_upto(v: GameView, k: int) -> int
    decreases k,
{
    if k <= 0 {
        0
    } else {
        payouts_upto(v, k - 1) + payout(v, k - 1)
    }
}

proof fn lemma_payouts_upto(v: GameView, k: int)
    requires
        winner_count(v) > 0,
        k <= v.players.len(),
    ensures
        payouts_upto(v, k) == winners_upto(v, k) * (v.pot as int / winner_count(v) as int) + if (
        winners_upto(v, k) as int) < v.pot as int % winner_count(v) as int {
            winners_upto(v, k) as int
        } else {
            v.pot as int % winner_count(v) as int
        },
    decreases k,
{
    let w = winner_count(v) as int;
    let share = v.pot as int / w;
    let r = v.pot as int % w;
    if k > 0 {
        lemma_payouts_upto(v, k - 1);
        let c = winners_upto(v, k - 1) as int;
        assert((c + 1) * share == c * share + share) by (nonlinear_arith);
        if is_winner(v, k - 1) {
            assert(winners_upto(v, k) == c + 1);
            assert(payout(v, k - 1) == share + if c < r {
                1int
            } else {
                0int
            });
        } else {
            assert(winners_upto(v, k) == c);
            assert(payout(v, k - 1) == 0);
        }
    } else {
        assert(winners_upto(v, k) == 0);
        assert(0 * share == 0);
        assert(payouts_upto(v, k) == 0);
    }
}

pub proof fn lemma_winners_upto_le(v: GameView, k: int)
    ensures
        winners_upto(v, k) <= if k < 0 {
            0
        } else {
            k
        },
    decreases k,
{
    if k > 0 {
        lemma_winners_upto_le(v, k - 1);
    }
}

/// The pot is paid out in full when some seat wins.
pub proof fn lemma_payouts_total(v: GameView)
    requires
        winner_count(v) > 0,
    ensures
        payouts_upto(v, v.players.len() as int) == v.pot,
{
    let w = winner_count(v) as int;
    lemma_payouts_upto(v, v.players.len() as int);
    vstd::arithmetic::div_mod::lemma_fundamental_div_mod(v.pot as int, w);
    assert(w * (v.pot as int / w) == (v.pot as int / w) * w) by (nonlinear_arith);
}

proof fn lemma_showdown_chips(v: GameView, k: int)
    requires
        contender_count(v) > 0,
        winner_count(v) > 0,
        chips_in_play(v) <= u32::MAX,
        0 <= k <= v.players.len(),
    ensures
        chips_upto(showdown(v).players, k) == chips_upto(v.players, k) + payouts_upto(v, k),
    decreases k,
{
    if k > 0 {
        lemma_showdown_chips(v, k - 1);
        lemma_chips_le_total(v.players, k - 1, v.players.len() as int);
        lemma_payout_le_pot(v, k - 1);
    }
}

pub proof fn lemma_payout_le_pot(v: GameView, i: int)
    requires
        winner_count(v) > 0,
    ensures
        0 <= payout(v, i) <= v.pot,
{
    let w = winner_count(v) as int;
    let share = v.pot as int / w;
    let r = v.pot as int % w;
    vstd::arithmetic::div_mod::lemma_fundamental_div_mod(v.pot as int, w);
    assert(0 <= share <= share * w) by (nonlinear_arith)
        requires
            w >= 1,
            share == v.pot as int / w,
            v.pot >= 0,
    ;
}

/// Among the first `k` seats some contender is at least as strong as all the
/// others.
proof fn lemma_best_exists(v: GameView, k: int) -> (b: int)
    requires
        contenders_upto(v, k) > 0,
    ensures
        0 <= b < k,
        contender(v, b),
        forall|j: int| 0 <= j < k && #[trigger] contender(v, j) ==> eval_cmp(seat_eval(v, b), seat_eval(v, j)) >= 0,
    decreases k,
{
    if contenders_upto(v, k - 1) == 0 {
        assert(contender(v, k - 1));
        lemma_eval_cmp_refl(seat_eval(v, k - 1));
        assert forall|j: int| 0 <= j < k && #[trigger] contender(v, j) implies eval_cmp(seat_eval(v, k - 1), seat_eval(v, j)) >= 0 by {
            if j < k - 1 {
                lemma_contenders_none(v, k - 1, j);
            }
        }
        k - 1
    } else {
        let b0 = lemma_best_exists(v, k - 1);
        if contender(v, k - 1) && eval_cmp(seat_eval(v, k - 1), seat_eval(v, b0)) > 0 {
            assert forall|j: int| 0 <= j < k && #[trigger] contender(v, j) implies eval_cmp(seat_eval(v, k - 1), seat_eval(v, j)) >= 0 by {
                if j < k - 1 {
                    lemma_eval_cmp_trans(seat_eval(v, k - 1), seat_eval(v, b0), seat_eval(v, j));
                } else {
                    lemma_eval_cmp_refl(seat_eval(v, k - 1));
                }
            }
            k - 1
        } else {
            if contender(v, k - 1) {
                lemma_eval_cmp_antisym(seat_eval(v, k - 1), seat_eval(v, b0));
            }
            b0
        }
    }
}

pub proof fn lemma_contenders_none(v: GameView, k: int, j: int)
    requires
        contenders_upto(v, k) == 0,
        0 <= j < k,
    ensures
        !contender(v, j),
    decreases k,
{
    if j < k - 1 {
        lemma_contenders_none(v, k - 1, j);
    }
}

proof fn lemma_winners_upto_pos(v: GameView, k: int, b: int)
    requires
        0 <= b < k,
        is_winner(v, b),
    ensures
        winners_upto(v, k) > 0,
    decreases k,
{
    if b < k - 1 {
        lemma_winners_upto_pos(v, k - 1, b);
    }
}

/// With a contender left, some seat wins.
pub proof fn lemma_winner_exists(v: GameView)
    requires
        contender_count(v) > 0,
    ensures
        winner_count(v) > 0,
{
    let b = lemma_best_exists(v, v.players.len() as int);
    lemma_winners_upto_pos(v, v.players.len() as int, b);
}

/// Settling the hand moves the pot onto the winners' stacks.
pub proof fn lemma_showdown_conserves(v: GameView)
    requires
        chips_in_play(v) <= u32::MAX,
    ensures
        chips_in_play(showdown(v)) == chips_in_play(v),
        showdown(v).players.len() == v.players.len(),
        forall|i: int|
            0 <= i < v.players.len() ==> (#[trigger] showdown(v).players[i]).current_bet
                == v.players[i].current_bet,
{
    if contender_count(v) > 0 {
        lemma_winner_exists(v);
        lemma_payouts_total(v);
        lemma_showdown_chips(v, v.players.len() as int);
    }
}

pub proof fn lemma_street_advanced_wf(v: GameView)
    requires
        v.wf(),
        v.state.is_betting_street(),
    ensures
        street_advanced(v).wf(),
        chips_in_play(street_advanced(v)) == chips_in_play(v),
{
    let c = bets_cleared(v);
    lemma_bets_cleared_wf(v);
    lemma_seat_scan_range(c.players, c.dealer as int, 1);
    if v.state == GameState::River {
        let s = GameView { state: GameState::Showdown, ..c };
        lemma_showdown_conserves(s);
        let w = showdown(s);
        assert forall|i: int| 0 <= i < w.players.len() implies #[trigger] w.players[i].current_bet <= w.pot by {
            assert(w.players[i].current_bet == s.players[i].current_bet);
        }
        assert forall|i: int| 0 <= i < w.players.len() && #[trigger] w.players[i].current_bet > 0 implies w.round_bets.contains_key(i as usize) by {
            assert(w.players[i].current_bet == s.players[i].current_bet);
        }
        if contender_count(s) == 0 {
            assert forall|i: int| 0 <= i < w.players.len() implies #[trigger] w.players[i].is_folded by {
                lemma_contenders_none(s, s.players.len() as int, i);
            }
        }
    }
}

pub proof fn lemma_hands_empty(ps: Seq<PlayerView>, k: int)
    requires
        forall|i: int| 0 <= i < ps.len() ==> (#[trigger] ps[i]).hand.len() == 0,
        k <= ps.len(),
    ensures
        hands_upto(ps, k) == Multiset::<Card>::empty(),
    decreases k,
{
    broadcast use vstd::seq_lib::group_to_multiset_ensures;

    if k > 0 {
        lemma_hands_empty(ps, k - 1);
        assert(ps[k - 1].hand =~= Seq::<Card>::empty());
        assert(hands_upto(ps, k) =~= Multiset::<Card>::empty());
    }
}

pub proof fn lemma_hands_same(ps: Seq<PlayerView>, qs: Seq<PlayerView>, k: int)
    requires
        ps.len() == qs.len(),
        k <= ps.len(),
        forall|i: int| 0 <= i < ps.len() ==> #[trigger] ps[i].hand == qs[i].hand,
    ensures
        hands_upto(ps, k) == hands_upto(qs, k),
    decreases k,
{
    if k > 0 {
        lemma_hands_same(ps, qs, k - 1);
    }
}

pub proof fn lemma_views_update(ps: Seq<Player>, j: int, p: Player)
    requires
        0 <= j < ps.len(),
    ensures
        player_views(ps.update(j, p)) == player_views(ps).update(j, p@),
{
    assert(player_views(ps.update(j, p)) =~= player_views(ps).update(j, p@));
}

pub proof fn lemma_player_views(ps: Seq<Player>)
    ensures
        player_views(ps).len() == ps.len(),
        forall|j: int| 0 <= j < ps.len() ==> #[trigger] player_views(ps)[j] == ps[j]@,
{
}

} // verus!
