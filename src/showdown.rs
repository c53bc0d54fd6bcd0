//! Settling a hand: paying the pot to the best hands and reporting them.
use vstd::prelude::*;

use crate::cards::Card;
use crate::hand::{
    eval_cmp, lemma_eval_cmp_antisym, lemma_eval_cmp_refl, lemma_eval_cmp_trans,
    lemma_lex_cmp_zero, EvalView, HandEvaluation, HandRank,
};
use crate::models::{Game, GameState, Player, PlayerAction};
use crate::table::{
    bet_applied, bets_cleared, chips_in_play, contender, contender_count, contenders_upto,
    is_winner, lemma_chips_le_total, lemma_payout_le_pot, lemma_player_views, lemma_views_update,
    lemma_winner_exists, lemma_winners_upto_le, payout, player_views, seat_eval, showdown,
    street_complete, turn_passed, winner_count, winners_upto, GameView, MAX_PLAYERS,
};

verus! {

/// A player and their hole cards.
#[derive(Clone, Debug)]
pub struct PlayerHand {
    pub seat: usize,
    pub id: String,
    pub name: String,
    pub hand: Vec<Card>,
}

/// A contender's hand at showdown.
#[derive(Clone, Debug)]
pub struct HandReport {
    pub seat: usize,
    pub id: String,
    pub name: String,
    pub hand: Vec<Card>,
    pub best_hand: Vec<Card>,
    pub hand_rank: HandRank,
}

/// How a hand ended.
#[derive(Clone, Debug)]
pub enum ShowdownResult {
    /// Everyone else folded.
    SingleWinner { winner: PlayerHand, pot_won: u32 },
    /// Hands were compared.
    Showdown { pot_won: u32, winners: Vec<HandReport>, all_hands: Vec<HandReport> },
}

/// `rep` reports seat `i` of table `v` with evaluation `e`.
pub open spec fn reports_seat(rep: HandReport, v: GameView, i: int, e: EvalView) -> bool {
    &&& rep.id@ == v.players[i].id
    &&& rep.name@ == v.players[i].name
    &&& rep.hand@ == v.players[i].hand
    &&& rep.best_hand@ == e.2
    &&& rep.hand_rank == e.0
}

/// The winners' reports, one per winner in seat order.
pub open spec fn winners_reported(v: GameView, ws: Seq<HandReport>) -> bool {
    &&& ws.len() == winner_count(v)
    &&& forall|k: int|
        0 <= k < ws.len() ==> is_winner(v, (#[trigger] ws[k]).seat as int) && winners_upto(
            v,
            ws[k].seat as int,
        ) == k && reports_seat(ws[k], v, ws[k].seat as int, seat_eval(v, ws[k].seat as int))
}

/// Seat `a` ranks before seat `b`: its hand is stronger, or as strong and it
/// sits earlier.
pub open spec fn ranked_before(v: GameView, a: int, b: int) -> bool {
    let c = eval_cmp(seat_eval(v, a), seat_eval(v, b));
    c > 0 || (c == 0 && a < b)
}

/// Every contender's report, strongest hand first, equal hands in seat order.
pub open spec fn hands_reported(v: GameView, hs: Seq<HandReport>) -> bool {
    &&& hs.len() == contender_count(v)
    &&& forall|k: int|
        0 <= k < hs.len() ==> contender(v, (#[trigger] hs[k]).seat as int) && reports_seat(
            hs[k],
            v,
            hs[k].seat as int,
            seat_eval(v, hs[k].seat as int),
        )
    &&& forall|k: int, l: int|
        0 <= k < l < hs.len() ==> ranked_before(
            v,
            (#[trigger] hs[k]).seat as int,
            (#[trigger] hs[l]).seat as int,
        )
}

/// What the settlement of table `v` reports: the lone contender, or the
/// winners in seat order and every contender's hand by strength.
pub open spec fn showdown_reported(v: GameView, r: Option<ShowdownResult>) -> bool {
    match r {
        None => contender_count(v) == 0,
        Some(ShowdownResult::SingleWinner { winner, pot_won }) => {
            &&& contender_count(v) == 1
            &&& pot_won == v.pot
            &&& contender(v, winner.seat as int)
            &&& winner.id@ == v.players[winner.seat as int].id
            &&& winner.name@ == v.players[winner.seat as int].name
            &&& winner.hand@ == v.players[winner.seat as int].hand
        },
        Some(ShowdownResult::Showdown { pot_won, winners, all_hands }) => {
            &&& contender_count(v) >= 2
            &&& pot_won == v.pot
            &&& winners_reported(v, winners@)
            &&& hands_reported(v, all_hands@)
        },
    }
}

/// The table as the showdown begins when the river closes on table `v`.
pub open spec fn showdown_start(v: GameView) -> GameView {
    GameView { state: GameState::Showdown, ..bets_cleared(v) }
}

/// What closing the street of `v` reports: the settlement when the river
/// closes, nothing otherwise.
pub open spec fn advance_reported(v: GameView, r: Option<ShowdownResult>) -> bool {
    if v.state == GameState::River {
        showdown_reported(showdown_start(v), r)
    } else {
        r is None
    }
}

/// What a legal action on `v` reports.
pub open spec fn action_reported(v: GameView, action: PlayerAction, r: Option<ShowdownResult>) -> bool {
    let w = turn_passed(bet_applied(v, action));
    if street_complete(w) {
        advance_reported(w, r)
    } else {
        r is None
    }
}

pub open spec fn eval_views(es: Seq<HandEvaluation>) -> Seq<EvalView> {
    es.map_values(|e: HandEvaluation| e@)
}

/// Entry `a` of `es` ranks before entry `b`: stronger, or as strong and
/// earlier.
pub open spec fn index_ranked(es: Seq<EvalView>, a: int, b: int) -> bool {
    let c = eval_cmp(es[a], es[b]);
    c > 0 || (c == 0 && a < b)
}

/// Where entry `x` goes among the ranked entries `order`: after every entry
/// at least as strong.
fn insertion_point(evals: &Vec<HandEvaluation>, order: &Vec<usize>, x: usize) -> (p: usize)
    requires
        x < evals@.len(),
        forall|k: int| 0 <= k < order@.len() ==> #[trigger] order@[k] < evals@.len(),
    ensures
        p <= order@.len(),
        forall|q: int| 0 <= q < p ==> eval_cmp(evals@[#[trigger] order@[q] as int]@, evals@[x as int]@) >= 0,
        p < order@.len() ==> eval_cmp(evals@[order@[p as int] as int]@, evals@[x as int]@) < 0,
{
    let mut p: usize = 0;
    while p < order.len()
        invariant
            x < evals@.len(),
            forall|k: int| 0 <= k < order@.len() ==> #[trigger] order@[k] < evals@.len(),
            p <= order@.len(),
            forall|q: int| 0 <= q < p ==> eval_cmp(evals@[#[trigger] order@[q] as int]@, evals@[x as int]@) >= 0,
        decreases order@.len() - p,
    {
        match evals[order[p]].cmp(&evals[x]) {
            std::cmp::Ordering::Less => {
                return p;
            },
            _ => {},
        }
        p += 1;
    }
    p
}

/// The entries of `evals` by strength, strongest first, equal ones in their
/// order in `evals` (an insertion sort, which keeps ties stable).
fn rank_order(evals: &Vec<HandEvaluation>) -> (order: Vec<usize>)
    ensures
        order@.len() == evals@.len(),
        forall|k: int| 0 <= k < order@.len() ==> #[trigger] order@[k] < evals@.len(),
        forall|k: int, l: int|
            0 <= k < l < order@.len() ==> index_ranked(
                eval_views(evals@),
                #[trigger] order@[k] as int,
                #[trigger] order@[l] as int,
            ),
{
    let ghost es = eval_views(evals@);
    let mut order: Vec<usize> = Vec::new();
    let mut x: usize = 0;
    while x < evals.len()
        invariant
            es == eval_views(evals@),
            x <= evals@.len(),
            order@.len() == x,
            forall|k: int| 0 <= k < order@.len() ==> #[trigger] order@[k] < x,
            forall|k: int, l: int|
                0 <= k < l < order@.len() ==> index_ranked(
                    es,
                    #[trigger] order@[k] as int,
                    #[trigger] order@[l] as int,
                ),
        decreases evals@.len() - x,
    {
        let p = insertion_point(evals, &order, x);
        let ghost old_order = order@;
        order.insert(p, x);
        proof {
            let n = old_order.len() as int;
            assert forall|j: int| 0 <= j < order@.len() implies order@[j] == if j < p {
                old_order[j]
            } else if j == p {
                x
            } else {
                old_order[j - 1]
            } by {}
            assert forall|k: int, l: int|
                0 <= k < l < order@.len() implies index_ranked(
                es,
                #[trigger] order@[k] as int,
                #[trigger] order@[l] as int,
            ) by {
                if l < p {
                    assert(index_ranked(es, old_order[k] as int, old_order[l] as int));
                } else if k > p {
                    assert(index_ranked(es, old_order[k - 1] as int, old_order[l - 1] as int));
                } else if k < p && l == p {
                    assert(eval_cmp(es[old_order[k] as int], es[x as int]) >= 0);
                } else if k < p && l > p {
                    assert(index_ranked(es, old_order[k] as int, old_order[l - 1] as int));
                } else {
                    // k == p, l > p: the new entry is stronger than everything after it
                    let a = old_order[p as int] as int;
                    let b = old_order[l - 1] as int;
                    lemma_eval_cmp_antisym(es[a], es[x as int]);
                    if l - 1 > p {
                        assert(index_ranked(es, a, b));
                        lemma_eval_cmp_trans(es[x as int], es[a], es[b]);
                    }
                }
            }
        }
        x += 1;
    }
    order
}

/// A copy of a report.
fn copy_report(r: &HandReport) -> (q: HandReport)
    ensures
        q.seat == r.seat,
        q.id@ == r.id@,
        q.name@ == r.name@,
        q.hand@ == r.hand@,
        q.best_hand@ == r.best_hand@,
        q.hand_rank == r.hand_rank,
{
    HandReport {
        seat: r.seat,
        id: r.id.clone(),
        name: r.name.clone(),
        hand: copy_cards(&r.hand),
        best_hand: copy_cards(&r.best_hand),
        hand_rank: r.hand_rank,
    }
}

/// Seats listed in the order of the contenders before them sit in
/// increasing order.
proof fn lemma_seats_increasing(v: GameView, seats: Seq<usize>, a: int, b: int)
    requires
        forall|y: int|
            0 <= y < seats.len() ==> contender(v, #[trigger] seats[y] as int) && contenders_upto(
                v,
                seats[y] as int,
            ) == y,
        0 <= a < b < seats.len(),
    ensures
        seats[a] < seats[b],
{
    let sa = seats[a] as int;
    let sb = seats[b] as int;
    if sb <= sa {
        lemma_contenders_mono(v, sb, sa);
    }
}

/// A copy of the cards.
fn copy_cards(a: &Vec<Card>) -> (r: Vec<Card>)
    ensures
        r@ == a@,
{
    let mut r: Vec<Card> = Vec::new();
    let mut i: usize = 0;
    while i < a.len()
        invariant
            i <= a@.len(),
            r@ == a@.subrange(0, i as int),
        decreases a@.len() - i,
    {
        r.push(a[i]);
        i += 1;
        assert(r@ =~= a@.subrange(0, i as int));
    }
    assert(a@.subrange(0, a@.len() as int) =~= a@);
    r
}

/// The cards of `a` followed by those of `b`.
fn joined(a: &Vec<Card>, b: &Vec<Card>) -> (r: Vec<Card>)
    ensures
        r@ == a@ + b@,
{
    let mut r = copy_cards(a);
    let mut i: usize = 0;
    while i < b.len()
        invariant
            i <= b@.len(),
            r@ == a@ + b@.subrange(0, i as int),
        decreases b@.len() - i,
    {
        r.push(b[i]);
        i += 1;
        assert(r@ =~= a@ + b@.subrange(0, i as int));
    }
    assert(b@.subrange(0, b@.len() as int) =~= b@);
    r
}

proof fn lemma_contenders_mono(v: GameView, a: int, b: int)
    requires
        a <= b,
    ensures
        contenders_upto(v, a) <= contenders_upto(v, b),
        0 <= a < b && contender(v, a) ==> contenders_upto(v, a) < contenders_upto(v, b),
    decreases b - a,
{
    if a < b {
        lemma_contenders_mono(v, a, b - 1);
        if 0 <= a && a == b - 1 && contender(v, a) {
        }
    }
}

/// With a single contender, every contender is that one.
proof fn lemma_sole_contender(v: GameView, w: int, j: int)
    requires
        contender_count(v) == 1,
        contender(v, w),
        contender(v, j),
    ensures
        j == w,
{
    let n = v.players.len() as int;
    if j != w {
        let lo = if j < w { j } else { w };
        let hi = if j < w { w } else { j };
        lemma_contenders_mono(v, lo, hi);
        lemma_contenders_mono(v, hi, n);
        lemma_contenders_mono(v, 0, lo);
    }
}

/// The `x`-th contender sits at `seats[x]`.
proof fn lemma_seat_index(v: GameView, seats: Seq<usize>, i: int, x: int)
    requires
        seats.len() == contender_count(v),
        forall|y: int|
            0 <= y < seats.len() ==> contender(v, #[trigger] seats[y] as int) && contenders_upto(
                v,
                seats[y] as int,
            ) == y,
        contender(v, i),
        x == contenders_upto(v, i),
    ensures
        0 <= x < seats.len(),
        seats[x] == i,
{
    lemma_contenders_mono(v, i, v.players.len() as int);
    lemma_contenders_mono(v, 0, i);
    let s = seats[x] as int;
    if s < i {
        lemma_contenders_mono(v, s, i);
    } else if s > i {
        lemma_contenders_mono(v, i, s);
    }
}

/// Against the strongest evaluation `es[b]`, a contender wins exactly when it
/// compares equal.
proof fn lemma_winner_iff(v: GameView, seats: Seq<usize>, es: Seq<EvalView>, b: int, x: int)
    requires
        seats.len() == contender_count(v) == es.len(),
        forall|y: int|
            0 <= y < seats.len() ==> contender(v, #[trigger] seats[y] as int) && contenders_upto(
                v,
                seats[y] as int,
            ) == y,
        forall|y: int| 0 <= y < seats.len() ==> #[trigger] es[y] == seat_eval(v, seats[y] as int),
        forall|y: int| 0 <= y < seats.len() ==> eval_cmp(es[b], #[trigger] es[y]) >= 0,
        0 <= b < seats.len(),
        0 <= x < seats.len(),
    ensures
        is_winner(v, seats[x] as int) <==> eval_cmp(es[x], es[b]) == 0,
{
    let i = seats[x] as int;
    if eval_cmp(es[x], es[b]) == 0 {
        lemma_lex_cmp_zero(es[x].1, es[b].1);
        assert forall|j: int| #[trigger] contender(v, j) implies eval_cmp(
            seat_eval(v, i),
            seat_eval(v, j),
        ) >= 0 by {
            let y = contenders_upto(v, j) as int;
            lemma_seat_index(v, seats, j, y);
            assert(es[y] == seat_eval(v, j));
        }
    }
    if is_winner(v, i) {
        let sb = seats[b] as int;
        assert(contender(v, sb));
        assert(eval_cmp(seat_eval(v, i), seat_eval(v, sb)) >= 0);
        lemma_eval_cmp_antisym(es[x], es[b]);
    }
}

/// What clients are shown of a table.
#[derive(Clone, Debug)]
pub struct GameSnapshot {
    pub game_id: String,
    pub state: GameState,
    pub pot: u32,
    pub current_bet: u32,
    pub current_player: Option<String>,
    pub community_cards: Vec<Card>,
    pub players: Vec<Player>,
}

/// With every seat folded there is no contender.
proof fn lemma_all_folded(v: GameView, k: int)
    requires
        k <= v.players.len(),
        forall|i: int| 0 <= i < v.players.len() ==> #[trigger] v.players[i].is_folded,
    ensures
        contenders_upto(v, k) == 0,
    decreases k,
{
    if k > 0 {
        lemma_all_folded(v, k - 1);
    }
}

impl Game {
    /// How many seats have not folded.
    fn count_contenders(&self) -> (r: usize)
        requires
            self@.players.len() <= MAX_PLAYERS,
        ensures
            r == contender_count(self@),
    {
        let n = self.players.len();
        let mut c: usize = 0;
        let mut i: usize = 0;
        while i < n
            invariant
                n == self@.players.len() <= MAX_PLAYERS,
                i <= n,
                c == contenders_upto(self@, i as int),
                c <= i,
            decreases n - i,
        {
            assert(self@.players[i as int] == self.players@[i as int]@);
            if !self.players[i].is_folded {
                c += 1;
            }
            i += 1;
        }
        c
    }

    /// Pays each winner its share of the pot, empties the pot and ends the
    /// hand.
    fn pay_out(&mut self, is_win: &Vec<bool>)
        requires
            old(self)@.players.len() <= MAX_PLAYERS,
            chips_in_play(old(self)@) <= u32::MAX,
            contender_count(old(self)@) > 0,
            is_win@.len() == old(self)@.players.len(),
            forall|i: int| 0 <= i < is_win@.len() ==> is_win@[i] == is_winner(old(self)@, i),
        ensures
            final(self)@ == showdown(old(self)@),
    {
        let ghost v = self@;
        let n = self.players.len();
        proof {
            lemma_winner_exists(v);
        }
        let mut w: u32 = 0;
        let mut i: usize = 0;
        while i < n
            invariant
                n == v.players.len() <= MAX_PLAYERS,
                is_win@.len() == n,
                forall|k: int| 0 <= k < n ==> is_win@[k] == is_winner(v, k),
                i <= n,
                w == winners_upto(v, i as int),
                w <= i,
            decreases n - i,
        {
            if is_win[i] {
                w += 1;
            }
            i += 1;
        }
        let share = self.pot / w;
        let rem = self.pot % w;
        let mut j: u32 = 0;
        i = 0;
        while i < n
            invariant
                n == v.players.len() == self@.players.len() <= MAX_PLAYERS,
                is_win@.len() == n,
                forall|k: int| 0 <= k < n ==> is_win@[k] == is_winner(v, k),
                winner_count(v) > 0,
                contender_count(v) > 0,
                w == winner_count(v),
                share == v.pot / w,
                rem == v.pot % w,
                chips_in_play(v) <= u32::MAX,
                i <= n,
                j == winners_upto(v, i as int),
                self@ == (GameView { players: self@.players, ..v }),
                forall|k: int|
                    0 <= k < i ==> #[trigger] self@.players[k] == showdown(v).players[k],
                forall|k: int| i <= k < n ==> #[trigger] self@.players[k] == v.players[k],
            decreases n - i,
        {
            if is_win[i] {
                let extra: u32 = if j < rem {
                    1
                } else {
                    0
                };
                proof {
                    lemma_chips_le_total(v.players, i as int, n as int);
                    lemma_payout_le_pot(v, i as int);
                    lemma_winners_upto_le(v, i as int);
                }
                assert(self@.players[i as int] == self.players@[i as int]@);
                let ghost before = self.players@;
                self.players[i].chips = self.players[i].chips + share + extra;
                proof {
                    lemma_views_update(before, i as int, self.players@[i as int]);
                }
                j += 1;
            } else {
                assert(payout(v, i as int) == 0);
            }
            i += 1;
        }
        self.pot = 0;
        self.state = GameState::Finished;
        assert(self@.players =~= showdown(v).players);
    }

    /// The outcome of the hand on the table as it stands: the lone contender,
    /// or every contender's best five of hole cards and board and the seats
    /// whose hands are best; with it, which seats win.
    fn showdown_report(&self) -> (r: (Option<ShowdownResult>, Vec<bool>))
        requires
            self@.players.len() <= MAX_PLAYERS,
            self@.community.len() == 5,
        ensures
            showdown_reported(self@, r.0),
            contender_count(self@) > 0 ==> r.1@.len() == self@.players.len(),
            forall|i: int| 0 <= i < r.1@.len() ==> r.1@[i] == is_winner(self@, i),
    {
        let ghost v = self@;
        let n = self.players.len();
        let pot_amount = self.pot;
        let count = self.count_contenders();
        if count == 0 {
            return (None, Vec::new());
        }
        if count == 1 {
            let mut is_win: Vec<bool> = Vec::new();
            let mut w: usize = 0;
            let mut i: usize = 0;
            while i < n
                invariant
                    n == v.players.len() == self@.players.len() <= MAX_PLAYERS,
                    self@ == v,
                    contender_count(v) == 1,
                    i <= n,
                    is_win@.len() == i,
                    forall|k: int| 0 <= k < i ==> is_win@[k] == is_winner(v, k),
                    w < n,
                    contenders_upto(v, i as int) > 0 ==> contender(v, w as int),
                decreases n - i,
            {
                assert(self@.players[i as int] == self.players@[i as int]@);
                let c = !self.players[i].is_folded;
                proof {
                    if c {
                        lemma_eval_cmp_refl(seat_eval(v, i as int));
                        assert forall|j: int| #[trigger] contender(v, j) implies eval_cmp(
                            seat_eval(v, i as int),
                            seat_eval(v, j),
                        ) >= 0 by {
                            lemma_sole_contender(v, i as int, j);
                        }
                    }
                }
                if c {
                    w = i;
                }
                is_win.push(c);
                i += 1;
            }
            assert(self@.players[w as int] == self.players@[w as int]@);
            let winner = PlayerHand {
                seat: w,
                id: self.players[w].id.clone(),
                name: self.players[w].name.clone(),
                hand: copy_cards(&self.players[w].hand),
            };
            assert(contender(v, w as int));
            return (Some(ShowdownResult::SingleWinner { winner, pot_won: pot_amount }), is_win);
        }
        // Every contender's best hand, in seat order.
        let mut seats: Vec<usize> = Vec::new();
        let mut evals: Vec<HandEvaluation> = Vec::new();
        let mut by_seat: Vec<HandReport> = Vec::new();
        let mut i: usize = 0;
        while i < n
            invariant
                n == v.players.len() == self@.players.len() <= MAX_PLAYERS,
                self@ == v,
                v.community.len() == 5,
                i <= n,
                seats@.len() == evals@.len() == by_seat@.len() == contenders_upto(v, i as int),
                forall|k: int|
                    0 <= k < seats@.len() ==> #[trigger] seats@[k] < i && contender(v, seats@[k] as int)
                        && contenders_upto(v, seats@[k] as int) == k,
                forall|k: int|
                    0 <= k < seats@.len() ==> (#[trigger] evals@[k])@ == seat_eval(v, seats@[k] as int),
                forall|k: int|
                    0 <= k < seats@.len() ==> (#[trigger] by_seat@[k]).seat == seats@[k]
                        && reports_seat(by_seat@[k], v, seats@[k] as int, seat_eval(v, seats@[k] as int)),
            decreases n - i,
        {
            assert(self@.players[i as int] == self.players@[i as int]@);
            if !self.players[i].is_folded {
                let cards = joined(&self.players[i].hand, &self.community_cards);
                let evaluation = self.evaluate_hand(cards);
                by_seat.push(
                    HandReport {
                        seat: i,
                        id: self.players[i].id.clone(),
                        name: self.players[i].name.clone(),
                        hand: copy_cards(&self.players[i].hand),
                        best_hand: copy_cards(&evaluation.cards),
                        hand_rank: evaluation.rank,
                    },
                );
                evals.push(evaluation);
                seats.push(i);
            }
            i += 1;
        }
        // The strongest of them.
        let mut b: usize = 0;
        let mut k: usize = 1;
        proof {
            lemma_eval_cmp_refl(evals@[0]@);
        }
        while k < evals.len()
            invariant
                evals@.len() == seats@.len() == count >= 2,
                1 <= k <= evals@.len(),
                b < k,
                forall|x: int|
                    0 <= x < seats@.len() ==> (#[trigger] evals@[x])@ == seat_eval(v, seats@[x] as int),
                forall|x: int| 0 <= x < k ==> eval_cmp(evals@[b as int]@, #[trigger] evals@[x]@) >= 0,
            decreases evals@.len() - k,
        {
            proof {
                lemma_eval_cmp_antisym(evals@[k as int]@, evals@[b as int]@);
            }
            match evals[k].cmp(&evals[b]) {
                std::cmp::Ordering::Greater => {
                    proof {
                        assert forall|x: int| 0 <= x < k + 1 implies eval_cmp(evals@[k as int]@, #[trigger] evals@[x]@) >= 0 by {
                            if x < k {
                                lemma_eval_cmp_trans(evals@[k as int]@, evals@[b as int]@, evals@[x]@);
                            } else {
                                lemma_eval_cmp_refl(evals@[k as int]@);
                            }
                        }
                    }
                    b = k;
                },
                _ => {},
            }
            k += 1;
        }
        // Which seats win, and their reports in seat order.
        let mut is_win: Vec<bool> = Vec::new();
        let mut winners: Vec<HandReport> = Vec::new();
        let mut x: usize = 0;
        i = 0;
        while i < n
            invariant
                n == v.players.len() == self@.players.len() <= MAX_PLAYERS,
                self@ == v,
                i <= n,
                x <= seats@.len(),
                seats@.len() == evals@.len() == contender_count(v),
                b < seats@.len(),
                x == contenders_upto(v, i as int),
                forall|y: int|
                    0 <= y < seats@.len() ==> contender(v, #[trigger] seats@[y] as int)
                        && contenders_upto(v, seats@[y] as int) == y,
                forall|y: int|
                    0 <= y < seats@.len() ==> (#[trigger] evals@[y])@ == seat_eval(v, seats@[y] as int),
                forall|y: int|
                    0 <= y < seats@.len() ==> eval_cmp(evals@[b as int]@, #[trigger] evals@[y]@) >= 0,
                is_win@.len() == i,
                forall|y: int| 0 <= y < i ==> is_win@[y] == is_winner(v, y),
                winners@.len() == winners_upto(v, i as int),
                forall|y: int|
                    0 <= y < winners@.len() ==> is_winner(v, (#[trigger] winners@[y]).seat as int)
                        && winners_upto(v, winners@[y].seat as int) == y && reports_seat(
                        winners@[y],
                        v,
                        winners@[y].seat as int,
                        seat_eval(v, winners@[y].seat as int),
                    ),
            decreases n - i,
        {
            assert(self@.players[i as int] == self.players@[i as int]@);
            let mut win = false;
            if !self.players[i].is_folded {
                proof {
                    lemma_seat_index(v, seats@, i as int, x as int);
                }
                let e = &evals[x];
                match e.cmp(&evals[b]) {
                    std::cmp::Ordering::Equal => {
                        win = true;
                    },
                    _ => {},
                }
                proof {
                    lemma_winner_iff(v, seats@, evals@.map_values(|h: HandEvaluation| h@), b as int, x as int);
                }
                if win {
                    winners.push(
                        HandReport {
                            seat: i,
                            id: self.players[i].id.clone(),
                            name: self.players[i].name.clone(),
                            hand: copy_cards(&self.players[i].hand),
                            best_hand: copy_cards(&e.cards),
                            hand_rank: e.rank,
                        },
                    );
                }
                assert(x < seats.len());
                x += 1;
            }
            is_win.push(win);
            i += 1;
        }
        // Every contender's report, by strength.
        let order = rank_order(&evals);
        let ghost es = eval_views(evals@);
        let mut all_hands: Vec<HandReport> = Vec::new();
        let mut k: usize = 0;
        while k < order.len()
            invariant
                es == eval_views(evals@),
                order@.len() == evals@.len() == seats@.len() == by_seat@.len() == contender_count(v),
                forall|y: int| 0 <= y < order@.len() ==> #[trigger] order@[y] < evals@.len(),
                forall|y: int|
                    0 <= y < seats@.len() ==> contender(v, #[trigger] seats@[y] as int)
                        && contenders_upto(v, seats@[y] as int) == y,
                forall|y: int|
                    0 <= y < seats@.len() ==> (#[trigger] evals@[y])@ == seat_eval(v, seats@[y] as int),
                forall|y: int|
                    0 <= y < seats@.len() ==> (#[trigger] by_seat@[y]).seat == seats@[y]
                        && reports_seat(by_seat@[y], v, seats@[y] as int, seat_eval(v, seats@[y] as int)),
                k <= order@.len(),
                all_hands@.len() == k,
                forall|y: int|
                    0 <= y < k ==> (#[trigger] all_hands@[y]).seat == seats@[order@[y] as int]
                        && reports_seat(
                        all_hands@[y],
                        v,
                        all_hands@[y].seat as int,
                        seat_eval(v, all_hands@[y].seat as int),
                    ),
            decreases order@.len() - k,
        {
            let r = copy_report(&by_seat[order[k]]);
            all_hands.push(r);
            k += 1;
        }
        proof {
            assert forall|y: int| 0 <= y < all_hands@.len() implies contender(
                v,
                (#[trigger] all_hands@[y]).seat as int,
            ) by {
                assert(contender(v, seats@[order@[y] as int] as int));
            }
            assert forall|y: int, z: int|
                0 <= y < z < all_hands@.len() implies ranked_before(
                v,
                (#[trigger] all_hands@[y]).seat as int,
                (#[trigger] all_hands@[z]).seat as int,
            ) by {
                let a = order@[y] as int;
                let b = order@[z] as int;
                assert(index_ranked(es, a, b));
                assert(es[a] == evals@[a]@);
                assert(es[b] == evals@[b]@);
                if a < b {
                    lemma_seats_increasing(v, seats@, a, b);
                }
            }
            assert(hands_reported(v, all_hands@));
        }
        let res = ShowdownResult::Showdown { pot_won: pot_amount, winners, all_hands };
        assert(showdown_reported(v, Some(res)));
        (Some(res), is_win)
    }

    /// Settles the hand at showdown. With one contender left it takes the
    /// pot; otherwise every contender's best five of hole cards and board are
    /// compared and the best hands split the pot, the odd chips going one by
    /// one to the winners in seat order.
    pub(crate) fn determine_winner(&mut self) -> (r: Option<ShowdownResult>)
        requires
            old(self)@.players.len() <= MAX_PLAYERS,
            chips_in_play(old(self)@) <= u32::MAX,
            old(self)@.community.len() == 5,
        ensures
            final(self)@ == showdown(old(self)@),
            showdown_reported(old(self)@, r),
    {
        let (result, is_win) = self.showdown_report();
        if self.count_contenders() == 0 {
            self.state = GameState::Finished;
        } else {
            self.pay_out(&is_win);
        }
        result
    }

    /// How the finished hand ended, or nothing while it is in play. The pot
    /// has been paid out by then, so the amount reported as won is 0.
    pub fn get_hand_result(&self) -> (r: Option<ShowdownResult>)
        requires
            self.wf(),
        ensures
            self.state != GameState::Finished ==> r is None,
            self.state == GameState::Finished ==> showdown_reported(self@, r),
            match r {
                Some(ShowdownResult::SingleWinner { pot_won, .. }) => pot_won == 0,
                Some(ShowdownResult::Showdown { pot_won, .. }) => pot_won == 0,
                None => true,
            },
    {
        match self.state {
            GameState::Finished => {
                proof {
                    if self@.pot != 0 {
                        lemma_all_folded(self@, self@.players.len() as int);
                    }
                }
                self.showdown_report().0
            },
            _ => None,
        }
    }

    /// The table as clients see it: every seat with its cards, the board, the
    /// pot and whose turn it is.
    pub fn get_game_state(&self) -> (r: GameSnapshot)
        ensures
            r.game_id@ == self@.id,
            r.state == self.state,
            r.pot == self.pot,
            r.current_bet == self.current_bet,
            match r.current_player {
                Some(id) => self@.current < self@.players.len() && id@
                    == self@.players[self@.current as int].id,
                None => self@.current >= self@.players.len(),
            },
            r.community_cards@ == self@.community,
            player_views(r.players@) == self@.players,
    {
        let n = self.players.len();
        let mut players: Vec<Player> = Vec::new();
        let mut i: usize = 0;
        while i < n
            invariant
                n == self@.players.len(),
                i <= n,
                player_views(players@) == self@.players.subrange(0, i as int),
            decreases n - i,
        {
            assert(self@.players[i as int] == self.players@[i as int]@);
            let p = &self.players[i];
            let q = Player {
                id: p.id.clone(),
                name: p.name.clone(),
                chips: p.chips,
                hand: copy_cards(&p.hand),
                current_bet: p.current_bet,
                is_folded: p.is_folded,
                is_all_in: p.is_all_in,
            };
            assert(q@ == self@.players[i as int]);
            let ghost before = players@;
            players.push(q);
            proof {
                lemma_player_views(before);
                lemma_player_views(players@);
                assert forall|j: int| 0 <= j < i implies #[trigger] players@[j]@ == self@.players[j] by {
                    assert(players@[j] == before[j]);
                    assert(player_views(before)[j] == self@.players.subrange(0, i as int)[j]);
                }
            }
            i += 1;
            assert(player_views(players@) =~= self@.players.subrange(0, i as int));
        }
        assert(self@.players.subrange(0, n as int) =~= self@.players);
        let current_player = if self.current_player_index < n {
            assert(self@.players[self@.current as int] == self.players@[self@.current as int]@);
            Some(self.players[self.current_player_index].id.clone())
        } else {
            None
        };
        GameSnapshot {
            game_id: self.id.clone(),
            state: self.state,
            pot: self.pot,
            current_bet: self.current_bet,
            current_player,
            community_cards: copy_cards(&self.community_cards),
            players,
        }
    }
}

} // verus!
