//! Properties of the engine that relate several operations.
use vstd::prelude::*;

use crate::cards::{fresh_deck, lemma_fresh_deck_complete, Card};
use crate::hand::{eval_cmp, eval_five, evaluate, EvalView};
use crate::models::{GameState, PlayerAction};
use crate::table::{
    after_action, all_hands, bet_applied, blinds_posted, chips_in_play, chips_upto, commit,
    contender_count, hand_reset, hand_started, is_winner, lemma_bet_applied_wf,
    lemma_chips_le_total, lemma_chips_same, lemma_chips_update, lemma_payout_le_pot,
    lemma_showdown_conserves, lemma_street_advanced_wf, lemma_turn_passed_wf, lemma_winner_exists,
    rejection, showdown, street_advanced, street_complete, total_chips, turn_passed,
    winner_count, winners_upto, GameView, MAX_PLAYERS,
};

verus! {

broadcast use vstd::seq_lib::group_to_multiset_ensures;

/// Chips are never made or lost by play: after any legal action the stacks
/// and the pot hold together exactly what they held before, so the pot is
/// always what left the stacks minus what was paid back out of it.
pub proof fn lemma_action_conserves_chips(v: GameView, action: PlayerAction)
    requires
        v.wf(),
        rejection(v, v.players[v.current as int].id, action) is None,
    ensures
        chips_in_play(after_action(v, action)) == chips_in_play(v),
        after_action(v, action).wf(),
{
    lemma_bet_applied_wf(v, action);
    let w = turn_passed(bet_applied(v, action));
    lemma_turn_passed_wf(bet_applied(v, action));
    if street_complete(w) {
        lemma_street_advanced_wf(w);
    }
}

/// The evaluation of five cards does not depend on their order: the same
/// cards in any order get the same category and tie-break key.
pub proof fn lemma_five_card_order_free(a: Seq<Card>, b: Seq<Card>)
    requires
        a.to_multiset() == b.to_multiset(),
    ensures
        eval_five(a).0 == eval_five(b).0,
        eval_five(a).1 == eval_five(b).1,
        eval_cmp(eval_five(a), eval_five(b)) == 0,
{
    crate::hand::lemma_eval_cmp_refl(eval_five(a));
}

/// A stronger category always wins, whatever the kickers.
pub proof fn lemma_category_decides(a: EvalView, b: EvalView)
    requires
        a.0.spec_value() > b.0.spec_value(),
    ensures
        eval_cmp(a, b) > 0,
        eval_cmp(b, a) < 0,
{
}

/// Cards burnt on the streets reached so far.
pub open spec fn burns(s: GameState) -> nat {
    match s {
        GameState::Flop => 1,
        GameState::Turn => 2,
        GameState::River | GameState::Showdown | GameState::Finished => 3,
        _ => 0,
    }
}

/// Every card of the deck a hand started with is accounted for: still in
/// the deck, in a seat's hole cards, on the board, or burnt.
pub open spec fn deck_accounted(v: GameView) -> bool {
    v.deck.len() + v.community.len() + burns(v.state) + 2 * v.players.len() == 52
}

/// Legal play keeps the deck accounted for.
pub proof fn lemma_action_keeps_deck_accounted(v: GameView, action: PlayerAction)
    requires
        v.wf(),
        rejection(v, v.players[v.current as int].id, action) is None,
        deck_accounted(v),
    ensures
        deck_accounted(after_action(v, action)),
{
}

/// Once the river is dealt, a hand for `n` seats has taken `2n + 8` cards off
/// the deck: two hole cards a seat, three burns and five board cards.
pub proof fn lemma_river_deck_size(v: GameView)
    requires
        deck_accounted(v),
        v.state == GameState::River,
        v.community.len() == 5,
    ensures
        v.deck.len() == 52 - (2 * v.players.len() + 8),
{
}

/// The evaluation of five or more cards does not depend on their order: the
/// same cards in any order get the same category and tie-break key.
pub proof fn lemma_evaluation_order_free(s: Seq<Card>, t: Seq<Card>)
    requires
        s.to_multiset() == t.to_multiset(),
        s.len() >= 5,
    ensures
        evaluate(s).0 == evaluate(t).0,
        evaluate(s).1 == evaluate(t).1,
{
    assert(s.to_multiset().len() == s.len());
    assert(t.to_multiset().len() == t.len());
    crate::hand::lemma_evaluate_dominates(s, t);
    crate::hand::lemma_evaluate_dominates(t, s);
    crate::hand::lemma_eval_cmp_antisym(evaluate(s), evaluate(t));
    crate::hand::lemma_lex_cmp_zero(evaluate(s).1, evaluate(t).1);
}

/// Moving `amount` chips of one seat into the pot takes them off the stacks.
proof fn lemma_commit_moves(v: GameView, i: int, amount: int)
    requires
        0 <= i < v.players.len(),
        0 <= amount <= v.players[i].chips,
        v.pot + amount <= u32::MAX,
    ensures
        total_chips(commit(v, i, amount).players) == total_chips(v.players) - amount,
        commit(v, i, amount).pot == v.pot + amount,
        commit(v, i, amount).players.len() == v.players.len(),
{
    let w = commit(v, i, amount);
    lemma_chips_update(v.players, i, w.players[i], v.players.len() as int);
}

/// When a hand begins the pot holds exactly the blinds taken from the stacks,
/// and the deck and the hole cards hold each of the 52 cards exactly once.
pub proof fn lemma_hand_start(v: GameView, w: GameView)
    requires
        hand_started(v, w),
        2 <= v.players.len() <= MAX_PLAYERS,
        v.dealer < v.players.len(),
        total_chips(v.players) <= u32::MAX,
    ensures
        w.pot == total_chips(v.players) - total_chips(w.players),
        w.deck.len() == 52 - 2 * v.players.len(),
        forall|i: int| 0 <= i < w.players.len() ==> (#[trigger] w.players[i]).hand.len() == 2,
        w.community.len() == 0,
        forall|c: Card| #[trigger] w.deck.to_multiset().add(all_hands(w.players)).count(c) == 1,
{
    let n = v.players.len() as int;
    let r = hand_reset(v);
    lemma_chips_same(v.players, r.players, n);
    let sb = (v.dealer + 1) % n;
    let bb = (v.dealer + 2) % n;
    let a = if v.small_blind < r.players[sb].chips {
        v.small_blind as int
    } else {
        r.players[sb].chips as int
    };
    lemma_chips_le_total(r.players, sb, n);
    lemma_commit_moves(r, sb, a);
    let v1 = commit(r, sb, a);
    let b = if v.big_blind < v1.players[bb].chips {
        v.big_blind as int
    } else {
        v1.players[bb].chips as int
    };
    lemma_chips_le_total(v1.players, bb, n);
    lemma_commit_moves(v1, bb, b);
    let bp = blinds_posted(r);
    assert(bp.pot == a + b);
    lemma_chips_same(bp.players, w.players, n);
    assert forall|c: Card| #[trigger] w.deck.to_multiset().add(all_hands(w.players)).count(c)
        == 1 by {
        lemma_fresh_deck_complete(c);
    }
}

/// With no bet in between, closing the pre-flop, flop and turn streets of a
/// new hand reaches the river with a full board and `52 - (2n + 8)` cards
/// left: two hole cards a seat, three burns and five board cards.
pub proof fn lemma_three_streets(v: GameView, w: GameView)
    requires
        hand_started(v, w),
        2 <= v.players.len() <= MAX_PLAYERS,
    ensures
        street_advanced(street_advanced(street_advanced(w))).state == GameState::River,
        street_advanced(street_advanced(street_advanced(w))).community.len() == 5,
        street_advanced(street_advanced(street_advanced(w))).deck.len() == 52 - (2
            * v.players.len() + 8),
{
}

/// At showdown the winners are the contenders with the strongest hands; with
/// `k` of them, each takes `pot / k`, the first `pot % k` of them in seat
/// order one chip more, everyone else keeps their stack, the pot is emptied
/// and no chip is made or lost.
pub proof fn lemma_split_pot(v: GameView)
    requires
        contender_count(v) > 0,
        chips_in_play(v) <= u32::MAX,
    ensures
        winner_count(v) > 0,
        forall|i: int|
            0 <= i < v.players.len() && #[trigger] is_winner(v, i) ==> showdown(v).players[i].chips
                == v.players[i].chips + v.pot as int / winner_count(v) as int + if winners_upto(v, i)
                < v.pot as int % winner_count(v) as int {
                1int
            } else {
                0int
            },
        forall|i: int|
            0 <= i < v.players.len() && !#[trigger] is_winner(v, i) ==> showdown(v).players[i].chips
                == v.players[i].chips,
        showdown(v).pot == 0,
        total_chips(showdown(v).players) == total_chips(v.players) + v.pot,
{
    lemma_winner_exists(v);
    lemma_showdown_conserves(v);
    assert forall|i: int| 0 <= i < v.players.len() implies #[trigger] showdown(v).players[i].chips
        == v.players[i].chips + crate::table::payout(v, i) by {
        lemma_chips_le_total(v.players, i, v.players.len() as int);
        lemma_payout_le_pot(v, i);
    }
}

} // verus!
