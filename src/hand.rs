use vstd::multiset::Multiset;
use vstd::prelude::*;

use crate::cards::{Card, Rank, Suit};
use crate::models::Game;

verus! {

broadcast use vstd::seq_lib::group_to_multiset_ensures;

/// Hand categories, weakest first.
#[derive(Clone, Copy, Debug, PartialEq, Eq, Structural, PartialOrd, Ord)]
pub enum HandRank {
    HighCard,
    OnePair,
    TwoPair,
    ThreeOfAKind,
    Straight,
    Flush,
    FullHouse,
    FourOfAKind,
    StraightFlush,
    RoyalFlush,
}

impl HandRank {
    /// Strength of the category: high card is 1, ..., royal flush is 10.
    pub open spec fn spec_value(&self) -> u8 {
        match self {
            HandRank::HighCard => 1,
            HandRank::OnePair => 2,
            HandRank::TwoPair => 3,
            HandRank::ThreeOfAKind => 4,
            HandRank::Straight => 5,
            HandRank::Flush => 6,
            HandRank::FullHouse => 7,
            HandRank::FourOfAKind => 8,
            HandRank::StraightFlush => 9,
            HandRank::RoyalFlush => 10,
        }
    }

    #[verifier::when_used_as_spec(spec_value)]
    pub fn value(&self) -> (v: u8)
        ensures
            v == self.spec_value(),
    {
        match self {
            HandRank::HighCard => 1,
            HandRank::OnePair => 2,
            HandRank::TwoPair => 3,
            HandRank::ThreeOfAKind => 4,
            HandRank::Straight => 5,
            HandRank::Flush => 6,
            HandRank::FullHouse => 7,
            HandRank::FourOfAKind => 8,
            HandRank::StraightFlush => 9,
            HandRank::RoyalFlush => 10,
        }
    }
}

/// The card of suit `s` and rank value `v`.
pub open spec fn card_of(s: Suit, v: int) -> Card {
    Card { suit: s, rank: Rank::spec_from_value(v) }
}

/// How many cards of rank value `v` the multiset holds.
pub open spec fn rank_count(m: Multiset<Card>, v: int) -> nat {
    if 2 <= v <= 14 {
        m.count(card_of(Suit::Hearts, v)) + m.count(card_of(Suit::Diamonds, v)) + m.count(
            card_of(Suit::Clubs, v),
        ) + m.count(card_of(Suit::Spades, v))
    } else {
        0
    }
}

/// All cards share one suit.
pub open spec fn is_flush(m: Multiset<Card>) -> bool {
    forall|c1: Card, c2: Card|
        #[trigger] m.count(c1) > 0 && #[trigger] m.count(c2) > 0 ==> c1.suit == c2.suit
}

/// The rank values `v..=14` of the multiset, highest first, each repeated as
/// often as it occurs.
pub open spec fn ranks_down(m: Multiset<Card>, v: int) -> Seq<u8>
    decreases 15 - v,
{
    if v > 14 {
        seq![]
    } else {
        ranks_down(m, v + 1) + Seq::new(rank_count(m, v), |i: int| v as u8)
    }
}

/// The rank values of the multiset, highest first.
pub open spec fn sorted_ranks(m: Multiset<Card>) -> Seq<u8> {
    ranks_down(m, 2)
}

/// The rank values in `v..=14`, highest first, that occur exactly `c` times.
pub open spec fn ranks_with_count(m: Multiset<Card>, c: nat, v: int) -> Seq<u8>
    decreases 15 - v,
{
    if v > 14 {
        seq![]
    } else {
        ranks_with_count(m, c, v + 1) + if rank_count(m, v) == c {
            seq![v as u8]
        } else {
            seq![]
        }
    }
}

/// How many rank values occur exactly `c` times.
pub open spec fn groups_of(m: Multiset<Card>, c: nat) -> nat {
    ranks_with_count(m, c, 2).len()
}

/// The distinct rank values whose count is at least `c`, ordered by count
/// (larger first) and then by rank (higher first).
pub open spec fn groups_from(m: Multiset<Card>, c: nat) -> Seq<u8>
    decreases 6 - c,
{
    if c > 5 || c == 0 {
        seq![]
    } else {
        groups_from(m, c + 1) + ranks_with_count(m, c, 2)
    }
}

/// The distinct rank values ordered by count, then by rank, both descending.
pub open spec fn rank_groups(m: Multiset<Card>) -> Seq<u8> {
    groups_from(m, 1)
}

/// Descending ranks that step down by exactly one.
pub open spec fn is_run(ks: Seq<u8>) -> bool {
    forall|i: int| 1 <= i < ks.len() ==> ks[i - 1] as int - #[trigger] ks[i] as int == 1
}

/// The ace-to-five straight, with the ace sorted first.
pub open spec fn is_wheel(ks: Seq<u8>) -> bool {
    ks == seq![14u8, 5u8, 4u8, 3u8, 2u8]
}

pub open spec fn is_straight_ranks(ks: Seq<u8>) -> bool {
    is_run(ks) || is_wheel(ks)
}

/// The top card of a straight; the wheel counts as five-high.
pub open spec fn straight_top(ks: Seq<u8>) -> u8 {
    if is_wheel(ks) {
        5
    } else if ks.len() > 0 {
        ks[0]
    } else {
        0
    }
}

/// The category of a five-card hand.
pub open spec fn category(m: Multiset<Card>) -> HandRank {
    let ks = sorted_ranks(m);
    let fl = is_flush(m);
    let st = is_straight_ranks(ks);
    if fl && st && straight_top(ks) == 14 {
        HandRank::RoyalFlush
    } else if fl && st {
        HandRank::StraightFlush
    } else if groups_of(m, 4) >= 1 {
        HandRank::FourOfAKind
    } else if groups_of(m, 3) >= 1 && groups_of(m, 2) >= 1 {
        HandRank::FullHouse
    } else if fl {
        HandRank::Flush
    } else if st {
        HandRank::Straight
    } else if groups_of(m, 3) >= 1 {
        HandRank::ThreeOfAKind
    } else if groups_of(m, 2) >= 2 {
        HandRank::TwoPair
    } else if groups_of(m, 2) >= 1 {
        HandRank::OnePair
    } else {
        HandRank::HighCard
    }
}

/// The tie-break key of a five-card hand, compared after the category.
pub open spec fn tie_break(m: Multiset<Card>) -> Seq<u8> {
    let ks = sorted_ranks(m);
    match category(m) {
        HandRank::RoyalFlush => seq![14u8],
        HandRank::StraightFlush => seq![straight_top(ks)],
        HandRank::Straight => seq![straight_top(ks)],
        HandRank::Flush => ks,
        HandRank::HighCard => ks,
        _ => rank_groups(m),
    }
}

/// The cards of `s` whose rank value is `v`, in their order in `s`.
pub open spec fn cards_of_rank(s: Seq<Card>, v: int) -> Seq<Card>
    decreases s.len(),
{
    if s.len() == 0 {
        seq![]
    } else if s.last().rank.spec_value() == v {
        cards_of_rank(s.drop_last(), v).push(s.last())
    } else {
        cards_of_rank(s.drop_last(), v)
    }
}

/// The cards of `s` with rank values in `v..=14`, highest rank first, cards of
/// equal rank in their order in `s`.
pub open spec fn cards_down(s: Seq<Card>, v: int) -> Seq<Card>
    decreases 15 - v,
{
    if v > 14 {
        seq![]
    } else {
        cards_down(s, v + 1) + cards_of_rank(s, v)
    }
}

/// An evaluation as plain values: category, tie-break key, the chosen cards.
pub type EvalView = (HandRank, Seq<u8>, Seq<Card>);

/// The evaluation of exactly five cards.
pub open spec fn eval_five(s: Seq<Card>) -> EvalView {
    let m = s.to_multiset();
    (category(m), tie_break(m), cards_down(s, 2))
}


/// Lexicographic comparison of tie-break keys: -1, 0 or 1. A key that is a
/// proper prefix of the other is the smaller.
pub open spec fn lex_cmp(a: Seq<u8>, b: Seq<u8>) -> int
    decreases a.len(),
{
    if a.len() == 0 {
        if b.len() == 0 {
            0
        } else {
            -1
        }
    } else if b.len() == 0 {
        1
    } else if a[0] < b[0] {
        -1
    } else if a[0] > b[0] {
        1
    } else {
        lex_cmp(a.drop_first(), b.drop_first())
    }
}

/// The total order on hands: category first, then the tie-break key.
pub open spec fn key_cmp(r1: HandRank, k1: Seq<u8>, r2: HandRank, k2: Seq<u8>) -> int {
    if r1.spec_value() < r2.spec_value() {
        -1
    } else if r1.spec_value() > r2.spec_value() {
        1
    } else {
        lex_cmp(k1, k2)
    }
}

/// Compares two evaluations by category and key.
pub open spec fn eval_cmp(a: EvalView, b: EvalView) -> int {
    key_cmp(a.0, a.1, b.0, b.1)
}

pub open spec fn to_ordering(c: int) -> std::cmp::Ordering {
    if c < 0 {
        std::cmp::Ordering::Less
    } else if c > 0 {
        std::cmp::Ordering::Greater
    } else {
        std::cmp::Ordering::Equal
    }
}

/// The strength of a hand: its category, the key that breaks ties inside the
/// category, and the five cards it is made of.
#[derive(Clone, Debug)]
pub struct HandEvaluation {
    pub rank: HandRank,
    pub kickers: Vec<u8>,
    pub cards: Vec<Card>,
}

impl View for HandEvaluation {
    type V = EvalView;

    open spec fn view(&self) -> EvalView {
        (self.rank, self.kickers@, self.cards@)
    }
}

impl HandEvaluation {
    /// Orders two evaluations by category, then by tie-break key.
    pub fn cmp(&self, other: &HandEvaluation) -> (r: std::cmp::Ordering)
        ensures
            r == to_ordering(eval_cmp(self@, other@)),
    {
        let a = self.rank.value();
        let b = other.rank.value();
        if a < b {
            return std::cmp::Ordering::Less;
        }
        if a > b {
            return std::cmp::Ordering::Greater;
        }
        compare_keys(&self.kickers, &other.kickers)
    }
}

impl PartialEq for HandEvaluation {
    fn eq(&self, other: &HandEvaluation) -> (r: bool) {
        let c = self.cmp(other);
        proof {
            lemma_lex_cmp_zero(self.kickers@, other.kickers@);
        }
        match c {
            std::cmp::Ordering::Equal => self.rank == other.rank,
            _ => false,
        }
    }
}

impl vstd::std_specs::cmp::PartialEqSpecImpl for HandEvaluation {
    open spec fn obeys_eq_spec() -> bool {
        true
    }

    open spec fn eq_spec(&self, other: &HandEvaluation) -> bool {
        self.rank == other.rank && self.kickers@ == other.kickers@
    }
}

impl PartialOrd for HandEvaluation {
    fn partial_cmp(&self, other: &HandEvaluation) -> (r: Option<std::cmp::Ordering>) {
        Some(self.cmp(other))
    }
}

impl vstd::std_specs::cmp::PartialOrdSpecImpl for HandEvaluation {
    open spec fn obeys_partial_cmp_spec() -> bool {
        true
    }

    open spec fn partial_cmp_spec(&self, other: &HandEvaluation) -> Option<std::cmp::Ordering> {
        Some(to_ordering(eval_cmp(self@, other@)))
    }
}

/// Two keys compare equal exactly when they are the same sequence.
pub proof fn lemma_lex_cmp_zero(a: Seq<u8>, b: Seq<u8>)
    ensures
        (lex_cmp(a, b) == 0) <==> (a == b),
    decreases a.len(),
{
    if a.len() == 0 && b.len() == 0 {
        assert(a =~= b);
    }
    if a.len() > 0 && b.len() > 0 && a[0] == b[0] {
        lemma_lex_cmp_zero(a.drop_first(), b.drop_first());
        if a.drop_first() == b.drop_first() {
            assert(a =~= seq![a[0]] + a.drop_first());
            assert(b =~= seq![b[0]] + b.drop_first());
        }
    }
}

fn compare_keys(a: &Vec<u8>, b: &Vec<u8>) -> (r: std::cmp::Ordering)
    ensures
        r == to_ordering(lex_cmp(a@, b@)),
{
    let mut i: usize = 0;
    assert(a@.skip(0) =~= a@);
    assert(b@.skip(0) =~= b@);
    while i < a.len() && i < b.len()
        invariant
            i <= a@.len(),
            i <= b@.len(),
            lex_cmp(a@, b@) == lex_cmp(a@.skip(i as int), b@.skip(i as int)),
        decreases a@.len() - i,
    {
        assert(a@.skip(i as int).drop_first() =~= a@.skip(i + 1));
        assert(b@.skip(i as int).drop_first() =~= b@.skip(i + 1));
        if a[i] < b[i] {
            return std::cmp::Ordering::Less;
        }
        if a[i] > b[i] {
            return std::cmp::Ordering::Greater;
        }
        i += 1;
    }
    if i < a.len() {
        std::cmp::Ordering::Greater
    } else if i < b.len() {
        std::cmp::Ordering::Less
    } else {
        std::cmp::Ordering::Equal
    }
}

proof fn lemma_rank_values()
    ensures
        forall|r: Rank| #[trigger] Rank::spec_from_value(r.spec_value() as int) == r,
        forall|v: int| 2 <= v <= 14 ==> #[trigger] Rank::spec_from_value(v).spec_value() == v,
{
}

proof fn lemma_rank_count_insert(m: Multiset<Card>, c: Card, v: int)
    ensures
        rank_count(m.insert(c), v) == rank_count(m, v) + if 2 <= v <= 14
            && c.rank.spec_value() == v {
            1nat
        } else {
            0nat
        },
{
    lemma_rank_values();
    if 2 <= v <= 14 {
        if c.rank.spec_value() == v {
            assert(card_of(c.suit, v) == c);
        } else {
            assert(Rank::spec_from_value(v) != c.rank);
        }
    }
}

/// How many cards of each rank value (index 0 to 14) the cards hold.
fn count_ranks(cards: &[Card]) -> (cnt: Vec<u8>)
    requires
        cards@.len() <= 5,
    ensures
        cnt@.len() == 15,
        forall|v: int| 0 <= v < 15 ==> cnt@[v] == rank_count(cards@.to_multiset(), v),
        forall|v: int| 0 <= v < 15 ==> cnt@[v] <= 5,
{
    let mut cnt: Vec<u8> = Vec::new();
    let mut k: usize = 0;
    while k < 15
        invariant
            k <= 15,
            cnt@.len() == k,
            forall|v: int| 0 <= v < k ==> cnt@[v] == 0,
        decreases 15 - k,
    {
        cnt.push(0);
        k += 1;
    }
    let mut i: usize = 0;
    while i < cards.len()
        invariant
            i <= cards@.len() <= 5,
            cnt@.len() == 15,
            forall|v: int|
                0 <= v < 15 ==> cnt@[v] == rank_count(cards@.subrange(0, i as int).to_multiset(), v),
            forall|v: int| 0 <= v < 15 ==> cnt@[v] <= i,
        decreases cards@.len() - i,
    {
        let c = cards[i];
        let v = c.rank.value() as usize;
        proof {
            let p = cards@.subrange(0, i as int);
            assert(cards@.subrange(0, i + 1) =~= p.push(c));
            assert(p.push(c).to_multiset() =~= p.to_multiset().insert(c));
            assert forall|w: int| 0 <= w < 15 implies rank_count(
                cards@.subrange(0, i + 1).to_multiset(),
                w,
            ) == rank_count(p.to_multiset(), w) + if w == v as int {
                1nat
            } else {
                0nat
            } by {
                lemma_rank_count_insert(p.to_multiset(), c, w);
            }
        }
        cnt.set(v, cnt[v] + 1);
        i += 1;
    }
    assert(cards@.subrange(0, cards@.len() as int) =~= cards@);
    cnt
}

/// The rank values `2..=14` that occur exactly `c` times, highest first.
fn ranks_with(cnt: &Vec<u8>, c: u8, Ghost(m): Ghost<Multiset<Card>>) -> (r: Vec<u8>)
    requires
        cnt@.len() == 15,
        forall|v: int| 0 <= v < 15 ==> cnt@[v] == rank_count(m, v),
    ensures
        r@ == ranks_with_count(m, c as nat, 2),
{
    let mut out: Vec<u8> = Vec::new();
    let mut v: usize = 15;
    while v > 2
        invariant
            2 <= v <= 15,
            cnt@.len() == 15,
            forall|w: int| 0 <= w < 15 ==> cnt@[w] == rank_count(m, w),
            out@ == ranks_with_count(m, c as nat, v as int),
        decreases v,
    {
        v -= 1;
        if cnt[v] == c {
            out.push(v as u8);
        }
        assert(out@ =~= ranks_with_count(m, c as nat, v as int));
    }
    out
}

/// All rank values `2..=14` of the multiset, highest first, with repetition.
fn ranks_descending(cnt: &Vec<u8>, Ghost(m): Ghost<Multiset<Card>>) -> (r: Vec<u8>)
    requires
        cnt@.len() == 15,
        forall|v: int| 0 <= v < 15 ==> cnt@[v] == rank_count(m, v),
    ensures
        r@ == sorted_ranks(m),
{
    let mut out: Vec<u8> = Vec::new();
    let mut v: usize = 15;
    while v > 2
        invariant
            2 <= v <= 15,
            cnt@.len() == 15,
            forall|w: int| 0 <= w < 15 ==> cnt@[w] == rank_count(m, w),
            out@ == ranks_down(m, v as int),
        decreases v,
    {
        v -= 1;
        let n = cnt[v];
        let mut k: u8 = 0;
        while k < n
            invariant
                2 <= v < 15,
                k <= n,
                out@ == ranks_down(m, v + 1) + Seq::new(k as nat, |i: int| v as u8),
            decreases n - k,
        {
            out.push(v as u8);
            k += 1;
            assert(out@ =~= ranks_down(m, v + 1) + Seq::new(k as nat, |i: int| v as u8));
        }
        assert(out@ =~= ranks_down(m, v as int));
    }
    out
}

/// The cards sorted by rank, highest first; cards of equal rank keep their
/// order.
fn cards_by_rank(cards: &[Card]) -> (r: Vec<Card>)
    ensures
        r@ == cards_down(cards@, 2),
{
    let mut out: Vec<Card> = Vec::new();
    let mut v: usize = 15;
    while v > 2
        invariant
            2 <= v <= 15,
            out@ == cards_down(cards@, v as int),
        decreases v,
    {
        v -= 1;
        let mut j: usize = 0;
        while j < cards.len()
            invariant
                2 <= v < 15,
                j <= cards@.len(),
                out@ == cards_down(cards@, v + 1) + cards_of_rank(
                    cards@.subrange(0, j as int),
                    v as int,
                ),
            decreases cards@.len() - j,
        {
            let c = cards[j];
            assert(cards@.subrange(0, j + 1).drop_last() =~= cards@.subrange(0, j as int));
            if c.rank.value() as usize == v {
                out.push(c);
            }
            j += 1;
        }
        assert(cards@.subrange(0, cards@.len() as int) =~= cards@);
    }
    out
}

/// All cards share one suit.
fn same_suit(cards: &[Card]) -> (r: bool)
    requires
        cards@.len() > 0,
    ensures
        r == is_flush(cards@.to_multiset()),
{
    let s0 = cards[0].suit;
    let mut i: usize = 1;
    while i < cards.len()
        invariant
            1 <= i <= cards@.len(),
            s0 == cards@[0].suit,
            forall|k: int| 0 <= k < i ==> #[trigger] cards@[k].suit == s0,
        decreases cards@.len() - i,
    {
        if cards[i].suit != s0 {
            proof {
                let m = cards@.to_multiset();
                assert(cards@.contains(cards@[0]));
                assert(cards@.contains(cards@[i as int]));
                assert(m.count(cards@[0]) > 0);
                assert(m.count(cards@[i as int]) > 0);
            }
            return false;
        }
        i += 1;
    }
    proof {
        let m = cards@.to_multiset();
        assert forall|c1: Card, c2: Card|
            #[trigger] m.count(c1) > 0 && #[trigger] m.count(c2) > 0 implies c1.suit == c2.suit by {
            assert(cards@.contains(c1));
            assert(cards@.contains(c2));
        }
    }
    true
}

impl Game {
    /// Whether sorted ranks form a straight: each one step below the last, or
    /// the ace-to-five wheel.
    pub fn is_straight(&self, ranks: &[u8]) -> (r: bool)
        ensures
            r == is_straight_ranks(ranks@),
    {
        let mut consecutive = true;
        let mut i: usize = 1;
        while i < ranks.len()
            invariant
                1 <= i,
                i <= ranks@.len() || ranks@.len() == 0,
                consecutive == (forall|k: int|
                    1 <= k < i && k < ranks@.len() ==> ranks@[k - 1] as int
                        - #[trigger] ranks@[k] as int == 1),
            decreases ranks@.len() - i,
        {
            if ranks[i - 1] <= ranks[i] || ranks[i - 1] - ranks[i] != 1 {
                consecutive = false;
            }
            i += 1;
        }
        if consecutive {
            return true;
        }
        let wheel = ranks.len() == 5 && ranks[0] == 14 && ranks[1] == 5 && ranks[2] == 4
            && ranks[3] == 3 && ranks[4] == 2;
        proof {
            if wheel {
                assert(ranks@ =~= seq![14u8, 5u8, 4u8, 3u8, 2u8]);
            }
        }
        wheel
    }

    /// Evaluates exactly five cards.
    pub fn evaluate_five_cards(&self, cards: &[Card]) -> (r: HandEvaluation)
        requires
            cards@.len() == 5,
        ensures
            r@ == eval_five(cards@),
    {
        let ghost m = cards@.to_multiset();
        let cnt = count_ranks(cards);
        let ranks = ranks_descending(&cnt, Ghost(m));
        let sorted_cards = cards_by_rank(cards);
        let is_flush = same_suit(cards);
        let is_straight = self.is_straight(ranks.as_slice());
        let fours = ranks_with(&cnt, 4, Ghost(m));
        let threes = ranks_with(&cnt, 3, Ghost(m));
        let pairs = ranks_with(&cnt, 2, Ghost(m));
        let mut groups: Vec<u8> = Vec::new();
        let mut c: u8 = 5;
        while c > 0
            invariant
                c <= 5,
                cnt@.len() == 15,
                forall|v: int| 0 <= v < 15 ==> cnt@[v] == rank_count(m, v),
                groups@ == groups_from(m, c as nat + 1),
            decreases c,
        {
            let mut g = ranks_with(&cnt, c, Ghost(m));
            groups.append(&mut g);
            c -= 1;
        }
        let top: u8 = if is_straight {
            if ranks.len() == 5 && ranks[0] == 14 && ranks[1] == 5 && ranks[2] == 4 && ranks[3]
                == 3 && ranks[4] == 2 {
                assert(ranks@ =~= seq![14u8, 5u8, 4u8, 3u8, 2u8]);
                5
            } else if ranks.len() > 0 {
                ranks[0]
            } else {
                0
            }
        } else {
            0
        };
        if is_flush && is_straight && top == 14 {
            return HandEvaluation { rank: HandRank::RoyalFlush, kickers: vec![14], cards: sorted_cards };
        }
        if is_flush && is_straight {
            return HandEvaluation { rank: HandRank::StraightFlush, kickers: vec![top], cards: sorted_cards };
        }
        if fours.len() >= 1 {
            return HandEvaluation { rank: HandRank::FourOfAKind, kickers: groups, cards: sorted_cards };
        }
        if threes.len() >= 1 && pairs.len() >= 1 {
            return HandEvaluation { rank: HandRank::FullHouse, kickers: groups, cards: sorted_cards };
        }
        if is_flush {
            return HandEvaluation { rank: HandRank::Flush, kickers: ranks, cards: sorted_cards };
        }
        if is_straight {
            return HandEvaluation { rank: HandRank::Straight, kickers: vec![top], cards: sorted_cards };
        }
        if threes.len() >= 1 {
            return HandEvaluation { rank: HandRank::ThreeOfAKind, kickers: groups, cards: sorted_cards };
        }
        if pairs.len() >= 2 {
            return HandEvaluation { rank: HandRank::TwoPair, kickers: groups, cards: sorted_cards };
        }
        if pairs.len() >= 1 {
            return HandEvaluation { rank: HandRank::OnePair, kickers: groups, cards: sorted_cards };
        }
        HandEvaluation { rank: HandRank::HighCard, kickers: ranks, cards: sorted_cards }
    }
}

/// The `k`-card selections of `s`, each in the order of `s`, listed in
/// lexicographic order of the positions chosen.
pub open spec fn combos(s: Seq<Card>, k: nat) -> Seq<Seq<Card>>
    decreases s.len(),
{
    if k == 0 {
        seq![seq![]]
    } else if s.len() == 0 {
        seq![]
    } else {
        combos(s.drop_first(), (k - 1) as nat).map_values(|c: Seq<Card>| seq![s[0]] + c) + combos(
            s.drop_first(),
            k,
        )
    }
}

/// The best evaluation among the five-card selections `cs`; of equally strong
/// ones, the first.
pub open spec fn best_of(cs: Seq<Seq<Card>>) -> EvalView
    decreases cs.len(),
{
    if cs.len() <= 1 {
        eval_five(cs[0])
    } else {
        let b = best_of(cs.drop_last());
        let e = eval_five(cs.last());
        if eval_cmp(e, b) > 0 {
            e
        } else {
            b
        }
    }
}

/// The evaluation of five or more cards: the best of their five-card
/// selections.
#[verifier::opaque]
pub open spec fn evaluate(s: Seq<Card>) -> EvalView {
    best_of(combos(s, 5))
}

/// Every selection has `k` cards, and there is at least one when `s` has `k`
/// cards or more.
pub proof fn lemma_combos_shape(s: Seq<Card>, k: nat)
    ensures
        forall|i: int| 0 <= i < combos(s, k).len() ==> (#[trigger] combos(s, k)[i]).len() == k,
        s.len() >= k ==> combos(s, k).len() > 0,
    decreases s.len(),
{
    if k > 0 && s.len() > 0 {
        lemma_combos_shape(s.drop_first(), (k - 1) as nat);
        lemma_combos_shape(s.drop_first(), k);
        let w = combos(s.drop_first(), (k - 1) as nat);
        let f = |c: Seq<Card>| seq![s[0]] + c;
        let a = w.map_values(f);
        let b = combos(s.drop_first(), k);
        assert forall|i: int| 0 <= i < combos(s, k).len() implies (#[trigger] combos(
            s,
            k,
        )[i]).len() == k by {
            if i < a.len() {
                assert(combos(s, k)[i] == a[i]);
            } else {
                assert(combos(s, k)[i] == b[i - a.len()]);
            }
        }
    }
}

/// The `k`-card selections of `cards[start..]`.
fn combos_from(cards: &Vec<Card>, start: usize, k: usize) -> (r: Vec<Vec<Card>>)
    requires
        start <= cards@.len(),
    ensures
        r@.len() == combos(cards@.skip(start as int), k as nat).len(),
        forall|i: int|
            0 <= i < r@.len() ==> (#[trigger] r@[i])@ == combos(
                cards@.skip(start as int),
                k as nat,
            )[i],
    decreases cards@.len() - start,
{
    let ghost s = cards@.skip(start as int);
    if k == 0 {
        let mut r: Vec<Vec<Card>> = Vec::new();
        r.push(Vec::new());
        assert(r@[0]@ =~= seq![]);
        return r;
    }
    if start == cards.len() {
        assert(s.len() == 0);
        return Vec::new();
    }
    assert(s.drop_first() =~= cards@.skip(start + 1));
    let with_first = combos_from(cards, start + 1, k - 1);
    let mut rest = combos_from(cards, start + 1, k);
    let ghost a = combos(s.drop_first(), (k - 1) as nat).map_values(
        |c: Seq<Card>| seq![s[0]] + c,
    );
    let mut r: Vec<Vec<Card>> = Vec::new();
    let mut i: usize = 0;
    while i < with_first.len()
        invariant
            0 <= start < cards@.len(),
            s == cards@.skip(start as int),
            a.len() == with_first@.len(),
            forall|j: int| 0 <= j < a.len() ==> a[j] == seq![s[0]] + with_first@[j]@,
            i <= with_first@.len(),
            r@.len() == i,
            forall|j: int| 0 <= j < i ==> (#[trigger] r@[j])@ == a[j],
        decreases with_first@.len() - i,
    {
        let mut c: Vec<Card> = Vec::new();
        c.push(cards[start]);
        let src = &with_first[i];
        let mut j: usize = 0;
        while j < src.len()
            invariant
                0 <= start < cards@.len(),
                s == cards@.skip(start as int),
                j <= src@.len(),
                c@ == seq![s[0]] + src@.subrange(0, j as int),
            decreases src@.len() - j,
        {
            c.push(src[j]);
            j += 1;
            assert(c@ =~= seq![s[0]] + src@.subrange(0, j as int));
        }
        assert(src@.subrange(0, src@.len() as int) =~= src@);
        r.push(c);
        i += 1;
    }
    let ghost r_before = r@;
    let ghost rest_before = rest@;
    r.append(&mut rest);
    proof {
        let full = combos(s, k as nat);
        assert(full == a + combos(s.drop_first(), k as nat));
        assert forall|j: int| 0 <= j < r@.len() implies (#[trigger] r@[j])@ == full[j] by {
            if j < a.len() {
                assert(r@[j] == r_before[j]);
            } else {
                assert(r@[j] == rest_before[j - a.len()]);
            }
        }
    }
    r
}

impl Game {
    /// All five-card selections of `cards`, in lexicographic order of the
    /// positions chosen.
    pub fn get_five_card_combinations(&self, cards: Vec<Card>) -> (r: Vec<Vec<Card>>)
        ensures
            r@.len() == combos(cards@, 5).len(),
            forall|i: int| 0 <= i < r@.len() ==> (#[trigger] r@[i])@ == combos(cards@, 5)[i],
    {
        assert(cards@.skip(0) =~= cards@);
        combos_from(&cards, 0, 5)
    }

    /// Evaluates five or more cards: the best evaluation among all their
    /// five-card selections (the first one found, among equally strong ones).
    pub fn evaluate_hand(&self, cards: Vec<Card>) -> (r: HandEvaluation)
        requires
            cards@.len() >= 5,
        ensures
            r@ == evaluate(cards@),
    {
        let ghost cs = combos(cards@, 5);
        proof {
            lemma_combos_shape(cards@, 5);
        }
        let combinations = self.get_five_card_combinations(cards);
        let mut best_evaluation = self.evaluate_five_cards(combinations[0].as_slice());
        assert(cs.subrange(0, 1).drop_last() =~= seq![]);
        let mut i: usize = 1;
        while i < combinations.len()
            invariant
                1 <= i <= combinations@.len(),
                combinations@.len() == cs.len(),
                forall|j: int| 0 <= j < cs.len() ==> (#[trigger] combinations@[j])@ == cs[j],
                forall|j: int| 0 <= j < cs.len() ==> (#[trigger] cs[j]).len() == 5,
                best_evaluation@ == best_of(cs.subrange(0, i as int)),
            decreases combinations@.len() - i,
        {
            let evaluation = self.evaluate_five_cards(combinations[i].as_slice());
            assert(cs.subrange(0, i + 1).drop_last() =~= cs.subrange(0, i as int));
            match evaluation.cmp(&best_evaluation) {
                std::cmp::Ordering::Greater => {
                    best_evaluation = evaluation;
                },
                _ => {},
            }
            i += 1;
        }
        assert(cs.subrange(0, cs.len() as int) =~= cs);
        proof {
            reveal(evaluate);
        }
        best_evaluation
    }
}

/// Swapping the arguments of the key order negates it.
pub proof fn lemma_lex_antisym(a: Seq<u8>, b: Seq<u8>)
    ensures
        lex_cmp(a, b) == -lex_cmp(b, a),
    decreases a.len(),
{
    if a.len() > 0 && b.len() > 0 && a[0] == b[0] {
        lemma_lex_antisym(a.drop_first(), b.drop_first());
    }
}

/// The key order is transitive, and strict as soon as one step is.
pub proof fn lemma_lex_trans(a: Seq<u8>, b: Seq<u8>, c: Seq<u8>)
    requires
        lex_cmp(a, b) >= 0,
        lex_cmp(b, c) >= 0,
    ensures
        lex_cmp(a, c) >= 0,
        lex_cmp(a, b) > 0 || lex_cmp(b, c) > 0 ==> lex_cmp(a, c) > 0,
    decreases a.len(),
{
    if a.len() > 0 && b.len() > 0 && c.len() > 0 && a[0] == b[0] && b[0] == c[0] {
        lemma_lex_trans(a.drop_first(), b.drop_first(), c.drop_first());
    }
}

pub proof fn lemma_eval_cmp_antisym(a: EvalView, b: EvalView)
    ensures
        eval_cmp(a, b) == -eval_cmp(b, a),
{
    lemma_lex_antisym(a.1, b.1);
}

pub proof fn lemma_eval_cmp_trans(a: EvalView, b: EvalView, c: EvalView)
    requires
        eval_cmp(a, b) >= 0,
        eval_cmp(b, c) >= 0,
    ensures
        eval_cmp(a, c) >= 0,
        eval_cmp(a, b) > 0 || eval_cmp(b, c) > 0 ==> eval_cmp(a, c) > 0,
{
    if a.0.spec_value() == b.0.spec_value() && b.0.spec_value() == c.0.spec_value() {
        lemma_lex_trans(a.1, b.1, c.1);
    }
}

pub proof fn lemma_eval_cmp_refl(a: EvalView)
    ensures
        eval_cmp(a, a) == 0,
{
    lemma_lex_cmp_zero(a.1, a.1);
}

/// Splitting off the first card of a sequence splits it off its multiset.
proof fn lemma_head_split(s: Seq<Card>)
    requires
        s.len() > 0,
    ensures
        s.to_multiset() == s.drop_first().to_multiset().insert(s[0]),
{
    broadcast use vstd::multiset::group_multiset_axioms;

    assert(s =~= seq![s[0]] + s.drop_first());
    vstd::seq_lib::lemma_multiset_commutative(seq![s[0]], s.drop_first());
    assert(seq![s[0]] =~= Seq::<Card>::empty().push(s[0]));
    assert(Seq::<Card>::empty().to_multiset().len() == 0);
    vstd::multiset::lemma_multiset_empty_len(Seq::<Card>::empty().to_multiset());
    assert(s.to_multiset() =~= s.drop_first().to_multiset().insert(s[0]));
}

/// Each selection takes its cards from `s`.
proof fn lemma_combos_sub(s: Seq<Card>, k: nat, i: int)
    requires
        0 <= i < combos(s, k).len(),
    ensures
        combos(s, k)[i].to_multiset().subset_of(s.to_multiset()),
    decreases s.len(),
{
    broadcast use vstd::multiset::group_multiset_axioms;

    let c = combos(s, k)[i];
    if k == 0 {
        assert(c == Seq::<Card>::empty());
        assert(c.to_multiset().len() == 0);
        vstd::multiset::lemma_multiset_empty_len(c.to_multiset());
    } else {
        let rest = s.drop_first();
        let a = combos(rest, (k - 1) as nat).map_values(|x: Seq<Card>| seq![s[0]] + x);
        lemma_head_split(s);
        if i < a.len() {
            let c2 = combos(rest, (k - 1) as nat)[i];
            lemma_combos_sub(rest, (k - 1) as nat, i);
            assert(c == seq![s[0]] + c2);
            assert(c.drop_first() =~= c2);
            lemma_head_split(c);
        } else {
            lemma_combos_sub(rest, k, i - a.len());
            assert(c == combos(rest, k)[i - a.len()]);
        }
    }
}

/// Every choice of `k` of the cards of `s` is one of the selections.
proof fn lemma_combos_cover(s: Seq<Card>, k: nat, m: Multiset<Card>) -> (i: int)
    requires
        m.subset_of(s.to_multiset()),
        m.len() == k,
    ensures
        0 <= i < combos(s, k).len(),
        combos(s, k)[i].to_multiset() == m,
    decreases s.len(),
{
    broadcast use vstd::multiset::group_multiset_axioms;

    if k == 0 {
        vstd::multiset::lemma_multiset_empty_len(m);
        let c = combos(s, k)[0];
        assert(c == Seq::<Card>::empty());
        assert(c.to_multiset().len() == 0);
        vstd::multiset::lemma_multiset_empty_len(c.to_multiset());
        0
    } else if s.len() == 0 {
        assert(s.to_multiset().len() == 0);
        vstd::multiset::lemma_multiset_empty_len(s.to_multiset());
        assert(m =~= Multiset::empty());
        assert(false);
        0
    } else {
        let rest = s.drop_first();
        let x = s[0];
        let a = combos(rest, (k - 1) as nat).map_values(|c: Seq<Card>| seq![x] + c);
        lemma_head_split(s);
        if m.count(x) > 0 {
            let m2 = m.remove(x);
            assert(Multiset::singleton(x).subset_of(m));
            assert(m2.subset_of(rest.to_multiset()));
            let j = lemma_combos_cover(rest, (k - 1) as nat, m2);
            let c2 = combos(rest, (k - 1) as nat)[j];
            let c = combos(s, k)[j];
            assert(c == seq![x] + c2);
            assert(c.drop_first() =~= c2);
            lemma_head_split(c);
            assert(c.to_multiset() =~= m);
            j
        } else {
            assert(m.subset_of(rest.to_multiset()));
            let j = lemma_combos_cover(rest, k, m);
            assert(combos(s, k)[a.len() + j] == combos(rest, k)[j]);
            a.len() + j
        }
    }
}

/// The best of the selections is one of them, and at least as strong as
/// each.
proof fn lemma_best_of_max(cs: Seq<Seq<Card>>) -> (i: int)
    requires
        cs.len() > 0,
    ensures
        0 <= i < cs.len(),
        best_of(cs) == eval_five(cs[i]),
        forall|j: int| 0 <= j < cs.len() ==> eval_cmp(best_of(cs), eval_five(#[trigger] cs[j])) >= 0,
    decreases cs.len(),
{
    if cs.len() == 1 {
        lemma_eval_cmp_refl(eval_five(cs[0]));
        0
    } else {
        let p = cs.drop_last();
        let i0 = lemma_best_of_max(p);
        let b = best_of(p);
        let e = eval_five(cs.last());
        lemma_eval_cmp_antisym(e, b);
        lemma_eval_cmp_refl(e);
        assert forall|j: int| 0 <= j < cs.len() implies eval_cmp(
            best_of(cs),
            eval_five(#[trigger] cs[j]),
        ) >= 0 by {
            if j < cs.len() - 1 {
                assert(p[j] == cs[j]);
                if eval_cmp(e, b) > 0 {
                    lemma_eval_cmp_trans(e, b, eval_five(cs[j]));
                }
            }
        }
        if eval_cmp(e, b) > 0 {
            cs.len() - 1
        } else {
            i0
        }
    }
}

/// The best selection of `t` is at least as strong as that of `s` when `t`
/// holds the same cards.
pub proof fn lemma_evaluate_dominates(s: Seq<Card>, t: Seq<Card>)
    requires
        s.to_multiset() == t.to_multiset(),
        s.len() >= 5,
    ensures
        eval_cmp(evaluate(t), evaluate(s)) >= 0,
{
    reveal(evaluate);
    lemma_combos_shape(s, 5);
    lemma_combos_shape(t, 5);
    assert(t.to_multiset().len() == t.len());
    let i = lemma_best_of_max(combos(s, 5));
    let c = combos(s, 5)[i];
    lemma_combos_sub(s, 5, i);
    assert(c.len() == 5);
    assert(c.to_multiset().len() == 5);
    let j = lemma_combos_cover(t, 5, c.to_multiset());
    let d = combos(t, 5)[j];
    lemma_best_of_max(combos(t, 5));
    assert(eval_cmp(best_of(combos(t, 5)), eval_five(d)) >= 0);
}

} // verus!
