//! The turn engine: drives one game from the fresh state to termination,
//! scores it, and — in the evaluation harness — repeats that over many
//! trials with the strategies shuffled over the seats to cancel turn-order
//! bias.

use vstd::prelude::*;

use crate::clayton::solver::{clayton2_take, clayton_direction, clayton_take};
use crate::deep_sea::{
    diving_index, game_step, initial_state, lemma_held_entry_le_total,
    lemma_move_transition_frame, lemma_skip_measure_decreases, lemma_treasure_tiles_bounds,
    lemma_treasures_conserved, lemma_turn_wrap, move_transition, oxygen_transition, skip_measure,
    take_transition, tier_held_total, tier_in_path, turn_transition, wrap_next, DeepSea,
    DiveDirection, GameView, PlayerV, Position, Tile, TreasureDecision, DEFAULT_OXYGEN,
    MAX_PATH_LEN,
};
use crate::error::{DeepSeaError, DeepSeaResult};
use crate::solver::Solver;
use crate::treasure::{
    bump_count, count_of, counts_wf, decayed_value, fresh_counts, AssignCounts, Treasure,
    TreasureValueAssigner,
};

verus! {

/// Worth of one haul under the decaying value policy, threading the
/// assignment counts: the summed value and the counts afterwards.
pub open spec fn haul_value(held: Seq<Treasure>, c: AssignCounts) -> (int, AssignCounts)
    decreases held.len(),
{
    if held.len() == 0 {
        (0, c)
    } else {
        let v = decayed_value(held[0], count_of(c, held[0]));
        let c1 = bump_count(c, held[0]);
        let rest = haul_value(held.drop_first(), c1);
        (v + rest.0, rest.1)
    }
}

/// Final scores, seat by seat: a returned player scores their haul through
/// the value assigner (which keeps counting across players), anyone still
/// out at sea scores zero and assigns nothing.
pub open spec fn scores_from(players: Seq<PlayerV>, c: AssignCounts) -> (Seq<int>, AssignCounts)
    decreases players.len(),
{
    if players.len() == 0 {
        (Seq::empty(), c)
    } else {
        let p = players[0];
        if p.pos is Returned {
            let hv = haul_value(p.held, c);
            let rest = scores_from(players.drop_first(), hv.1);
            (seq![hv.0] + rest.0, rest.1)
        } else {
            let rest = scores_from(players.drop_first(), c);
            (seq![0int] + rest.0, rest.1)
        }
    }
}

/// The scores of a finished (or any) state, starting from fresh counts.
pub open spec fn game_scores(s: GameView) -> Seq<int> {
    scores_from(s.players, fresh_counts()).0
}

/// There is one score per seat.
pub proof fn lemma_scores_len(players: Seq<PlayerV>, c: AssignCounts)
    ensures
        scores_from(players, c).0.len() == players.len(),
    decreases players.len(),
{
    if players.len() > 0 {
        let p = players[0];
        if p.pos is Returned {
            lemma_scores_len(players.drop_first(), haul_value(p.held, c).1);
        } else {
            lemma_scores_len(players.drop_first(), c);
        }
    }
}

/// Appending one chip to a haul adds exactly its decayed value and bumps
/// its tier's count.
proof fn lemma_haul_value_push(held: Seq<Treasure>, x: Treasure, c: AssignCounts)
    ensures
        haul_value(held.push(x), c).0
            == haul_value(held, c).0 + decayed_value(x, count_of(haul_value(held, c).1, x)),
        haul_value(held.push(x), c).1 == bump_count(haul_value(held, c).1, x),
    decreases held.len(),
{
    if held.len() == 0 {
        assert(held.push(x).drop_first() =~= Seq::<Treasure>::empty());
        assert(held.push(x)[0] == x);
        assert(haul_value(Seq::<Treasure>::empty(), bump_count(c, x)).0 == 0);
        assert(haul_value(Seq::<Treasure>::empty(), c).0 == 0);
    } else {
        assert(held.push(x).drop_first() =~= held.drop_first().push(x));
        assert(held.push(x)[0] == held[0]);
        lemma_haul_value_push(held.drop_first(), x, bump_count(c, held[0]));
    }
}

/// A haul's worth is between zero and 15 points a chip.
proof fn lemma_haul_value_bounds(held: Seq<Treasure>, c: AssignCounts)
    requires
        counts_wf(c),
    ensures
        0 <= haul_value(held, c).0 <= 15 * held.len(),
        counts_wf(haul_value(held, c).1),
    decreases held.len(),
{
    if held.len() > 0 {
        lemma_haul_value_bounds(held.drop_first(), bump_count(c, held[0]));
    }
}

/// Scores one haul through the assigner, chip by chip in pickup order.
fn score_haul(assigner: &mut TreasureValueAssigner, held: &Vec<Treasure>) -> (r: u32)
    requires
        counts_wf(old(assigner)@),
        held@.len() <= MAX_PATH_LEN,
    ensures
        counts_wf(final(assigner)@),
        r as int == haul_value(held@, old(assigner)@).0,
        final(assigner)@ == haul_value(held@, old(assigner)@).1,
{
    let n = held.len();
    let mut acc: u32 = 0;
    let mut i: usize = 0;
    while i < n
        invariant
            i <= n,
            n == held@.len(),
            n <= MAX_PATH_LEN,
            counts_wf(old(assigner)@),
            counts_wf(assigner@),
            acc as int == haul_value(held@.subrange(0, i as int), old(assigner)@).0,
            assigner@ == haul_value(held@.subrange(0, i as int), old(assigner)@).1,
            acc <= 15 * i,
        decreases n - i,
    {
        proof {
            lemma_haul_value_push(held@.subrange(0, i as int), held@[i as int], old(assigner)@);
            assert(held@.subrange(0, i + 1 as int)
                =~= held@.subrange(0, i as int).push(held@[i as int]));
        }
        let v = assigner.assign_value(held[i]);
        acc = acc + v;
        i = i + 1;
    }
    proof {
        assert(held@.subrange(0, n as int) =~= held@);
    }
    acc
}

/// The state after an acting turn with the given choices: oxygen burns,
/// the active player moves, a landing diver resolves their tile, the turn
/// advances.
pub open spec fn acting_outcome(pre: GameView, dir: DiveDirection, d: int, dec: TreasureDecision) -> GameView {
    let s1 = oxygen_transition(pre);
    let s2 = move_transition(s1, dir, d);
    let s3 = if s2.active().pos is Diving {
        take_transition(s2, dec)
    } else {
        s2
    };
    turn_transition(s3)
}

/// What the engine guarantees of an acting turn's choices: the dice lie in
/// 2..=6; a player who has turned is forced upward, otherwise the seat's
/// agent rule decides the direction (the random baseline may answer
/// anything); a landing diver's decision likewise follows the seat's agent
/// rule, and a `Take` only ever happens on a loaded tile.
pub open spec fn turn_choices_ok(
    solvers: Seq<Solver>,
    pre: GameView,
    dir: DiveDirection,
    d: int,
    dec: TreasureDecision,
) -> bool {
    let s1 = oxygen_transition(pre);
    let s2 = move_transition(s1, dir, d);
    &&& 2 <= d <= 6
    &&& (pre.active().dir is Up ==> dir == DiveDirection::Up)
    &&& (pre.active().dir is Down ==> match solvers[pre.turn] {
            Solver::Clayton(_) => dir == clayton_direction(s1, pre.turn),
            Solver::Clayton2(_) => dir == clayton_direction(s1, pre.turn),
            Solver::Random(_) => true,
        })
    &&& (s2.active().pos is Diving ==> {
            &&& (dec is Take ==> s2.path[diving_index(s2.active().pos)] is Treasure)
            &&& (match solvers[pre.turn] {
                Solver::Clayton(_) => dec == clayton_take(s2, pre.turn),
                Solver::Clayton2(_) => dec == clayton2_take(s2, pre.turn),
                Solver::Random(_) => true,
            })
        })
}

/// One turn of the engine, seen from outside: a returned player is skipped
/// and only the turn pointer moves; anyone else acts with some dice roll
/// and some choices the seated agents allow.
pub open spec fn turn_step(solvers: Seq<Solver>, pre: GameView, post: GameView) -> bool {
    if pre.active().pos is Returned {
        post == turn_transition(pre)
    } else {
        exists|dir: DiveDirection, d: int, dec: TreasureDecision|
            turn_choices_ok(solvers, pre, dir, d, dec)
                && post == #[trigger] acting_outcome(pre, dir, d, dec)
    }
}

/// A complete game: a chain of engine turns from `start` that is finished
/// exactly at its last state — so the scores of a round are read off the
/// run's first finished state, and no turn is granted once the game is
/// finished.
pub open spec fn game_run(solvers: Seq<Solver>, start: GameView, run: Seq<GameView>) -> bool {
    &&& run.len() >= 1
    &&& run[0] == start
    &&& (forall|i: int| 0 <= i < run.len() - 1
            ==> !(#[trigger] run[i]).done() && turn_step(solvers, run[i], run[i + 1]))
    &&& run.last().done()
}

/// What one full game leaves behind: a finished well-formed state with the
/// same seats and board size, no player un-returned, every tier of chips
/// conserved between board and hands, and the reported scores are exactly
/// that state's scores.
pub open spec fn round_outcome(pre: GameView, t: GameView, scores: Seq<u32>) -> bool {
    &&& t.wf()
    &&& t.done()
    &&& t.players.len() == pre.players.len()
    &&& t.path.len() == pre.path.len()
    &&& (forall|j: int| 0 <= j < pre.players.len()
            ==> ((#[trigger] pre.players[j]).pos is Returned ==> t.players[j].pos is Returned))
    &&& (forall|j: int| 0 <= j < pre.path.len()
            ==> ((#[trigger] pre.path[j]) is Empty ==> t.path[j] is Empty))
    &&& (forall|tier: Treasure| #[trigger] tier_in_path(t.path, tier) + tier_held_total(t.players, tier)
            == tier_in_path(pre.path, tier) + tier_held_total(pre.players, tier))
    &&& scores.len() == t.players.len()
    &&& (forall|i: int| 0 <= i < scores.len() ==> #[trigger] scores[i] as int == game_scores(t)[i])
}

/// The default board: 32 tiles, eight chips of each tier in ascending
/// blocks.
pub open spec fn default_path() -> Seq<Tile> {
    Seq::new(32, |i: int| Tile::Treasure(
        if i < 8 {
            Treasure::One
        } else if i < 16 {
            Treasure::Two
        } else if i < 24 {
            Treasure::Three
        } else {
            Treasure::Four
        },
    ))
}

fn build_default_path() -> (r: Vec<Tile>)
    ensures
        r@ == default_path(),
{
    let mut path: Vec<Tile> = Vec::new();
    let mut i: usize = 0;
    while i < 32
        invariant
            i <= 32,
            path@ =~= default_path().subrange(0, i as int),
        decreases 32 - i,
    {
        let tier = if i < 8 {
            Treasure::One
        } else if i < 16 {
            Treasure::Two
        } else if i < 24 {
            Treasure::Three
        } else {
            Treasure::Four
        };
        path.push(Tile::Treasure(tier));
        proof {
            assert(path@ =~= default_path().subrange(0, i + 1 as int));
        }
        i = i + 1;
    }
    proof {
        assert(default_path().subrange(0, 32) =~= default_path());
    }
    path
}

/// Relies on `rand::RngExt::random_range` over `1..=3`: a draw inside the
/// requested (non-empty) range.
#[verifier::external_body]
fn random_die() -> (r: u32)
    ensures
        1 <= r <= 3,
{
    let mut rng = rand::rng();
    rand::RngExt::random_range(&mut rng, 1..=3)
}

/// Relies on `rand::seq::SliceRandom::shuffle`: a uniformly random
/// permutation of the slice, so the same entries in some order.
#[verifier::external_body]
fn shuffle_seats(v: &mut Vec<usize>)
    ensures
        final(v)@.to_multiset() == old(v)@.to_multiset(),
{
    let mut rng = rand::rng();
    rand::seq::SliceRandom::shuffle(v.as_mut_slice(), &mut rng);
}

/// Largest strategy population the harness accepts: the per-trial credit
/// unit is `n!`, and `20!` is the largest factorial a machine word holds.
pub const MAX_SEATS: usize = 20;

pub open spec fn spec_factorial(n: nat) -> nat
    decreases n,
{
    if n == 0 {
        1
    } else {
        n * spec_factorial((n - 1) as nat)
    }
}

/// The seats in declaration order, before shuffling.
pub open spec fn identity_seats(n: int) -> Seq<usize> {
    Seq::new(n as nat, |i: int| i as usize)
}

/// Total credit handed out so far, over all strategies.
pub open spec fn sum_credits(s: Seq<u64>) -> int
    decreases s.len(),
{
    if s.len() == 0 {
        0
    } else {
        s[0] + sum_credits(s.drop_first())
    }
}

/// How many entries equal `v`.
pub open spec fn count_eq(s: Seq<u32>, v: u32) -> int
    decreases s.len(),
{
    if s.len() == 0 {
        0
    } else {
        (if s[0] == v { 1int } else { 0int }) + count_eq(s.drop_first(), v)
    }
}

proof fn lemma_factorial_pos(n: nat)
    ensures
        spec_factorial(n) >= 1,
    decreases n,
{
    if n > 0 {
        lemma_factorial_pos((n - 1) as nat);
        assert(n * spec_factorial((n - 1) as nat) >= 1) by (nonlinear_arith)
            requires
                n >= 1,
                spec_factorial((n - 1) as nat) >= 1,
        ;
    }
}

proof fn lemma_factorial_mono(a: nat, b: nat)
    requires
        a <= b,
    ensures
        spec_factorial(a) <= spec_factorial(b),
    decreases b,
{
    if a < b {
        lemma_factorial_mono(a, (b - 1) as nat);
        lemma_factorial_pos((b - 1) as nat);
        assert(b * spec_factorial((b - 1) as nat) >= spec_factorial((b - 1) as nat))
            by (nonlinear_arith)
            requires
                b >= 1,
                spec_factorial((b - 1) as nat) >= 0,
        ;
    }
}

/// Every population size from 1 to `n` divides `n!`: that is what lets a
/// trial's unit of credit split exactly over any number of tied winners.
proof fn lemma_factorial_divides(k: nat, n: nat)
    requires
        1 <= k <= n,
    ensures
        exists|m: int| 1 <= m && spec_factorial(n) == #[trigger] (k * m),
    decreases n,
{
    if k == n {
        let m = spec_factorial((n - 1) as nat) as int;
        lemma_factorial_pos((n - 1) as nat);
        assert(spec_factorial(n) == k * m);
    } else {
        lemma_factorial_divides(k, (n - 1) as nat);
        let m0 = choose|m: int| 1 <= m && spec_factorial((n - 1) as nat) == #[trigger] (k * m);
        let m = n * m0;
        assert(spec_factorial(n) == n * spec_factorial((n - 1) as nat));
        assert(n * (k * m0) == k * (n * m0)) by (nonlinear_arith);
        assert(n * spec_factorial((n - 1) as nat) == n * (k * m0)) by (nonlinear_arith)
            requires
                spec_factorial((n - 1) as nat) == k * m0,
        ;
        assert(1 <= n * m0) by (nonlinear_arith)
            requires
                n >= 1,
                m0 >= 1,
        ;
        assert(spec_factorial(n) == k * m);
    }
}

fn factorial_u64(n: usize) -> (r: u64)
    requires
        n <= MAX_SEATS,
    ensures
        r as int == spec_factorial(n as nat),
{
    let mut acc: u64 = 1;
    let mut i: usize = 0;
    while i < n
        invariant
            i <= n,
            n <= MAX_SEATS,
            acc as int == spec_factorial(i as nat),
        decreases n - i,
    {
        proof {
            lemma_factorial_mono((i + 1) as nat, 20);
            assert(spec_factorial(20) == 2432902008176640000) by {
                reveal_with_fuel(spec_factorial, 21);
            }
            assert(spec_factorial((i + 1) as nat) == ((i + 1) as int) * spec_factorial(i as nat));
            assert(acc as int * ((i + 1) as int) == spec_factorial((i + 1) as nat))
                by (nonlinear_arith)
                requires
                    acc as int == spec_factorial(i as nat),
                    spec_factorial((i + 1) as nat) == ((i + 1) as int) * spec_factorial(i as nat),
            ;
        }
        acc = acc * ((i + 1) as u64);
        i = i + 1;
    }
    acc
}

proof fn lemma_sum_zero(s: Seq<u64>)
    requires
        forall|i: int| 0 <= i < s.len() ==> #[trigger] s[i] == 0,
    ensures
        sum_credits(s) == 0,
    decreases s.len(),
{
    if s.len() > 0 {
        lemma_sum_zero(s.drop_first());
    }
}

proof fn lemma_sum_update(s: Seq<u64>, i: int, v: u64)
    requires
        0 <= i < s.len(),
    ensures
        sum_credits(s.update(i, v)) == sum_credits(s) - s[i] + v,
    decreases s.len(),
{
    if i == 0 {
        assert(s.update(0, v).drop_first() =~= s.drop_first());
    } else {
        assert(s.update(i, v).drop_first() =~= s.drop_first().update(i - 1, v));
        lemma_sum_update(s.drop_first(), i - 1, v);
    }
}

proof fn lemma_sum_nonneg(s: Seq<u64>)
    ensures
        sum_credits(s) >= 0,
    decreases s.len(),
{
    if s.len() > 0 {
        lemma_sum_nonneg(s.drop_first());
    }
}

/// With only non-negative credits, no entry exceeds the total.
proof fn lemma_sum_entry_le(s: Seq<u64>, i: int)
    requires
        0 <= i < s.len(),
    ensures
        s[i] <= sum_credits(s),
    decreases s.len(),
{
    if i == 0 {
        lemma_sum_nonneg(s.drop_first());
    } else {
        lemma_sum_entry_le(s.drop_first(), i - 1);
    }
}

proof fn lemma_count_push(s: Seq<u32>, x: u32, v: u32)
    ensures
        count_eq(s.push(x), v) == count_eq(s, v) + (if x == v { 1int } else { 0int }),
    decreases s.len(),
{
    if s.len() == 0 {
        assert(s.push(x).drop_first() =~= Seq::<u32>::empty());
        assert(s.push(x)[0] == x);
        assert(count_eq(Seq::<u32>::empty(), v) == 0);
    } else {
        assert(s.push(x).drop_first() =~= s.drop_first().push(x));
        assert(s.push(x)[0] == s[0]);
        lemma_count_push(s.drop_first(), x, v);
    }
}

proof fn lemma_count_bounds(s: Seq<u32>, v: u32)
    ensures
        0 <= count_eq(s, v) <= s.len(),
    decreases s.len(),
{
    if s.len() > 0 {
        lemma_count_bounds(s.drop_first(), v);
    }
}

/// An attained value is counted at least once.
proof fn lemma_count_witness(s: Seq<u32>, v: u32, w: int)
    requires
        0 <= w < s.len(),
        s[w] == v,
    ensures
        count_eq(s, v) >= 1,
    decreases s.len(),
{
    if w == 0 {
        lemma_count_bounds(s.drop_first(), v);
    } else {
        lemma_count_witness(s.drop_first(), v, w - 1);
    }
}

/// Counting over a longer prefix counts at least as much.
proof fn lemma_count_prefix_le(s: Seq<u32>, a: int, b: int, v: u32)
    requires
        0 <= a <= b <= s.len(),
    ensures
        count_eq(s.subrange(0, a), v) <= count_eq(s.subrange(0, b), v),
    decreases b - a,
{
    if a < b {
        lemma_count_prefix_le(s, a, b - 1, v);
        assert(s.subrange(0, b) =~= s.subrange(0, b - 1).push(s[b - 1]));
        lemma_count_push(s.subrange(0, b - 1), s[b - 1], v);
    }
}

/// A shuffled copy of the identity seats has one entry per seat, each a
/// valid seat number.
proof fn lemma_permutation_bounds(v: Seq<usize>, n: int)
    requires
        n >= 0,
        v.to_multiset() == identity_seats(n).to_multiset(),
    ensures
        v.len() == n,
        forall|k: int| 0 <= k < v.len() ==> (#[trigger] v[k]) < n,
{
    v.to_multiset_ensures();
    identity_seats(n).to_multiset_ensures();
    assert(v.len() == n);
    assert forall|k: int| 0 <= k < v.len() implies (#[trigger] v[k]) < n by {
        assert(v.contains(v[k]));
        assert(v.to_multiset().count(v[k]) > 0);
        assert(identity_seats(n).contains(v[k]));
        let j = choose|j: int| 0 <= j < n && identity_seats(n)[j] == v[k];
        assert(v[k] == j as usize);
    }
}

/// The strategies as seated by a seat order: seat `s` hosts `kinds[perm[s]]`.
pub open spec fn seat_lineup(kinds: Seq<Solver>, perm: Seq<usize>) -> Seq<Solver> {
    Seq::new(perm.len(), |s: int| kinds[perm[s] as int])
}

/// How many of the first `upto` seats both tie the best score `m` and are
/// attributed to strategy `i` by the seat order.
pub open spec fn winner_seats_to(perm: Seq<usize>, scores: Seq<u32>, m: u32, i: int, upto: int) -> int
    decreases upto,
{
    if upto <= 0 {
        0
    } else {
        winner_seats_to(perm, scores, m, i, upto - 1)
            + (if scores[upto - 1] == m && perm[upto - 1] as int == i { 1int } else { 0int })
    }
}

/// One evaluation trial, witnessed: a seat order `perm` (a rearrangement of
/// the seats in declaration order), a complete game of the seated
/// strategies whose final scores are `scores` with best score `m`, and per
/// strategy a credit growth of exactly `unit / k` for each of its seats
/// tied at `m`, where `k` seats are tied in all — so the trial hands out
/// exactly `unit` in total, split evenly across the tied seats.
pub open spec fn trial_witness(
    kinds: Seq<Solver>,
    unit: int,
    before: Seq<u64>,
    after: Seq<u64>,
    perm: Seq<usize>,
    scores: Seq<u32>,
    m: u32,
) -> bool {
    let n = kinds.len() as int;
    let k = count_eq(scores, m);
    &&& perm.to_multiset() == identity_seats(n).to_multiset()
    &&& (exists|rn: Seq<GameView>| #[trigger] game_run(seat_lineup(kinds, perm),
            initial_state(default_path(), n, DEFAULT_OXYGEN as int), rn)
            && scores.len() == rn.last().players.len()
            && (forall|q: int| 0 <= q < scores.len()
                    ==> #[trigger] scores[q] as int == game_scores(rn.last())[q]))
    &&& scores.len() == n
    &&& (exists|w: int| 0 <= w < n && scores[w] == m)
    &&& (forall|q: int| 0 <= q < n ==> #[trigger] scores[q] <= m)
    &&& before.len() == n
    &&& after.len() == n
    &&& k >= 1
    &&& k * (unit / k) == unit
    &&& (forall|i: int| 0 <= i < n ==> #[trigger] after[i] as int
            == before[i] + winner_seats_to(perm, scores, m, i, n) * (unit / k))
}

/// One evaluation trial, as seen from outside.
pub open spec fn trial_transition(kinds: Seq<Solver>, unit: int, before: Seq<u64>, after: Seq<u64>) -> bool {
    exists|perm: Seq<usize>, scores: Seq<u32>, m: u32|
        #[trigger] trial_witness(kinds, unit, before, after, perm, scores, m)
}

/// A whole evaluation: credits start at zero and each trial is one
/// `trial_transition`.
pub open spec fn tally_history(kinds: Seq<Solver>, unit: int, hist: Seq<Seq<u64>>) -> bool {
    &&& hist.len() >= 1
    &&& hist[0].len() == kinds.len()
    &&& (forall|i: int| 0 <= i < kinds.len() ==> #[trigger] hist[0][i] == 0)
    &&& (forall|t: int| 0 <= t < hist.len() - 1
            ==> trial_transition(kinds, unit, #[trigger] hist[t], hist[t + 1]))
}

/// The tally of an evaluation: per strategy, in declaration order, the
/// accumulated win credit, in units of `1 / trial_unit` per trial; a
/// strategy's win rate is `credits[i] / (trial_unit * trials)`. Keeping
/// the credit as exact integers lets the accounting be verified: every
/// trial hands out exactly `trial_unit` in total, split evenly over the
/// seats tied at the best score.
pub struct EvalTally {
    pub credits: Vec<u64>,
    pub trial_unit: u64,
    pub trials: u64,
}

/// One game: the state and one agent per seat.
pub struct Engine {
    state: DeepSea,
    players: Vec<Solver>,
}

impl Engine {
    /// The game state driven by this engine.
    pub closed spec fn game(self) -> GameView {
        self.state@
    }

    /// The seated agents.
    pub closed spec fn solvers(self) -> Seq<Solver> {
        self.players@
    }

    /// A well-formed engine drives a well-formed state with one agent per
    /// seat.
    pub open spec fn wf(self) -> bool {
        &&& self.game().wf()
        &&& self.solvers().len() == self.game().players.len()
    }

    /// A fresh game over `path` with the given agents seated in order.
    pub fn new(path: Vec<Tile>, players: Vec<Solver>) -> (r: Self)
        requires
            1 <= path@.len() <= MAX_PATH_LEN,
            players@.len() >= 1,
        ensures
            r.wf(),
            r.game() == initial_state(path@, players@.len() as int, DEFAULT_OXYGEN as int),
            r.solvers() == players@,
    {
        let n = players.len();
        Engine { state: DeepSea::new(path, n), players }
    }

    /// A fresh game over the default 32-tile board.
    pub fn make_default_game(players: Vec<Solver>) -> (r: Self)
        requires
            players@.len() >= 1,
        ensures
            r.wf(),
            r.game() == initial_state(default_path(), players@.len() as int, DEFAULT_OXYGEN as int),
            r.solvers() == players@,
    {
        let path = build_default_path();
        Self::new(path, players)
    }

    /// Read access to the driven state.
    pub fn state(&self) -> (r: &DeepSea)
        ensures
            r@ == self.game(),
    {
        &self.state
    }

    /// One movement distance: the sum of two independent dice, in 2..=6.
    fn roll_dice() -> (r: u32)
        ensures
            2 <= r <= 6,
    {
        let d1 = random_die();
        let d2 = random_die();
        d1 + d2
    }

    /// One turn of the active player: a returned player is skipped; anyone
    /// else burns one unit of oxygen, moves by the dice in the direction
    /// their agent picks (forced upward once they have turned), resolves
    /// the tile they land on, and hands the turn on. Never errs: agents
    /// only take from loaded tiles and only the unreturned are moved.
    pub fn take_turn(&mut self) -> (r: DeepSeaResult<()>)
        requires
            old(self).wf(),
        ensures
            final(self).wf(),
            r is Ok,
            final(self).solvers().len() == old(self).solvers().len(),
            final(self).game().players.len() == old(self).game().players.len(),
            final(self).game().path.len() == old(self).game().path.len(),
            final(self).game().turn
                == wrap_next(old(self).game().turn, old(self).game().players.len() as int),
            old(self).game().active().pos is Returned
                ==> final(self).game() == turn_transition(old(self).game()),
            !(old(self).game().active().pos is Returned) ==> ({
                &&& final(self).game().oxygen == oxygen_transition(old(self).game()).oxygen
                &&& (forall|j: int| 0 <= j < old(self).game().players.len()
                        ==> ((#[trigger] old(self).game().players[j]).pos is Returned
                            ==> final(self).game().players[j].pos is Returned))
            }),
            // a turn touches nothing but the active seat and its tile
            (forall|j: int| 0 <= j < old(self).game().players.len() && j != old(self).game().turn
                ==> #[trigger] final(self).game().players[j] == old(self).game().players[j]),
            (forall|j: int| 0 <= j < old(self).game().path.len()
                ==> ((#[trigger] old(self).game().path[j]) is Empty
                    ==> final(self).game().path[j] is Empty)),
            // every tier of chips is conserved between board and hands: a
            // pickup moves one chip from its tile into exactly one haul
            (forall|tier: Treasure|
                #[trigger] tier_in_path(final(self).game().path, tier)
                        + tier_held_total(final(self).game().players, tier)
                    == tier_in_path(old(self).game().path, tier)
                        + tier_held_total(old(self).game().players, tier)),
            // the turn is one legal engine step: a skip, or an acting turn
            // with some dice roll and agent-permitted choices
            final(self).solvers() == old(self).solvers(),
            turn_step(old(self).solvers(), old(self).game(), final(self).game()),
            old(self).game().done() ==> final(self).game().done(),
    {
        let ghost pre = self.state@;
        let ghost solvers0 = self.players@;
        let ghost n = pre.players.len() as int;
        let player_idx = self.state.player_idx();
        let pos = self.state.players()[player_idx].position();
        proof {
            lemma_turn_wrap(pre.turn, n);
        }
        match pos {
            Position::ReturnedToSubmarine => {
                self.state.next_player();
                return Ok(());
            }
            _ => {}
        }
        self.state.take_oxygen();
        let ghost s1 = self.state@;
        let direction = if self.state.players()[player_idx].direction() == DiveDirection::Down {
            self.players[player_idx].choose_direction(&self.state, player_idx)
        } else {
            DiveDirection::Up
        };
        let dice_roll = Self::roll_dice();
        proof {
            lemma_move_transition_frame(s1, direction, dice_roll as int);
        }
        self.state.move_player(direction, dice_roll)?;
        let ghost s2 = self.state@;
        let ghost mut gdec = TreasureDecision::Ignore;
        let pos2 = self.state.players()[player_idx].position();
        match pos2 {
            Position::Diving(_) => {
                let decision = self.players[player_idx].take_treasure(&self.state, player_idx);
                proof {
                    gdec = decision;
                }
                self.state.take_treasure(decision)?;
            }
            _ => {}
        }
        let ghost s3 = self.state@;
        self.state.next_player();
        proof {
            let d = dice_roll as int;
            assert(forall|j: int| 0 <= j < n
                ==> ((#[trigger] pre.players[j]).pos is Returned
                    ==> s2.players[j].pos is Returned));
            assert(forall|j: int| 0 <= j < n
                ==> (#[trigger] s3.players[j]).pos == s2.players[j].pos);
            if pre.done() {
                assert(pre.oxygen == 0);
                assert(self.state@.done());
            }
            assert(self.players@ =~= solvers0);
            assert(turn_choices_ok(solvers0, pre, direction, d, gdec));
            assert(self.state@ == acting_outcome(pre, direction, d, gdec));
            assert(turn_step(solvers0, pre, self.state@));
            assert forall|tier: Treasure|
                #[trigger] tier_in_path(self.state@.path, tier)
                        + tier_held_total(self.state@.players, tier)
                    == tier_in_path(pre.path, tier) + tier_held_total(pre.players, tier) by {
                assert(game_step(pre, s1));
                lemma_treasures_conserved(pre, s1, tier);
                assert(game_step(s1, s2));
                lemma_treasures_conserved(s1, s2, tier);
                if s2.active().pos is Diving {
                    assert(game_step(s2, s3));
                    lemma_treasures_conserved(s2, s3, tier);
                } else {
                    assert(s3 == s2);
                }
                assert(game_step(s3, self.state@));
                lemma_treasures_conserved(s3, self.state@, tier);
            }
        }
        Ok(())
    }

    /// Scores the driven game: a returned player scores their haul through
    /// the shared decaying assigner, in seat order; everyone else scores 0.
    pub fn score_game(&self) -> (scores: Vec<u32>)
        requires
            self.wf(),
        ensures
            scores@.len() == self.game().players.len(),
            forall|i: int| 0 <= i < scores@.len()
                ==> #[trigger] scores@[i] as int == game_scores(self.game())[i],
    {
        score_state(&self.state)
    }
}

/// Scores any game state: a returned player scores their haul through the
/// shared decaying assigner, in seat order; everyone else scores 0.
pub fn score_state(state: &DeepSea) -> (scores: Vec<u32>)
    requires
        state@.wf(),
    ensures
        scores@.len() == state@.players.len(),
        forall|i: int| 0 <= i < scores@.len()
            ==> #[trigger] scores@[i] as int == game_scores(state@)[i],
{
    let ghost gv = state@;
    let mut assigner = TreasureValueAssigner::new();
    let n = state.players().len();
    let mut scores: Vec<u32> = Vec::new();
    let mut i: usize = 0;
    proof {
        assert(gv.players.skip(0) =~= gv.players);
        assert(Seq::<u32>::empty().map_values(|x: u32| x as int) =~= Seq::<int>::empty());
        assert(Seq::<int>::empty() + scores_from(gv.players, fresh_counts()).0
            =~= scores_from(gv.players, fresh_counts()).0);
    }
    while i < n
        invariant
            state@.wf(),
            gv == state@,
            n == gv.players.len(),
            i <= n,
            counts_wf(assigner@),
            scores@.len() == i as int,
            scores_from(gv.players, fresh_counts()).0
                == scores@.map_values(|x: u32| x as int)
                    + scores_from(gv.players.skip(i as int), assigner@).0,
            scores_from(gv.players, fresh_counts()).1
                == scores_from(gv.players.skip(i as int), assigner@).1,
        decreases n - i,
    {
        let ghost c = assigner@;
        let ghost tail = gv.players.skip(i as int);
        proof {
            assert(tail[0] == gv.players[i as int]);
            assert(tail.drop_first() =~= gv.players.skip(i + 1 as int));
        }
        let p = &state.players()[i];
        let sc = match p.position() {
            Position::ReturnedToSubmarine => {
                proof {
                    lemma_held_entry_le_total(gv.players, i as int);
                    lemma_treasure_tiles_bounds(gv.path);
                    lemma_haul_value_bounds(gv.players[i as int].held, c);
                }
                score_haul(&mut assigner, p.held_treasures())
            }
            _ => 0u32,
        };
        proof {
            let f = |x: u32| x as int;
            assert(scores@.push(sc).map_values(f)
                =~= scores@.map_values(f).push(sc as int));
            assert(scores@.map_values(f).push(sc as int)
                =~= scores@.map_values(f) + seq![sc as int]);
            assert((scores@.map_values(f) + seq![sc as int])
                    + scores_from(gv.players.skip(i + 1 as int), assigner@).0
                =~= scores@.map_values(f)
                    + (seq![sc as int] + scores_from(gv.players.skip(i + 1 as int), assigner@).0));
        }
        scores.push(sc);
        i = i + 1;
    }
    proof {
        assert(gv.players.skip(n as int) =~= Seq::<PlayerV>::empty());
        lemma_scores_len(gv.players, fresh_counts());
        assert(forall|q: int| 0 <= q < n
            ==> #[trigger] game_scores(gv)[q] == scores@.map_values(|x: u32| x as int)[q]);
    }
    scores
}

impl Engine {
    /// Plays the driven game to its end and reports the final scores. The
    /// game always terminates — oxygen is finite and every acting turn
    /// burns some — and no turn errs, so the scores are always delivered.
    pub fn play_one_round(self) -> (r: DeepSeaResult<Vec<u32>>)
        requires
            self.wf(),
        ensures
            r is Ok,
            (r matches Ok(sc) ==> sc@.len() == self.game().players.len()),
            (r matches Ok(sc)
                ==> exists|t: GameView| #[trigger] round_outcome(self.game(), t, sc@)),
            // the scores are read off the last state of an actual run of
            // engine turns: unfinished at every step but the last, so they
            // are those of the run's first finished state, and no turn is
            // granted once the game is finished
            (r matches Ok(sc) ==> exists|run: Seq<GameView>|
                #[trigger] game_run(self.solvers(), self.game(), run)
                    && sc@.len() == run.last().players.len()
                    && (forall|i: int| 0 <= i < sc@.len()
                            ==> #[trigger] sc@[i] as int == game_scores(run.last())[i])),
    {
        let ghost orig = self.game();
        let ghost solvers0 = self.solvers();
        let mut this = self;
        let ghost mut run: Seq<GameView> = seq![orig];
        while !this.state.done()
            invariant
                this.wf(),
                this.solvers() == solvers0,
                this.game().players.len() == orig.players.len(),
                this.game().path.len() == orig.path.len(),
                forall|j: int| 0 <= j < orig.players.len()
                    ==> ((#[trigger] orig.players[j]).pos is Returned
                        ==> this.game().players[j].pos is Returned),
                forall|j: int| 0 <= j < orig.path.len()
                    ==> ((#[trigger] orig.path[j]) is Empty
                        ==> this.game().path[j] is Empty),
                forall|tier: Treasure|
                    #[trigger] tier_in_path(this.game().path, tier)
                            + tier_held_total(this.game().players, tier)
                        == tier_in_path(orig.path, tier) + tier_held_total(orig.players, tier),
                run.len() >= 1,
                run[0] == orig,
                run.last() == this.game(),
                forall|i: int| 0 <= i < run.len() - 1
                    ==> !(#[trigger] run[i]).done() && turn_step(solvers0, run[i], run[i + 1]),
            decreases this.game().oxygen, skip_measure(this.game()),
        {
            let ghost pre = this.game();
            let res = this.take_turn();
            proof {
                if pre.active().pos is Returned {
                    lemma_skip_measure_decreases(pre);
                }
                run = run.push(this.game());
            }
            match res {
                Ok(()) => {}
                Err(e) => {
                    return Err(e);
                }
            }
        }
        let scores = this.score_game();
        let ghost sc = scores@;
        let out: DeepSeaResult<Vec<u32>> = Ok(scores);
        proof {
            assert(round_outcome(orig, this.game(), sc));
            assert(exists|t: GameView| #[trigger] round_outcome(orig, t, sc));
            assert(game_run(solvers0, orig, run)
                && sc.len() == run.last().players.len()
                && (forall|i: int| 0 <= i < sc.len()
                        ==> #[trigger] sc[i] as int == game_scores(run.last())[i]));
            assert(exists|rn: Seq<GameView>| #[trigger] game_run(solvers0, orig, rn)
                && sc.len() == rn.last().players.len()
                && (forall|i: int| 0 <= i < sc.len()
                        ==> #[trigger] sc[i] as int == game_scores(rn.last())[i]));
            assert(out matches Ok(v) ==> v@ == sc);
        }
        out
    }

    /// Compares strategies over `iterations` independent trials. Each trial
    /// seats the strategies in a fresh random order, plays one game on the
    /// default board, and hands out `trial_unit = n!` of win credit, split
    /// evenly over the seats tied at the best score and attributed back to
    /// the strategies through the recorded seat order — so turn-order bias
    /// cancels out. Every trial hands out exactly one unit of mass, and no
    /// strategy's rate can leave `[0, 1]`.
    pub fn evaluate_solvers(kinds: &Vec<Solver>, iterations: u64) -> (r: DeepSeaResult<EvalTally>)
        requires
            1 <= kinds@.len() <= MAX_SEATS,
            iterations as int * spec_factorial(kinds@.len() as nat) <= u64::MAX,
        ensures
            r is Ok,
            (r matches Ok(t) ==> {
                &&& t.credits@.len() == kinds@.len()
                &&& t.trial_unit as int == spec_factorial(kinds@.len() as nat)
                &&& t.trials == iterations
                &&& sum_credits(t.credits@) == iterations as int * t.trial_unit as int
                &&& (forall|i: int| 0 <= i < t.credits@.len()
                        ==> #[trigger] t.credits@[i] as int
                            <= iterations as int * t.trial_unit as int)
            }),
            // the credits are the outcome of `iterations` actual trials,
            // each a shuffled seating, a complete game, and an even split
            // of one unit over the seats tied at the best score
            (r matches Ok(t) ==> exists|hist: Seq<Seq<u64>>|
                #[trigger] tally_history(kinds@, t.trial_unit as int, hist)
                    && hist.len() == iterations + 1
                    && hist.last() == t.credits@),
    {
        let n = kinds.len();
        let unit = factorial_u64(n);
        proof {
            lemma_factorial_pos(n as nat);
        }
        let mut credits: Vec<u64> = Vec::new();
        let mut z: usize = 0;
        while z < n
            invariant
                z <= n,
                credits@.len() == z as int,
                forall|i: int| 0 <= i < z as int ==> #[trigger] credits@[i] == 0,
            decreases n - z,
        {
            credits.push(0);
            z = z + 1;
        }
        proof {
            lemma_sum_zero(credits@);
        }
        let ghost mut hist: Seq<Seq<u64>> = seq![credits@];
        let mut trial: u64 = 0;
        while trial < iterations
            invariant
                n == kinds@.len(),
                1 <= n <= MAX_SEATS,
                unit as int == spec_factorial(n as nat),
                unit >= 1,
                iterations as int * unit as int <= u64::MAX,
                trial <= iterations,
                credits@.len() == n as int,
                sum_credits(credits@) == trial as int * unit as int,
                hist.len() == trial as int + 1,
                hist[0].len() == n as int,
                forall|i: int| 0 <= i < n as int ==> #[trigger] hist[0][i] == 0,
                hist.last() == credits@,
                forall|t: int| 0 <= t < hist.len() - 1
                    ==> trial_transition(kinds@, unit as int, #[trigger] hist[t], hist[t + 1]),
            decreases iterations - trial,
        {
            let ghost base_credits = credits@;
            let mut idx_map: Vec<usize> = Vec::new();
            let mut s0: usize = 0;
            while s0 < n
                invariant
                    s0 <= n,
                    idx_map@.len() == s0 as int,
                    forall|i: int| 0 <= i < s0 as int ==> #[trigger] idx_map@[i] == i as usize,
                decreases n - s0,
            {
                idx_map.push(s0);
                s0 = s0 + 1;
            }
            proof {
                assert(idx_map@ =~= identity_seats(n as int));
            }
            shuffle_seats(&mut idx_map);
            proof {
                lemma_permutation_bounds(idx_map@, n as int);
            }
            let mut seated: Vec<Solver> = Vec::new();
            let mut s1: usize = 0;
            while s1 < n
                invariant
                    s1 <= n,
                    seated@.len() == s1 as int,
                    n == kinds@.len(),
                    idx_map@.len() == n as int,
                    forall|q: int| 0 <= q < n as int ==> (#[trigger] idx_map@[q]) < n,
                    forall|q: int| 0 <= q < s1 as int
                        ==> #[trigger] seated@[q] == kinds@[idx_map@[q] as int],
                decreases n - s1,
            {
                seated.push(kinds[idx_map[s1]]);
                s1 = s1 + 1;
            }
            proof {
                assert(seated@ =~= seat_lineup(kinds@, idx_map@));
            }
            let eng = Engine::make_default_game(seated);
            let ghost start = eng.game();
            let ghost lineup = eng.solvers();
            let played = eng.play_one_round();
            let scores = match played {
                Ok(sc) => sc,
                Err(e) => {
                    return Err(e);
                }
            };
            proof {
                let t = choose|t: GameView| #[trigger] round_outcome(start, t, scores@);
                assert(scores@.len() == n as int);
            }
            let ghost rn0 = choose|rn: Seq<GameView>| #[trigger] game_run(lineup, start, rn)
                && scores@.len() == rn.last().players.len()
                && (forall|i: int| 0 <= i < scores@.len()
                        ==> #[trigger] scores@[i] as int == game_scores(rn.last())[i]);
            let mut max_sc: u32 = scores[0];
            let ghost mut wit: int = 0;
            let mut s2: usize = 1;
            while s2 < n
                invariant
                    1 <= s2 <= n,
                    scores@.len() == n as int,
                    0 <= wit < s2 as int,
                    scores@[wit] == max_sc,
                    forall|q: int| 0 <= q < s2 as int ==> #[trigger] scores@[q] <= max_sc,
                decreases n - s2,
            {
                let x = scores[s2];
                if x > max_sc {
                    max_sc = x;
                    proof {
                        wit = s2 as int;
                    }
                }
                s2 = s2 + 1;
            }
            let mut k: usize = 0;
            let mut s3: usize = 0;
            while s3 < n
                invariant
                    s3 <= n,
                    scores@.len() == n as int,
                    k as int == count_eq(scores@.subrange(0, s3 as int), max_sc),
                    k <= s3,
                decreases n - s3,
            {
                proof {
                    assert(scores@.subrange(0, s3 + 1 as int)
                        =~= scores@.subrange(0, s3 as int).push(scores@[s3 as int]));
                    lemma_count_push(scores@.subrange(0, s3 as int), scores@[s3 as int], max_sc);
                }
                if scores[s3] == max_sc {
                    k = k + 1;
                }
                s3 = s3 + 1;
            }
            proof {
                assert(scores@.subrange(0, n as int) =~= scores@);
                lemma_count_witness(scores@, max_sc, wit);
                lemma_factorial_divides(k as nat, n as nat);
            }
            let ghost m = choose|m: int| 1 <= m && spec_factorial(n as nat) == #[trigger] ((k as nat) * m);
            let share = unit / (k as u64);
            proof {
                vstd::arithmetic::div_mod::lemma_div_multiples_vanish(m, k as int);
                assert((k as int) * m == unit as int);
                assert(share as int == m);
                assert((k as int) * (share as int) == unit as int);
                assert(share as int <= unit as int) by (nonlinear_arith)
                    requires
                        (k as int) * (share as int) == unit as int,
                        k >= 1,
                        share >= 0,
                ;
            }
            let ghost base_sum = sum_credits(credits@);
            let mut s4: usize = 0;
            while s4 < n
                invariant
                    s4 <= n,
                    n == kinds@.len(),
                    credits@.len() == n as int,
                    base_credits.len() == n as int,
                    scores@.len() == n as int,
                    idx_map@.len() == n as int,
                    forall|q: int| 0 <= q < n as int ==> (#[trigger] idx_map@[q]) < n,
                    k as int == count_eq(scores@, max_sc),
                    1 <= k <= n,
                    (k as int) * (share as int) == unit as int,
                    share <= unit,
                    unit >= 1,
                    trial < iterations,
                    iterations as int * unit as int <= u64::MAX,
                    base_sum == trial as int * unit as int,
                    sum_credits(credits@)
                        == base_sum + count_eq(scores@.subrange(0, s4 as int), max_sc) * share,
                    forall|i: int| 0 <= i < n as int ==> #[trigger] credits@[i] as int
                        == base_credits[i]
                            + winner_seats_to(idx_map@, scores@, max_sc, i, s4 as int)
                                * (share as int),
                decreases n - s4,
            {
                proof {
                    assert(scores@.subrange(0, s4 + 1 as int)
                        =~= scores@.subrange(0, s4 as int).push(scores@[s4 as int]));
                    lemma_count_push(scores@.subrange(0, s4 as int), scores@[s4 as int], max_sc);
                    assert(forall|i: int|
                        #[trigger] winner_seats_to(idx_map@, scores@, max_sc, i, s4 + 1 as int)
                            == winner_seats_to(idx_map@, scores@, max_sc, i, s4 as int)
                                + (if scores@[s4 as int] == max_sc && idx_map@[s4 as int] as int == i {
                                    1int
                                } else {
                                    0int
                                }));
                }
                if scores[s4] == max_sc {
                    let i = idx_map[s4];
                    let ghost pre_credits = credits@;
                    let ghost c_pre = count_eq(scores@.subrange(0, s4 as int), max_sc);
                    let ghost w_pre = winner_seats_to(idx_map@, scores@, max_sc, i as int, s4 as int);
                    proof {
                        assert((w_pre + 1) * (share as int)
                            == w_pre * (share as int) + share as int) by (nonlinear_arith);
                        lemma_sum_entry_le(credits@, i as int);
                        assert(scores@.subrange(0, n as int) =~= scores@);
                        lemma_count_prefix_le(scores@, s4 + 1 as int, n as int, max_sc);
                        lemma_count_bounds(scores@.subrange(0, s4 as int), max_sc);
                        assert((c_pre + 1) * (share as int)
                            == c_pre * (share as int) + share as int) by (nonlinear_arith);
                        // the credit this entry can already hold, plus one more
                        // share, stays under the grand total
                        assert(c_pre + 1 <= k as int);
                        assert(c_pre * share as int + share as int <= (k as int) * (share as int))
                            by (nonlinear_arith)
                            requires
                                c_pre + 1 <= k as int,
                                share as int >= 0,
                        ;
                        assert((trial as int + 1) * (unit as int)
                            == trial as int * unit as int + unit as int) by (nonlinear_arith);
                        assert((trial as int + 1) * (unit as int)
                            <= iterations as int * unit as int) by (nonlinear_arith)
                            requires
                                trial as int + 1 <= iterations as int,
                                unit as int >= 0,
                        ;
                        assert(c_pre * share as int >= 0) by (nonlinear_arith)
                            requires
                                c_pre >= 0,
                                share as int >= 0,
                        ;
                    }
                    let cur = credits[i];
                    credits[i] = cur + share;
                    proof {
                        lemma_sum_update(pre_credits, i as int, (cur + share) as u64);
                    }
                }
                s4 = s4 + 1;
            }
            proof {
                assert(scores@.subrange(0, n as int) =~= scores@);
                assert(sum_credits(credits@) == base_sum + (k as int) * (share as int));
                assert((trial as int + 1) * (unit as int)
                    == trial as int * unit as int + unit as int) by (nonlinear_arith);
                assert(unit as int / (k as int) == share as int);
                assert(game_run(seat_lineup(kinds@, idx_map@),
                    initial_state(default_path(), n as int, DEFAULT_OXYGEN as int), rn0)
                    && scores@.len() == rn0.last().players.len()
                    && (forall|q: int| 0 <= q < scores@.len()
                            ==> #[trigger] scores@[q] as int == game_scores(rn0.last())[q]));
                assert(trial_witness(kinds@, unit as int, base_credits, credits@,
                    idx_map@, scores@, max_sc));
                assert(trial_transition(kinds@, unit as int, base_credits, credits@));
                hist = hist.push(credits@);
            }
            trial = trial + 1;
        }
        proof {
            assert forall|i: int| 0 <= i < credits@.len()
                implies #[trigger] credits@[i] as int <= iterations as int * unit as int by {
                lemma_sum_entry_le(credits@, i);
            }
            assert(tally_history(kinds@, unit as int, hist));
            assert(exists|h: Seq<Seq<u64>>| #[trigger] tally_history(kinds@, unit as int, h)
                && h.len() == iterations + 1
                && h.last() == credits@);
        }
        Ok(EvalTally { credits, trial_unit: unit, trials: iterations })
    }

    /// A multi-round session is not part of this library's game: the
    /// request is rejected as unsupported and the engine is untouched.
    pub fn play_three_rounds(&mut self) -> (r: DeepSeaResult<()>)
        ensures
            r == Err::<(), DeepSeaError>(DeepSeaError::UnsupportedMode),
            *final(self) == *old(self),
    {
        Err(DeepSeaError::UnsupportedMode)
    }
}

} // verus!
