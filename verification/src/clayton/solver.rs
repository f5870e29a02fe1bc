//! Two heuristic agents and the forecast oracle behind the second one.
//!
//! The oracle plays the rest of the game forward on a disposable copy under
//! a fixed policy — waiting players descend, divers surface, always with the
//! expected dice distance, and nobody picks anything up — and marks every
//! seat that ties for the best score of that continuation. Each marked seat
//! carries win mass `1 / k` where `k` seats are marked, the rest carry 0,
//! so the forecast's mass always sums to exactly 1.

use vstd::prelude::*;

use crate::deep_sea::{
    diving_index, lemma_held_entry_le_total, lemma_move_transition_frame,
    lemma_skip_measure_decreases, lemma_treasure_tiles_bounds, lemma_turn_wrap, move_transition,
    oxygen_transition, skip_measure, turn_transition, DeepSea, DiveDirection, GameView,
    Player, PlayerV, Position, Tile, TreasureDecision, MAX_PATH_LEN,
};
use crate::treasure::Treasure;

verus! {

/// The oracle's per-chip estimate of a tier's worth, in half points: each
/// tier's expected scored value doubled to stay integral.
pub open spec fn clayton_value(t: Treasure) -> int {
    match t {
        Treasure::One => 3,
        Treasure::Two => 11,
        Treasure::Three => 19,
        Treasure::Four => 27,
    }
}

/// Estimated worth of a haul, in half points.
pub open spec fn estimate_haul(held: Seq<Treasure>) -> int
    decreases held.len(),
{
    if held.len() == 0 {
        0
    } else {
        clayton_value(held[0]) + estimate_haul(held.drop_first())
    }
}

/// A seat's estimated score: only a player back at the submarine scores.
pub open spec fn oracle_score(p: PlayerV) -> int {
    if p.pos is Returned {
        estimate_haul(p.held)
    } else {
        0
    }
}

/// The best estimated score over all seats.
pub open spec fn max_oracle_score(players: Seq<PlayerV>) -> int
    decreases players.len(),
{
    if players.len() <= 1 {
        oracle_score(players[0])
    } else {
        let m = max_oracle_score(players.drop_last());
        let x = oracle_score(players.last());
        if x > m {
            x
        } else {
            m
        }
    }
}

/// The direction the oracle forces: waiting players descend, divers surface.
pub open spec fn oracle_dir(p: PlayerV) -> DiveDirection {
    if p.pos is Waiting {
        DiveDirection::Down
    } else {
        DiveDirection::Up
    }
}

/// Distance the oracle moves everyone: the expected roll of two dice.
pub open spec fn oracle_distance() -> int {
    4
}

/// One turn of the oracle's simplified continuation: a returned player is
/// skipped; anyone else burns oxygen and is force-moved; the turn advances.
pub open spec fn oracle_step(s: GameView) -> GameView {
    if s.active().pos is Returned {
        turn_transition(s)
    } else {
        turn_transition(move_transition(oxygen_transition(s), oracle_dir(s.active()), oracle_distance()))
    }
}

/// The state the oracle's continuation ends in.
pub open spec fn oracle_terminal(s: GameView) -> GameView
    decreases s.oxygen, skip_measure(s),
    when s.wf()
    via oracle_terminal_decreases
{
    if s.done() {
        s
    } else {
        oracle_terminal(oracle_step(s))
    }
}

#[via_fn]
proof fn oracle_terminal_decreases(s: GameView) {
    if !s.done() {
        lemma_oracle_step_wf(s);
        if s.active().pos is Returned {
            lemma_skip_measure_decreases(s);
        }
    }
}

/// One oracle turn preserves well-formedness, never grows the oxygen, and
/// burns one unit of it whenever the active player still has to act.
pub proof fn lemma_oracle_step_wf(s: GameView)
    requires
        s.wf(),
        !s.done(),
    ensures
        oracle_step(s).wf(),
        oracle_step(s).players.len() == s.players.len(),
        oracle_step(s).path == s.path,
        oracle_step(s).oxygen <= s.oxygen,
        !(s.active().pos is Returned) ==> oracle_step(s).oxygen == s.oxygen - 1,
        s.active().pos is Returned ==> oracle_step(s) == turn_transition(s),
{
    let n = s.players.len() as int;
    lemma_turn_wrap(s.turn, n);
    if !(s.active().pos is Returned) {
        let s1 = oxygen_transition(s);
        lemma_move_transition_frame(s1, oracle_dir(s.active()), oracle_distance());
    }
}

/// The oracle's continuation ends well-formed and finished, with the same
/// seats and the same path and hauls: the oracle never picks anything up.
pub proof fn lemma_oracle_terminal_props(s: GameView)
    requires
        s.wf(),
    ensures
        oracle_terminal(s).wf(),
        oracle_terminal(s).done(),
        oracle_terminal(s).players.len() == s.players.len(),
        oracle_terminal(s).path == s.path,
    decreases s.oxygen, skip_measure(s),
{
    if !s.done() {
        lemma_oracle_step_wf(s);
        if s.active().pos is Returned {
            lemma_skip_measure_decreases(s);
        }
        lemma_oracle_terminal_props(oracle_step(s));
    }
}

/// The forecast: seat `i` is marked iff it ties for the best score of the
/// oracle's continuation.
pub open spec fn forecast_flags(s: GameView) -> Seq<bool> {
    let t = oracle_terminal(s);
    Seq::new(t.players.len(), |i: int| oracle_score(t.players[i]) == max_oracle_score(t.players))
}

/// The best score is attained, and bounds every seat's score.
pub proof fn lemma_max_witness(players: Seq<PlayerV>)
    requires
        players.len() >= 1,
    ensures
        exists|i: int| 0 <= i < players.len()
            && oracle_score(#[trigger] players[i]) == max_oracle_score(players),
        forall|i: int| 0 <= i < players.len()
            ==> oracle_score(#[trigger] players[i]) <= max_oracle_score(players),
    decreases players.len(),
{
    if players.len() == 1 {
        assert(oracle_score(players[0]) == max_oracle_score(players));
    } else {
        lemma_max_witness(players.drop_last());
        let sub = players.drop_last();
        assert(forall|i: int| 0 <= i < sub.len() ==> #[trigger] players[i] == sub[i]);
        if oracle_score(players.last()) > max_oracle_score(sub) {
            assert(oracle_score(players[players.len() - 1]) == max_oracle_score(players));
        } else {
            let w = choose|i: int| 0 <= i < sub.len()
                && oracle_score(#[trigger] sub[i]) == max_oracle_score(sub);
            assert(oracle_score(players[w]) == max_oracle_score(players));
        }
    }
}

/// The forecast is a function of the hypothetical state alone: two
/// structurally identical states get identical forecasts.
pub proof fn lemma_forecast_deterministic(a: GameView, b: GameView)
    requires
        a == b,
    ensures
        forecast_flags(a) == forecast_flags(b),
{
}

/// The forecast's mass sums to one: it marks one flag per seat and at
/// least one seat is marked, so splitting mass 1 over the `k >= 1` marked
/// seats always distributes exactly 1.
pub proof fn lemma_forecast_mass(s: GameView)
    requires
        s.wf(),
    ensures
        forecast_flags(s).len() == s.players.len(),
        exists|i: int| 0 <= i < forecast_flags(s).len() && forecast_flags(s)[i],
{
    lemma_oracle_terminal_props(s);
    let t = oracle_terminal(s);
    lemma_max_witness(t.players);
    let w = choose|i: int| 0 <= i < t.players.len()
        && oracle_score(#[trigger] t.players[i]) == max_oracle_score(t.players);
    assert(forecast_flags(s)[w]);
}

/// Whether a seat strictly leads every other seat's estimated haul,
/// returned players or not: a "winning as we stand" check on holdings.
pub open spec fn clayton_ahead(s: GameView, idx: int) -> bool {
    forall|j: int| 0 <= j < s.players.len() && j != idx
        ==> estimate_haul((#[trigger] s.players[j]).held) < estimate_haul(s.players[idx].held)
}

/// The grab-one-and-come-home direction rule shared by both agents.
pub open spec fn clayton_direction(s: GameView, i: int) -> DiveDirection {
    let p = s.players[i];
    if p.pos is Waiting {
        DiveDirection::Down
    } else if p.held.len() > 0 {
        DiveDirection::Up
    } else {
        DiveDirection::Down
    }
}

/// Whether the tile holds a chip strictly above the lowest tier.
pub open spec fn above_lowest(t: Tile) -> bool {
    match t {
        Tile::Treasure(x) => !(x is One),
        Tile::Empty => false,
    }
}

/// The baseline pickup rule: take only while empty-handed and on a chip
/// strictly above the lowest tier.
pub open spec fn clayton_take(s: GameView, i: int) -> TreasureDecision {
    let p = s.players[i];
    let tile = s.path[diving_index(p.pos)];
    if p.held.len() == 0 && above_lowest(tile) {
        TreasureDecision::Take
    } else {
        TreasureDecision::Ignore
    }
}

/// The gambling pickup rule: as the baseline, or any non-bare tile when the
/// forecast does not mark the active seat as tied for the win.
pub open spec fn clayton2_take(s: GameView, i: int) -> TreasureDecision {
    let p = s.players[i];
    let tile = s.path[diving_index(p.pos)];
    if (p.held.len() == 0 && above_lowest(tile))
        || (!forecast_flags(s)[s.turn] && !(tile is Empty)) {
        TreasureDecision::Take
    } else {
        TreasureDecision::Ignore
    }
}

/// The grab-one-and-come-home agent.
#[derive(Clone, Copy, Default)]
pub struct ClaytonSolver {}

impl ClaytonSolver {
    /// The oracle's per-chip estimate, in half points (doubled to stay
    /// integral).
    pub fn treasure_value(treasure: Treasure) -> (r: u32)
        ensures
            r as int == clayton_value(treasure),
    {
        match treasure {
            Treasure::One => 3,
            Treasure::Two => 11,
            Treasure::Three => 19,
            Treasure::Four => 27,
        }
    }

    /// Estimated worth of one player's haul, in half points.
    pub fn player_score(player: &Player) -> (r: u64)
        requires
            player@.held.len() <= MAX_PATH_LEN,
        ensures
            r as int == estimate_haul(player@.held),
    {
        let held = player.held_treasures();
        let n = held.len();
        let mut acc: u64 = 0;
        let mut i: usize = 0;
        while i < n
            invariant
                i <= n,
                n == player@.held.len(),
                n <= MAX_PATH_LEN,
                held@ == player@.held,
                acc as int == estimate_haul(player@.held.subrange(0, i as int)),
                acc <= 27 * i,
            decreases n - i,
        {
            proof {
                lemma_estimate_push(player@.held.subrange(0, i as int), player@.held[i as int]);
                assert(player@.held.subrange(0, i + 1 as int)
                    =~= player@.held.subrange(0, i as int).push(player@.held[i as int]));
            }
            acc = acc + (Self::treasure_value(held[i]) as u64);
            i = i + 1;
        }
        proof {
            assert(player@.held.subrange(0, n as int) =~= player@.held);
        }
        acc
    }

    /// The opponents of seat `player_idx`, each exactly once, in the rotated
    /// order the agent scans them in.
    pub fn opponents(deep_sea: &DeepSea, player_idx: usize) -> (r: Vec<usize>)
        requires
            deep_sea@.wf(),
            (player_idx as int) < deep_sea@.players.len(),
        ensures
            r@.len() == deep_sea@.players.len() - 1,
            forall|k: int| 0 <= k < r@.len()
                ==> #[trigger] r@[k] as int
                    == opponent_at(deep_sea@.players.len() as int, player_idx as int, k),
    {
        let n = deep_sea.players().len();
        let mut r: Vec<usize> = Vec::new();
        if n == 1 {
            return r;
        }
        let m = n - 1;
        let mut k: usize = 0;
        while k < m
            invariant
                k <= m,
                m == deep_sea@.players.len() - 1,
                m >= 1,
                player_idx < m + 1,
                r@.len() == k as int,
                forall|q: int| 0 <= q < k as int
                    ==> #[trigger] r@[q] as int == opponent_at((m + 1) as int, player_idx as int, q),
            decreases m - k,
        {
            let j = if player_idx < m - k {
                k + player_idx
            } else {
                player_idx - (m - k)
            };
            proof {
                let mi = m as int;
                let ki = k as int;
                let pi = player_idx as int;
                if player_idx < m - k {
                    vstd::arithmetic::div_mod::lemma_small_mod((ki + pi) as nat, mi as nat);
                } else {
                    vstd::arithmetic::div_mod::lemma_mod_sub_multiples_vanish(ki + pi, mi);
                    vstd::arithmetic::div_mod::lemma_small_mod((ki + pi - mi) as nat, mi as nat);
                }
                assert(j as int == (ki + pi) % mi);
            }
            let o = if j < player_idx {
                j
            } else {
                j + 1
            };
            r.push(o);
            k = k + 1;
        }
        r
    }

    /// Whether seat `player_idx` would win as things stand: its estimated
    /// haul strictly exceeds every other seat's.
    pub fn p_win(deep_sea: &DeepSea, player_idx: usize) -> (r: bool)
        requires
            deep_sea@.wf(),
            (player_idx as int) < deep_sea@.players.len(),
        ensures
            r == clayton_ahead(deep_sea@, player_idx as int),
    {
        let ghost gv = deep_sea@;
        let players = deep_sea.players();
        let n = players.len();
        proof {
            lemma_held_entry_le_total(gv.players, player_idx as int);
            lemma_treasure_tiles_bounds(gv.path);
        }
        let own = Self::player_score(&players[player_idx]);
        let mut ahead = true;
        let mut j: usize = 0;
        while j < n
            invariant
                j <= n,
                gv == deep_sea@,
                gv.wf(),
                n == gv.players.len(),
                (player_idx as int) < n as int,
                players@.len() == n,
                forall|q: int| 0 <= q < n as int ==> #[trigger] players@[q]@ == gv.players[q],
                own as int == estimate_haul(gv.players[player_idx as int].held),
                ahead == (forall|q: int| 0 <= q < j as int && q != player_idx as int
                    ==> estimate_haul((#[trigger] gv.players[q]).held)
                        < estimate_haul(gv.players[player_idx as int].held)),
            decreases n - j,
        {
            if j != player_idx {
                proof {
                    lemma_held_entry_le_total(gv.players, j as int);
                    lemma_treasure_tiles_bounds(gv.path);
                }
                let theirs = Self::player_score(&players[j]);
                if theirs >= own {
                    ahead = false;
                }
            }
            j = j + 1;
        }
        ahead
    }

    /// Runs the oracle's continuation on a hypothetical state and marks the
    /// seats tied for its best score; each marked seat carries win mass
    /// `1 / k` for `k` marked seats, every other seat mass 0.
    pub fn p_win_from_pos(deep_sea: DeepSea) -> (flags: Vec<bool>)
        requires
            deep_sea@.wf(),
        ensures
            flags@ == forecast_flags(deep_sea@),
            flags@.len() == deep_sea@.players.len(),
    {
        let ghost orig = deep_sea@;
        let mut state = deep_sea;
        proof {
            lemma_oracle_terminal_props(orig);
        }
        while !state.done()
            invariant
                state@.wf(),
                oracle_terminal(state@) == oracle_terminal(orig),
            decreases state@.oxygen, skip_measure(state@),
        {
            let ghost pre = state@;
            let idx = state.player_idx();
            let pos = state.players()[idx].position();
            match pos {
                Position::ReturnedToSubmarine => {}
                _ => {
                    state.take_oxygen();
                    let dir = match pos {
                        Position::WaitingToDive => DiveDirection::Down,
                        _ => DiveDirection::Up,
                    };
                    let _moved = state.move_player(dir, 4);
                }
            }
            state.next_player();
            proof {
                assert(state@ == oracle_step(pre));
                if pre.active().pos is Returned {
                    lemma_skip_measure_decreases(pre);
                }
            }
        }
        let ghost term = state@;
        proof {
            assert(oracle_terminal(orig) == term);
        }
        let n = state.players().len();
        let mut scores: Vec<u64> = Vec::new();
        let mut i: usize = 0;
        while i < n
            invariant
                state@ == term,
                term.wf(),
                n == term.players.len(),
                i <= n,
                scores@.len() == i as int,
                forall|q: int| 0 <= q < i as int
                    ==> #[trigger] scores@[q] as int == oracle_score(term.players[q]),
            decreases n - i,
        {
            let p = &state.players()[i];
            let sc: u64 = match p.position() {
                Position::ReturnedToSubmarine => {
                    proof {
                        lemma_held_entry_le_total(term.players, i as int);
                        lemma_treasure_tiles_bounds(term.path);
                    }
                    Self::player_score(p)
                }
                _ => 0,
            };
            scores.push(sc);
            i = i + 1;
        }
        let mut best: u64 = scores[0];
        let mut b: usize = 1;
        while b < n
            invariant
                1 <= b <= n,
                n == term.players.len(),
                scores@.len() == n as int,
                forall|q: int| 0 <= q < n as int
                    ==> #[trigger] scores@[q] as int == oracle_score(term.players[q]),
                best as int == max_oracle_score(term.players.subrange(0, b as int)),
            decreases n - b,
        {
            proof {
                assert(term.players.subrange(0, b + 1 as int).drop_last()
                    =~= term.players.subrange(0, b as int));
                assert(term.players.subrange(0, b + 1 as int).last() == term.players[b as int]);
            }
            let next = scores[b];
            if next > best {
                best = next;
            }
            b = b + 1;
        }
        proof {
            assert(term.players.subrange(0, n as int) =~= term.players);
        }
        let mut flags: Vec<bool> = Vec::new();
        let mut f: usize = 0;
        while f < n
            invariant
                f <= n,
                n == term.players.len(),
                scores@.len() == n as int,
                forall|q: int| 0 <= q < n as int
                    ==> #[trigger] scores@[q] as int == oracle_score(term.players[q]),
                best as int == max_oracle_score(term.players),
                flags@.len() == f as int,
                forall|q: int| 0 <= q < f as int
                    ==> #[trigger] flags@[q] == (oracle_score(term.players[q]) == max_oracle_score(term.players)),
            decreases n - f,
        {
            flags.push(scores[f] == best);
            f = f + 1;
        }
        proof {
            assert(flags@ =~= forecast_flags(orig));
        }
        flags
    }

    /// Whether the active seat of the hypothetical state ties for the win
    /// under the oracle's continuation: its forecast mass equals the
    /// maximal entry of the forecast.
    pub fn most_likely_to_win_from_pos(deep_sea: DeepSea) -> (r: bool)
        requires
            deep_sea@.wf(),
        ensures
            r == forecast_flags(deep_sea@)[deep_sea@.turn],
    {
        let idx = deep_sea.player_idx();
        let flags = Self::p_win_from_pos(deep_sea);
        flags[idx]
    }

    /// Dive while empty-handed, head home with any treasure in hand.
    pub fn choose_direction(&mut self, deep_sea: &DeepSea, player_idx: usize) -> (r: DiveDirection)
        requires
            deep_sea@.wf(),
            (player_idx as int) < deep_sea@.players.len(),
        ensures
            r == clayton_direction(deep_sea@, player_idx as int),
    {
        let player = &deep_sea.players()[player_idx];
        match player.position() {
            Position::WaitingToDive => DiveDirection::Down,
            _ => {
                if player.held_treasures().len() > 0 {
                    DiveDirection::Up
                } else {
                    DiveDirection::Down
                }
            }
        }
    }

    /// Take only while empty-handed and on a chip above the lowest tier.
    pub fn take_treasure(&mut self, deep_sea: &DeepSea, player_idx: usize) -> (r: TreasureDecision)
        requires
            deep_sea@.wf(),
            (player_idx as int) < deep_sea@.players.len(),
            deep_sea@.players[player_idx as int].pos is Diving,
        ensures
            r == clayton_take(deep_sea@, player_idx as int),
            r is Take ==> deep_sea@.path[diving_index(deep_sea@.players[player_idx as int].pos)] is Treasure,
    {
        let player = &deep_sea.players()[player_idx];
        let pos = player.position();
        let i = match pos.as_diving() {
            Some(i) => i,
            None => vstd::pervasive::unreached(),
        };
        let tile = deep_sea.path()[i];
        let empty_handed = player.held_treasures().len() == 0;
        let worth_it = match tile {
            Tile::Treasure(Treasure::Two) => true,
            Tile::Treasure(Treasure::Three) => true,
            Tile::Treasure(Treasure::Four) => true,
            _ => false,
        };
        if empty_handed && worth_it {
            TreasureDecision::Take
        } else {
            TreasureDecision::Ignore
        }
    }
}

/// Appending one chip adds exactly its estimate.
proof fn lemma_estimate_push(held: Seq<Treasure>, x: Treasure)
    ensures
        estimate_haul(held.push(x)) == estimate_haul(held) + clayton_value(x),
    decreases held.len(),
{
    if held.len() == 0 {
        assert(held.push(x).drop_first() =~= Seq::<Treasure>::empty());
        assert(held.push(x)[0] == x);
        assert(estimate_haul(Seq::<Treasure>::empty()) == 0);
    } else {
        assert(held.push(x).drop_first() =~= held.drop_first().push(x));
        assert(held.push(x)[0] == held[0]);
        lemma_estimate_push(held.drop_first(), x);
    }
}

/// Where the `k`-th opponent of seat `p` sits, scanning cyclically.
pub open spec fn opponent_at(n: int, p: int, k: int) -> int {
    let j = (k + p) % (n - 1);
    if j < p {
        j
    } else {
        j + 1
    }
}

/// The gambling agent: as the baseline, but also grabs any non-bare tile
/// whenever the forecast says its seat is not tied for the win.
#[derive(Clone, Copy, Default)]
pub struct ClaytonSolver2;

impl ClaytonSolver2 {
    /// Dive while empty-handed, head home with any treasure in hand.
    pub fn choose_direction(&mut self, deep_sea: &DeepSea, player_idx: usize) -> (r: DiveDirection)
        requires
            deep_sea@.wf(),
            (player_idx as int) < deep_sea@.players.len(),
        ensures
            r == clayton_direction(deep_sea@, player_idx as int),
    {
        let player = &deep_sea.players()[player_idx];
        match player.position() {
            Position::WaitingToDive => DiveDirection::Down,
            _ => {
                if player.held_treasures().len() > 0 {
                    DiveDirection::Up
                } else {
                    DiveDirection::Down
                }
            }
        }
    }

    /// The baseline rule, or a gamble on any non-bare tile when behind.
    pub fn take_treasure(&mut self, deep_sea: &DeepSea, player_idx: usize) -> (r: TreasureDecision)
        requires
            deep_sea@.wf(),
            (player_idx as int) < deep_sea@.players.len(),
            deep_sea@.players[player_idx as int].pos is Diving,
        ensures
            r == clayton2_take(deep_sea@, player_idx as int),
            r is Take ==> deep_sea@.path[diving_index(deep_sea@.players[player_idx as int].pos)] is Treasure,
    {
        let player = &deep_sea.players()[player_idx];
        let pos = player.position();
        let i = match pos.as_diving() {
            Some(i) => i,
            None => vstd::pervasive::unreached(),
        };
        let tile = deep_sea.path()[i];
        let empty_handed = player.held_treasures().len() == 0;
        let worth_it = match tile {
            Tile::Treasure(Treasure::Two) => true,
            Tile::Treasure(Treasure::Three) => true,
            Tile::Treasure(Treasure::Four) => true,
            _ => false,
        };
        if empty_handed && worth_it {
            return TreasureDecision::Take;
        }
        let loaded = match tile {
            Tile::Treasure(_) => true,
            Tile::Empty => false,
        };
        if loaded && !ClaytonSolver::most_likely_to_win_from_pos(deep_sea.duplicate()) {
            TreasureDecision::Take
        } else {
            TreasureDecision::Ignore
        }
    }
}

} // verus!
