//! The game state machine: a fixed path of tiles, a list of players, a
//! round-robin turn pointer and a shared oxygen counter.
//!
//! Every operation is specified against a mathematical view of the state
//! (`GameView`), and the transition functions on that view are the reference
//! semantics of the game: moving a player, consuming oxygen, resolving a
//! treasure and advancing the turn.

use vstd::prelude::*;

use crate::error::{DeepSeaError, DeepSeaResult};
use crate::treasure::Treasure;

verus! {

/// One slot of the path: empty sea floor, or a treasure chip of some tier.
#[derive(Clone, Copy, Debug, PartialEq, Eq, Structural)]
pub enum Tile {
    Empty,
    Treasure(Treasure),
}

/// Where a player is: still at the submarine, diving at a path index
/// (0 = shallowest), or back at the submarine for good.
#[derive(Clone, Copy, Debug, PartialEq, Eq, Structural)]
pub enum Position {
    WaitingToDive,
    Diving(usize),
    ReturnedToSubmarine,
}

/// Whether a player is heading away from the submarine or back to it.
#[derive(Clone, Copy, Debug, PartialEq, Eq, Structural)]
pub enum DiveDirection {
    Down,
    Up,
}

/// A player's answer when standing on a tile: pick the treasure up or not.
#[derive(Clone, Copy, Debug, PartialEq, Eq, Structural)]
pub enum TreasureDecision {
    Take,
    Ignore,
}

/// Mathematical position: as `Position`, with an unbounded index.
pub enum PosV {
    Waiting,
    Diving(int),
    Returned,
}

/// The mathematical reading of an executable position.
pub open spec fn abs_pos(p: Position) -> PosV {
    match p {
        Position::WaitingToDive => PosV::Waiting,
        Position::Diving(i) => PosV::Diving(i as int),
        Position::ReturnedToSubmarine => PosV::Returned,
    }
}

impl Position {
    /// The path index if this is a `Diving` position.
    pub fn as_diving(&self) -> (r: Option<usize>)
        ensures
            r == (match *self {
                Position::Diving(i) => Some(i),
                _ => None::<usize>,
            }),
    {
        match *self {
            Position::Diving(i) => Some(i),
            _ => None,
        }
    }
}

/// Mathematical view of one player.
#[verifier::ext_equal]
pub struct PlayerV {
    pub pos: PosV,
    pub dir: DiveDirection,
    pub held: Seq<Treasure>,
}

/// Mathematical view of the whole game.
#[verifier::ext_equal]
pub struct GameView {
    pub path: Seq<Tile>,
    pub players: Seq<PlayerV>,
    pub turn: int,
    pub oxygen: int,
}

/// Longest path the state machine accepts; keeps every score sum inside
/// the machine integers that carry it.
pub const MAX_PATH_LEN: usize = 0x0FFF_FFFF;

/// Default shared oxygen supply of a fresh game.
pub const DEFAULT_OXYGEN: u32 = 25;

/// Number of treasures held over all players.
pub open spec fn held_total(players: Seq<PlayerV>) -> int
    decreases players.len(),
{
    if players.len() == 0 {
        0
    } else {
        players[0].held.len() + held_total(players.drop_first())
    }
}

/// 1 if the tile still carries a treasure, else 0.
pub open spec fn tile_load(t: Tile) -> int {
    match t {
        Tile::Treasure(_) => 1,
        Tile::Empty => 0,
    }
}

/// Number of tiles of the path that still carry a treasure.
pub open spec fn treasure_tiles(path: Seq<Tile>) -> int
    decreases path.len(),
{
    if path.len() == 0 {
        0
    } else {
        tile_load(path[0]) + treasure_tiles(path.drop_first())
    }
}

/// A diving index must point into the path.
pub open spec fn pos_in_bounds(p: PlayerV, path_len: int) -> bool {
    match p.pos {
        PosV::Diving(d) => 0 <= d < path_len,
        _ => true,
    }
}

/// The index under a diving player (unconstrained elsewhere).
pub open spec fn diving_index(p: PosV) -> int {
    match p {
        PosV::Diving(i) => i,
        _ => 0,
    }
}

/// The tier on a loaded tile (unconstrained on a bare one).
pub open spec fn tile_tier(t: Tile) -> Treasure {
    match t {
        Tile::Treasure(x) => x,
        Tile::Empty => Treasure::One,
    }
}

impl GameView {
    /// Well-formedness: the turn pointer and every diving index are in
    /// bounds, the board is non-empty and bounded, and no more treasures
    /// are in hands and on tiles together than the path has slots.
    pub open spec fn wf(self) -> bool {
        &&& 1 <= self.players.len()
        &&& 1 <= self.path.len() <= MAX_PATH_LEN
        &&& 0 <= self.turn < self.players.len()
        &&& 0 <= self.oxygen <= u32::MAX
        &&& (forall|i: int| 0 <= i < self.players.len() ==>
                pos_in_bounds(#[trigger] self.players[i], self.path.len() as int))
        &&& held_total(self.players) + treasure_tiles(self.path) <= self.path.len()
    }

    pub open spec fn player_returned(self, i: int) -> bool {
        self.players[i].pos is Returned
    }

    pub open spec fn all_returned(self) -> bool {
        forall|i: int| 0 <= i < self.players.len() ==> (#[trigger] self.players[i]).pos is Returned
    }

    /// The sole termination predicate of a game.
    pub open spec fn done(self) -> bool {
        self.oxygen == 0 || self.all_returned()
    }

    pub open spec fn active(self) -> PlayerV {
        self.players[self.turn]
    }
}

/// The fresh state: everyone waits at the submarine facing down, the turn
/// pointer is on seat 0 and the oxygen supply is full.
pub open spec fn initial_state(path: Seq<Tile>, num_players: int, oxygen: int) -> GameView {
    GameView {
        path: path,
        players: Seq::new(num_players as nat, |i: int| PlayerV {
            pos: PosV::Waiting,
            dir: DiveDirection::Down,
            held: Seq::empty(),
        }),
        turn: 0,
        oxygen: oxygen,
    }
}

/// Oxygen consumption: one unit burns off, saturating at zero.
pub open spec fn oxygen_transition(s: GameView) -> GameView {
    GameView { oxygen: if s.oxygen > 0 { s.oxygen - 1 } else { 0 }, ..s }
}

/// Round-robin advance of the turn pointer.
pub open spec fn turn_transition(s: GameView) -> GameView {
    GameView { turn: (s.turn + 1) % (s.players.len() as int), ..s }
}

/// Whether a movement request is accepted: only a player who has not yet
/// returned may move.
pub open spec fn move_ok(s: GameView) -> bool {
    !(s.active().pos is Returned)
}

/// The position reached by a move, and the direction it fixes.
///
/// From the submarine's mouth, a first downward move of distance `d` lands
/// on tile `d - 1`; downward movement clamps at the last tile. An upward
/// move of distance at least the current index reaches the submarine for
/// good; from the mouth, any upward move does. A move records the direction
/// it was taken in, so a player who has turned is never asked to descend
/// again.
pub open spec fn moved_player(p: PlayerV, path_len: int, dir: DiveDirection, dist: int) -> PlayerV {
    match p.pos {
        PosV::Waiting => match dir {
            DiveDirection::Down => {
                if dist == 0 {
                    PlayerV { dir: dir, ..p }
                } else {
                    PlayerV {
                        pos: PosV::Diving(if dist - 1 <= path_len - 1 { dist - 1 } else { path_len - 1 }),
                        dir: dir,
                        ..p
                    }
                }
            }
            DiveDirection::Up => PlayerV { pos: PosV::Returned, dir: dir, ..p },
        },
        PosV::Diving(i) => match dir {
            DiveDirection::Down => PlayerV {
                pos: PosV::Diving(if i + dist <= path_len - 1 { i + dist } else { path_len - 1 }),
                dir: dir,
                ..p
            },
            DiveDirection::Up => {
                if dist >= i {
                    PlayerV { pos: PosV::Returned, dir: dir, ..p }
                } else {
                    PlayerV { pos: PosV::Diving(i - dist), dir: dir, ..p }
                }
            }
        },
        PosV::Returned => p,
    }
}

/// Movement of the active player; a rejected move leaves the state as it is.
pub open spec fn move_transition(s: GameView, dir: DiveDirection, dist: int) -> GameView {
    if move_ok(s) {
        GameView {
            players: s.players.update(s.turn, moved_player(s.active(), s.path.len() as int, dir, dist)),
            ..s
        }
    } else {
        s
    }
}

/// Whether a treasure resolution is accepted: the active player must be
/// diving, and a `Take` needs a treasure under their feet.
pub open spec fn take_ok(s: GameView, decision: TreasureDecision) -> bool {
    match s.active().pos {
        PosV::Diving(i) => match decision {
            TreasureDecision::Ignore => true,
            TreasureDecision::Take => s.path[i] is Treasure,
        },
        _ => false,
    }
}

/// Treasure resolution: a taken chip leaves its tile for good and is
/// appended to the active player's haul; anything else changes nothing.
pub open spec fn take_transition(s: GameView, decision: TreasureDecision) -> GameView {
    if take_ok(s, decision) && decision is Take {
        let i = diving_index(s.active().pos);
        let t = tile_tier(s.path[i]);
        GameView {
            path: s.path.update(i, Tile::Empty),
            players: s.players.update(s.turn, PlayerV {
                held: s.active().held.push(t),
                ..s.active()
            }),
            ..s
        }
    } else {
        s
    }
}

/// One seat at the table: a position, a travel direction, and the treasures
/// picked up so far, in pickup order.
pub struct Player {
    position: Position,
    direction: DiveDirection,
    held_treasures: Vec<Treasure>,
}

impl View for Player {
    type V = PlayerV;

    closed spec fn view(&self) -> PlayerV {
        PlayerV {
            pos: abs_pos(self.position),
            dir: self.direction,
            held: self.held_treasures@,
        }
    }
}

impl Player {
    pub fn position(&self) -> (r: Position)
        ensures
            abs_pos(r) == self@.pos,
    {
        self.position
    }

    pub fn direction(&self) -> (r: DiveDirection)
        ensures
            r == self@.dir,
    {
        self.direction
    }

    pub fn held_treasures(&self) -> (r: &Vec<Treasure>)
        ensures
            r@ == self@.held,
    {
        &self.held_treasures
    }
}

/// The exclusively owned game state. All mutation goes through the
/// operations below, each of which refines its transition function.
pub struct DeepSea {
    path: Vec<Tile>,
    players: Vec<Player>,
    player_idx: usize,
    oxygen: u32,
}

impl View for DeepSea {
    type V = GameView;

    closed spec fn view(&self) -> GameView {
        GameView {
            path: self.path@,
            players: self.players@.map_values(|p: Player| p@),
            turn: self.player_idx as int,
            oxygen: self.oxygen as int,
        }
    }
}

impl DeepSea {
    /// A fresh game over `path` with `num_players` seats and a full default
    /// oxygen supply.
    pub fn new(path: Vec<Tile>, num_players: usize) -> (r: Self)
        requires
            1 <= path@.len() <= MAX_PATH_LEN,
            num_players >= 1,
        ensures
            r@ == initial_state(path@, num_players as int, DEFAULT_OXYGEN as int),
            r@.wf(),
    {
        Self::with_oxygen(path, num_players, DEFAULT_OXYGEN)
    }

    /// A fresh game with an explicit oxygen supply.
    pub fn with_oxygen(path: Vec<Tile>, num_players: usize, oxygen: u32) -> (r: Self)
        requires
            1 <= path@.len() <= MAX_PATH_LEN,
            num_players >= 1,
        ensures
            r@ == initial_state(path@, num_players as int, oxygen as int),
            r@.wf(),
    {
        let mut players: Vec<Player> = Vec::new();
        let mut i: usize = 0;
        while i < num_players
            invariant
                i <= num_players,
                players@.len() == i as int,
                forall|j: int| 0 <= j < i as int ==> #[trigger] players@[j]@ == (PlayerV {
                    pos: PosV::Waiting,
                    dir: DiveDirection::Down,
                    held: Seq::<Treasure>::empty(),
                }),
            decreases num_players - i,
        {
            let p = Player {
                position: Position::WaitingToDive,
                direction: DiveDirection::Down,
                held_treasures: Vec::new(),
            };
            proof {
                assert(p@ =~= (PlayerV {
                    pos: PosV::Waiting,
                    dir: DiveDirection::Down,
                    held: Seq::<Treasure>::empty(),
                }));
            }
            players.push(p);
            i = i + 1;
        }
        let r = DeepSea { path, players, player_idx: 0, oxygen };
        proof {
            let target = initial_state(r.path@, num_players as int, oxygen as int);
            assert(r@.players =~= target.players);
            assert(r@ =~= target);
            lemma_held_total_zero(r@.players);
            lemma_treasure_tiles_bounds(r@.path);
        }
        r
    }

    pub fn path(&self) -> (r: &Vec<Tile>)
        ensures
            r@ == self@.path,
    {
        &self.path
    }

    pub fn players(&self) -> (r: &Vec<Player>)
        ensures
            r@.len() == self@.players.len(),
            forall|i: int| 0 <= i < r@.len() ==> #[trigger] r@[i]@ == self@.players[i],
    {
        &self.players
    }

    pub fn player_idx(&self) -> (r: usize)
        ensures
            r as int == self@.turn,
    {
        self.player_idx
    }

    pub fn oxygen(&self) -> (r: u32)
        ensures
            r as int == self@.oxygen,
    {
        self.oxygen
    }

    /// The sole termination predicate: the oxygen is gone, or everyone is
    /// back at the submarine.
    pub fn done(&self) -> (r: bool)
        ensures
            r == self@.done(),
    {
        if self.oxygen == 0 {
            return true;
        }
        let n = self.players.len();
        let mut i: usize = 0;
        while i < n
            invariant
                n == self.players@.len(),
                i <= n,
                self@.oxygen != 0,
                forall|j: int| 0 <= j < i as int ==> (#[trigger] self@.players[j]).pos is Returned,
            decreases n - i,
        {
            match self.players[i].position {
                Position::ReturnedToSubmarine => {}
                _ => {
                    assert(!(self@.players[i as int].pos is Returned));
                    return false;
                }
            }
            i = i + 1;
        }
        assert(self@.all_returned());
        true
    }

    /// Burns one unit of the shared oxygen supply, saturating at zero.
    pub fn take_oxygen(&mut self)
        ensures
            final(self)@ == oxygen_transition(old(self)@),
            old(self)@.wf() ==> final(self)@.wf(),
    {
        let ghost pre = self@;
        if self.oxygen > 0 {
            self.oxygen = self.oxygen - 1;
        }
        proof {
            assert(self@ =~= oxygen_transition(pre));
        }
    }

    /// Round-robin advance of the turn pointer.
    pub fn next_player(&mut self)
        requires
            old(self)@.wf(),
        ensures
            final(self)@ == turn_transition(old(self)@),
            final(self)@.wf(),
    {
        let ghost pre = self@;
        proof {
            assert(self@.players.len() == self.players@.len());
            assert(self.player_idx as int == self@.turn);
        }
        let n = self.players.len();
        self.player_idx = if self.player_idx < n - 1 {
            self.player_idx + 1
        } else {
            0
        };
        proof {
            if pre.turn < n - 1 {
                vstd::arithmetic::div_mod::lemma_small_mod((pre.turn + 1) as nat, n as nat);
            } else {
                vstd::arithmetic::div_mod::lemma_mod_self_0(n as int);
            }
            assert(self@ =~= turn_transition(pre));
        }
    }

    /// Moves the active player `distance` steps in `direction`, per
    /// `move_transition`; rejected if that player has already returned.
    pub fn move_player(&mut self, direction: DiveDirection, distance: u32) -> (r: DeepSeaResult<()>)
        requires
            old(self)@.wf(),
        ensures
            final(self)@ == move_transition(old(self)@, direction, distance as int),
            final(self)@.wf(),
            (r is Ok <==> move_ok(old(self)@)),
            r is Err ==> r == Err::<(), DeepSeaError>(DeepSeaError::InvalidMove) && final(self)@ == old(self)@,
    {
        let ghost pre = self@;
        let idx = self.player_idx;
        let d = distance as usize;
        let pos = self.players[idx].position;
        proof {
            assert(self@.players[idx as int] == self.players@[idx as int]@);
            assert(abs_pos(pos) == pre.active().pos);
        }
        match pos {
            Position::ReturnedToSubmarine => {
                proof {
                    assert(self@ =~= move_transition(pre, direction, distance as int));
                }
                Err(DeepSeaError::InvalidMove)
            }
            Position::WaitingToDive => {
                let last = self.path.len() - 1;
                let target = match direction {
                    DiveDirection::Down => {
                        if d == 0 {
                            Position::WaitingToDive
                        } else if d - 1 <= last {
                            Position::Diving(d - 1)
                        } else {
                            Position::Diving(last)
                        }
                    }
                    DiveDirection::Up => Position::ReturnedToSubmarine,
                };
                self.set_active_motion(target, direction, Ghost(pre), Ghost(distance as int));
                Ok(())
            }
            Position::Diving(i) => {
                let last = self.path.len() - 1;
                let target = match direction {
                    DiveDirection::Down => {
                        if d <= last - i {
                            Position::Diving(i + d)
                        } else {
                            Position::Diving(last)
                        }
                    }
                    DiveDirection::Up => {
                        if d >= i {
                            Position::ReturnedToSubmarine
                        } else {
                            Position::Diving(i - d)
                        }
                    }
                };
                self.set_active_motion(target, direction, Ghost(pre), Ghost(distance as int));
                Ok(())
            }
        }
    }

    /// Writes the outcome of an accepted move back into the active player.
    fn set_active_motion(
        &mut self,
        target: Position,
        dir: DiveDirection,
        Ghost(pre): Ghost<GameView>,
        Ghost(dist): Ghost<int>,
    )
        requires
            old(self)@ == pre,
            pre.wf(),
            move_ok(pre),
            ({
                let m = moved_player(pre.active(), pre.path.len() as int, dir, dist);
                &&& m.dir == dir
                &&& m.held == pre.active().held
                &&& abs_pos(target) == m.pos
                &&& pos_in_bounds(m, pre.path.len() as int)
            }),
        ensures
            final(self)@ == move_transition(pre, dir, dist),
            final(self)@.wf(),
    {
        let idx = self.player_idx;
        self.players[idx].position = target;
        self.players[idx].direction = dir;
        proof {
            let m = moved_player(pre.active(), pre.path.len() as int, dir, dist);
            let post = move_transition(pre, dir, dist);
            assert(self@.players[idx as int] =~= m);
            assert(self@.players =~= post.players);
            assert(self@ =~= post);
            lemma_held_total_update(pre.players, pre.turn, m);
            assert(post.wf());
        }
    }

    /// An independent deep copy of the state, for hypothetical play: the
    /// copy can be driven to its end without touching the live game.
    pub fn duplicate(&self) -> (r: Self)
        ensures
            r@ == self@,
    {
        let mut path: Vec<Tile> = Vec::new();
        let mut i: usize = 0;
        let n_path = self.path.len();
        while i < n_path
            invariant
                i <= n_path,
                n_path == self.path@.len(),
                path@ =~= self.path@.subrange(0, i as int),
            decreases n_path - i,
        {
            path.push(self.path[i]);
            proof {
                assert(path@ =~= self.path@.subrange(0, i + 1 as int));
            }
            i = i + 1;
        }
        let mut players: Vec<Player> = Vec::new();
        let n_players = self.players.len();
        let mut j: usize = 0;
        while j < n_players
            invariant
                j <= n_players,
                n_players == self.players@.len(),
                players@.len() == j as int,
                forall|k: int| 0 <= k < j as int ==> #[trigger] players@[k]@ == self.players@[k]@,
            decreases n_players - j,
        {
            let src = &self.players[j];
            let mut held: Vec<Treasure> = Vec::new();
            let n_held = src.held_treasures.len();
            let mut h: usize = 0;
            while h < n_held
                invariant
                    h <= n_held,
                    n_held == src.held_treasures@.len(),
                    held@ =~= src.held_treasures@.subrange(0, h as int),
                decreases n_held - h,
            {
                held.push(src.held_treasures[h]);
                proof {
                    assert(held@ =~= src.held_treasures@.subrange(0, h + 1 as int));
                }
                h = h + 1;
            }
            let p = Player {
                position: src.position,
                direction: src.direction,
                held_treasures: held,
            };
            proof {
                assert(src.held_treasures@.subrange(0, n_held as int) =~= src.held_treasures@);
                assert(p@ =~= self.players@[j as int]@);
            }
            players.push(p);
            j = j + 1;
        }
        let r = DeepSea {
            path,
            players,
            player_idx: self.player_idx,
            oxygen: self.oxygen,
        };
        proof {
            assert(self.path@.subrange(0, n_path as int) =~= self.path@);
            assert(r@.players =~= self@.players);
            assert(r@ =~= self@);
        }
        r
    }

    /// Resolves the tile under the active diver: `Take` empties the tile
    /// into their haul, `Ignore` leaves everything as it is. Rejected when
    /// the active player is not diving, or takes from a bare tile.
    pub fn take_treasure(&mut self, decision: TreasureDecision) -> (r: DeepSeaResult<()>)
        requires
            old(self)@.wf(),
        ensures
            final(self)@ == take_transition(old(self)@, decision),
            final(self)@.wf(),
            (r is Ok <==> take_ok(old(self)@, decision)),
            r is Err ==> r == Err::<(), DeepSeaError>(DeepSeaError::InvalidTreasure) && final(self)@ == old(self)@,
    {
        let ghost pre = self@;
        let idx = self.player_idx;
        let pos = self.players[idx].position;
        proof {
            assert(self@.players[idx as int] == self.players@[idx as int]@);
            assert(abs_pos(pos) == pre.active().pos);
        }
        match pos {
            Position::Diving(i) => {
                match decision {
                    TreasureDecision::Ignore => {
                        proof {
                            assert(self@ =~= take_transition(pre, decision));
                        }
                        Ok(())
                    }
                    TreasureDecision::Take => {
                        match self.path[i] {
                            Tile::Treasure(t) => {
                                self.path[i] = Tile::Empty;
                                self.players[idx].held_treasures.push(t);
                                proof {
                                    let post = take_transition(pre, decision);
                                    assert(self@.players[idx as int] =~= post.players[idx as int]);
                                    assert(self@.players =~= post.players);
                                    assert(self@ =~= post);
                                    lemma_held_total_update(pre.players, pre.turn, post.players[pre.turn]);
                                    lemma_treasure_tiles_update(pre.path, i as int, Tile::Empty);
                                    assert(post.wf());
                                }
                                Ok(())
                            }
                            Tile::Empty => {
                                proof {
                                    assert(self@ =~= take_transition(pre, decision));
                                }
                                Err(DeepSeaError::InvalidTreasure)
                            }
                        }
                    }
                }
            }
            _ => {
                proof {
                    assert(self@ =~= take_transition(pre, decision));
                }
                Err(DeepSeaError::InvalidTreasure)
            }
        }
    }
}

/// The turn index after `turn`, without the modulo.
pub open spec fn wrap_next(turn: int, n: int) -> int {
    if turn + 1 == n {
        0
    } else {
        turn + 1
    }
}

/// For an in-range turn the round-robin advance is the wrapped successor.
pub proof fn lemma_turn_wrap(turn: int, n: int)
    requires
        0 <= turn < n,
    ensures
        (turn + 1) % n == wrap_next(turn, n),
{
    if turn + 1 == n {
        vstd::arithmetic::div_mod::lemma_mod_self_0(n);
    } else {
        vstd::arithmetic::div_mod::lemma_small_mod((turn + 1) as nat, n as nat);
    }
}

/// How many seats lie between `turn` and the next seat, cyclically, whose
/// player has not returned; `fuel` caps the scan.
pub open spec fn offset_to_unreturned(players: Seq<PlayerV>, turn: int, fuel: nat) -> nat
    decreases fuel,
{
    if fuel == 0 {
        0
    } else if !(0 <= turn < players.len()) {
        0
    } else if players[turn].pos is Returned {
        (1 + offset_to_unreturned(players, wrap_next(turn, players.len() as int), (fuel - 1) as nat)) as nat
    } else {
        0
    }
}

/// Termination measure for turn loops: a full scan from the current turn.
pub open spec fn skip_measure(s: GameView) -> nat {
    offset_to_unreturned(s.players, s.turn, s.players.len())
}

/// Cyclic distance from seat `t` forward to seat `j` among `n` seats.
pub open spec fn cyc_dist(t: int, j: int, n: int) -> int {
    if j >= t {
        j - t
    } else {
        j + n - t
    }
}

/// The scan stops no later than at a seat known to be unreturned.
proof fn lemma_offset_hits(players: Seq<PlayerV>, t: int, j: int, fuel: nat)
    requires
        0 <= t < players.len(),
        0 <= j < players.len(),
        !(players[j].pos is Returned),
        cyc_dist(t, j, players.len() as int) < fuel,
    ensures
        offset_to_unreturned(players, t, fuel) <= cyc_dist(t, j, players.len() as int),
    decreases fuel,
{
    let n = players.len() as int;
    if players[t].pos is Returned {
        lemma_offset_hits(players, wrap_next(t, n), j, (fuel - 1) as nat);
    }
}

/// Once the scan finds a seat within its fuel, more fuel changes nothing.
proof fn lemma_offset_stable(players: Seq<PlayerV>, t: int, f1: nat, f2: nat)
    requires
        0 <= t < players.len(),
        offset_to_unreturned(players, t, f1) < f1,
        f2 >= f1,
    ensures
        offset_to_unreturned(players, t, f2) == offset_to_unreturned(players, t, f1),
    decreases f1,
{
    let n = players.len() as int;
    if players[t].pos is Returned {
        lemma_offset_stable(players, wrap_next(t, n), (f1 - 1) as nat, (f2 - 1) as nat);
    }
}

/// While the game is not done and the active player has already returned,
/// advancing the turn strictly shrinks the scan measure. Together with the
/// strict oxygen decrease of every acting turn this bounds every game loop.
pub proof fn lemma_skip_measure_decreases(s: GameView)
    requires
        s.wf(),
        !s.done(),
        s.active().pos is Returned,
    ensures
        skip_measure(turn_transition(s)) < skip_measure(s),
{
    let n = s.players.len() as int;
    assert(!s.all_returned());
    let j = choose|j: int| 0 <= j < n && !((#[trigger] s.players[j]).pos is Returned);
    let t = s.turn;
    let t2 = wrap_next(t, n);
    lemma_turn_wrap(t, n);
    assert(j != t);
    assert(cyc_dist(t2, j, n) == cyc_dist(t, j, n) - 1);
    lemma_offset_hits(s.players, t2, j, (n - 1) as nat);
    lemma_offset_stable(s.players, t2, (n - 1) as nat, n as nat);
    assert(offset_to_unreturned(s.players, t, n as nat)
        == 1 + offset_to_unreturned(s.players, t2, (n - 1) as nat));
}

/// Frame of a movement: only the active player's position and direction can
/// change; hauls, the path, oxygen and the turn stay; returned players stay
/// returned; well-formedness is preserved for any non-negative distance.
pub proof fn lemma_move_transition_frame(s: GameView, dir: DiveDirection, dist: int)
    requires
        s.wf(),
        dist >= 0,
    ensures
        ({
            let s2 = move_transition(s, dir, dist);
            &&& s2.wf()
            &&& s2.path == s.path
            &&& s2.oxygen == s.oxygen
            &&& s2.turn == s.turn
            &&& s2.players.len() == s.players.len()
            &&& (forall|j: int| 0 <= j < s.players.len() && j != s.turn
                    ==> #[trigger] s2.players[j] == s.players[j])
            &&& (forall|j: int| 0 <= j < s.players.len()
                    ==> (#[trigger] s.players[j]).pos is Returned ==> s2.players[j].pos is Returned)
            &&& (forall|j: int| 0 <= j < s.players.len()
                    ==> (#[trigger] s2.players[j]).held == s.players[j].held)
        }),
{
    if move_ok(s) {
        let m = moved_player(s.active(), s.path.len() as int, dir, dist);
        lemma_held_total_update(s.players, s.turn, m);
        assert(pos_in_bounds(s.players[s.turn], s.path.len() as int));
        assert(pos_in_bounds(m, s.path.len() as int));
    }
}

/// One legal step of the machine: any of the four operations, with any
/// arguments.
pub open spec fn game_step(pre: GameView, post: GameView) -> bool {
    ||| post == oxygen_transition(pre)
    ||| post == turn_transition(pre)
    ||| (exists|dir: DiveDirection, dist: int|
            dist >= 0 && post == #[trigger] move_transition(pre, dir, dist))
    ||| (exists|decision: TreasureDecision| post == #[trigger] take_transition(pre, decision))
}

/// Once finished, always finished: a state whose oxygen has not grown and
/// whose returned players all stayed returned cannot become unfinished.
pub proof fn lemma_finished_monotone(pre: GameView, post: GameView)
    requires
        pre.done(),
        post.players.len() == pre.players.len(),
        0 <= post.oxygen <= pre.oxygen,
        forall|j: int| 0 <= j < pre.players.len()
            ==> ((#[trigger] pre.players[j]).pos is Returned ==> post.players[j].pos is Returned),
    ensures
        post.done(),
{
    if pre.oxygen == 0 {
        assert(post.oxygen == 0);
    } else {
        assert(pre.all_returned());
        assert forall|i: int| 0 <= i < post.players.len()
            implies (#[trigger] post.players[i]).pos is Returned by {
            assert(pre.players[i].pos is Returned);
        }
    }
}

/// No single operation of the machine un-finishes a finished game.
pub proof fn lemma_step_preserves_done(pre: GameView, post: GameView)
    requires
        pre.wf(),
        pre.done(),
        game_step(pre, post),
    ensures
        post.done(),
{
    if post == oxygen_transition(pre) || post == turn_transition(pre) {
        lemma_finished_monotone(pre, post);
    } else if exists|dir: DiveDirection, dist: int|
        dist >= 0 && post == #[trigger] move_transition(pre, dir, dist) {
        let (dir, dist) = choose|dir: DiveDirection, dist: int|
            dist >= 0 && post == #[trigger] move_transition(pre, dir, dist);
        lemma_move_transition_frame(pre, dir, dist);
        lemma_finished_monotone(pre, post);
    } else {
        let decision = choose|decision: TreasureDecision|
            post == #[trigger] take_transition(pre, decision);
        lemma_finished_monotone(pre, post);
    }
}

/// An upward move of at least the diving index surfaces the active player
/// for good: the position is terminal, the direction is fixed upward, and
/// every further movement request for that player is rejected and changes
/// nothing.
pub proof fn lemma_surface_is_final(s: GameView, dist: int)
    requires
        s.wf(),
        s.active().pos is Diving,
        dist >= diving_index(s.active().pos),
    ensures
        ({
            let s2 = move_transition(s, DiveDirection::Up, dist);
            &&& s2.active().pos is Returned
            &&& s2.active().dir == DiveDirection::Up
            &&& !move_ok(s2)
            &&& (forall|d2: DiveDirection, x2: int|
                    #[trigger] move_transition(s2, d2, x2) == s2)
        }),
{
    let s2 = move_transition(s, DiveDirection::Up, dist);
    assert(s2.active().pos is Returned);
    assert forall|d2: DiveDirection, x2: int|
        #[trigger] move_transition(s2, d2, x2) == s2 by {
        assert(!move_ok(s2));
    }
}

/// 1 if the tile carries a chip of tier `tier`, else 0.
pub open spec fn tile_load_of(t: Tile, tier: Treasure) -> int {
    if t == Tile::Treasure(tier) {
        1
    } else {
        0
    }
}

/// Chips of tier `tier` still lying on the path.
pub open spec fn tier_in_path(path: Seq<Tile>, tier: Treasure) -> int
    decreases path.len(),
{
    if path.len() == 0 {
        0
    } else {
        tile_load_of(path[0], tier) + tier_in_path(path.drop_first(), tier)
    }
}

/// Chips of tier `tier` in one haul.
pub open spec fn tier_in_haul(held: Seq<Treasure>, tier: Treasure) -> int
    decreases held.len(),
{
    if held.len() == 0 {
        0
    } else {
        (if held[0] == tier { 1int } else { 0int }) + tier_in_haul(held.drop_first(), tier)
    }
}

/// Chips of tier `tier` in all hauls together.
pub open spec fn tier_held_total(players: Seq<PlayerV>, tier: Treasure) -> int
    decreases players.len(),
{
    if players.len() == 0 {
        0
    } else {
        tier_in_haul(players[0].held, tier) + tier_held_total(players.drop_first(), tier)
    }
}

proof fn lemma_tier_path_update(path: Seq<Tile>, i: int, t2: Tile, tier: Treasure)
    requires
        0 <= i < path.len(),
    ensures
        tier_in_path(path.update(i, t2), tier)
            == tier_in_path(path, tier) - tile_load_of(path[i], tier) + tile_load_of(t2, tier),
    decreases path.len(),
{
    if i == 0 {
        assert(path.update(0, t2).drop_first() =~= path.drop_first());
    } else {
        assert(path.update(i, t2).drop_first() =~= path.drop_first().update(i - 1, t2));
        lemma_tier_path_update(path.drop_first(), i - 1, t2, tier);
    }
}

proof fn lemma_tier_haul_push(held: Seq<Treasure>, x: Treasure, tier: Treasure)
    ensures
        tier_in_haul(held.push(x), tier)
            == tier_in_haul(held, tier) + (if x == tier { 1int } else { 0int }),
    decreases held.len(),
{
    if held.len() == 0 {
        assert(held.push(x).drop_first() =~= Seq::<Treasure>::empty());
        assert(held.push(x)[0] == x);
        assert(tier_in_haul(Seq::<Treasure>::empty(), tier) == 0);
    } else {
        assert(held.push(x).drop_first() =~= held.drop_first().push(x));
        assert(held.push(x)[0] == held[0]);
        lemma_tier_haul_push(held.drop_first(), x, tier);
    }
}

proof fn lemma_tier_held_update(players: Seq<PlayerV>, i: int, p: PlayerV, tier: Treasure)
    requires
        0 <= i < players.len(),
    ensures
        tier_held_total(players.update(i, p), tier)
            == tier_held_total(players, tier) - tier_in_haul(players[i].held, tier)
                + tier_in_haul(p.held, tier),
    decreases players.len(),
{
    if i == 0 {
        assert(players.update(0, p).drop_first() =~= players.drop_first());
    } else {
        assert(players.update(i, p).drop_first() =~= players.drop_first().update(i - 1, p));
        lemma_tier_held_update(players.drop_first(), i - 1, p, tier);
    }
}

/// A tile, once bare, stays bare under every operation of the machine: a
/// tile goes from loaded to bare at most once in any run.
pub proof fn lemma_empty_tiles_persist(pre: GameView, post: GameView, j: int)
    requires
        pre.wf(),
        game_step(pre, post),
        0 <= j < pre.path.len(),
        pre.path[j] is Empty,
    ensures
        post.path.len() == pre.path.len(),
        post.path[j] is Empty,
{
}

/// Treasures are conserved: every operation keeps, for each tier, the
/// number of chips on the path plus the number of chips in hands. A pickup
/// only moves one chip from its tile into exactly one player's haul, so no
/// chip is ever held twice.
pub proof fn lemma_treasures_conserved(pre: GameView, post: GameView, tier: Treasure)
    requires
        pre.wf(),
        game_step(pre, post),
    ensures
        tier_in_path(post.path, tier) + tier_held_total(post.players, tier)
            == tier_in_path(pre.path, tier) + tier_held_total(pre.players, tier),
{
    if post == oxygen_transition(pre) || post == turn_transition(pre) {
    } else if exists|dir: DiveDirection, dist: int|
        dist >= 0 && post == #[trigger] move_transition(pre, dir, dist) {
        let (dir, dist) = choose|dir: DiveDirection, dist: int|
            dist >= 0 && post == #[trigger] move_transition(pre, dir, dist);
        if move_ok(pre) {
            let m = moved_player(pre.active(), pre.path.len() as int, dir, dist);
            lemma_tier_held_update(pre.players, pre.turn, m, tier);
        }
    } else {
        let decision = choose|decision: TreasureDecision|
            post == #[trigger] take_transition(pre, decision);
        if take_ok(pre, decision) && decision is Take {
            let i = diving_index(pre.active().pos);
            let t = tile_tier(pre.path[i]);
            lemma_tier_path_update(pre.path, i, Tile::Empty, tier);
            lemma_tier_haul_push(pre.active().held, t, tier);
            lemma_tier_held_update(pre.players, pre.turn,
                post.players[pre.turn], tier);
        }
    }
}

/// Players who hold nothing hold nothing in total.
proof fn lemma_held_total_zero(players: Seq<PlayerV>)
    requires
        forall|i: int| 0 <= i < players.len() ==> (#[trigger] players[i]).held.len() == 0,
    ensures
        held_total(players) == 0,
    decreases players.len(),
{
    if players.len() > 0 {
        lemma_held_total_zero(players.drop_first());
    }
}

/// The loaded-tile count is between zero and the path length.
pub proof fn lemma_treasure_tiles_bounds(path: Seq<Tile>)
    ensures
        0 <= treasure_tiles(path) <= path.len(),
    decreases path.len(),
{
    if path.len() > 0 {
        lemma_treasure_tiles_bounds(path.drop_first());
    }
}

/// Replacing one player changes the held total by the difference of the
/// two hauls.
proof fn lemma_held_total_update(players: Seq<PlayerV>, i: int, p: PlayerV)
    requires
        0 <= i < players.len(),
    ensures
        held_total(players.update(i, p))
            == held_total(players) - players[i].held.len() + p.held.len(),
    decreases players.len(),
{
    if i == 0 {
        assert(players.update(0, p).drop_first() =~= players.drop_first());
    } else {
        assert(players.update(i, p).drop_first() =~= players.drop_first().update(i - 1, p));
        lemma_held_total_update(players.drop_first(), i - 1, p);
    }
}

/// Replacing one tile changes the loaded-tile count by the difference of
/// the two tiles' loads.
proof fn lemma_treasure_tiles_update(path: Seq<Tile>, i: int, t: Tile)
    requires
        0 <= i < path.len(),
    ensures
        treasure_tiles(path.update(i, t))
            == treasure_tiles(path) - tile_load(path[i]) + tile_load(t),
    decreases path.len(),
{
    if i == 0 {
        assert(path.update(0, t).drop_first() =~= path.drop_first());
    } else {
        assert(path.update(i, t).drop_first() =~= path.drop_first().update(i - 1, t));
        lemma_treasure_tiles_update(path.drop_first(), i - 1, t);
    }
}

/// Every single haul is bounded by the held total.
pub proof fn lemma_held_entry_le_total(players: Seq<PlayerV>, i: int)
    requires
        0 <= i < players.len(),
    ensures
        players[i].held.len() <= held_total(players),
        held_total(players) >= 0,
    decreases players.len(),
{
    if players.len() > 0 {
        if i == 0 {
            lemma_held_total_nonneg(players.drop_first());
        } else {
            lemma_held_entry_le_total(players.drop_first(), i - 1);
        }
    }
}

/// Held totals are never negative.
proof fn lemma_held_total_nonneg(players: Seq<PlayerV>)
    ensures
        held_total(players) >= 0,
    decreases players.len(),
{
    if players.len() > 0 {
        lemma_held_total_nonneg(players.drop_first());
    }
}

} // verus!

