//! The turn engine: the world state of one dungeon level, action
//! resolution, and the three-phase turn lifecycle.

use std::sync::Arc;

use vstd::prelude::*;

use crate::actor::Actor;
use crate::actor::equip_rel;
use crate::actor::spec_pos_after;
use crate::actor::struck;
use crate::coord_map::CoordMap;
use crate::hex::Angle;
use crate::hex::Coord;
use crate::hex::Direction;
use crate::hex::in_range;
use crate::hex::spec_step;
use crate::item::Item;
use crate::light::beam_gives;
use crate::light::collect_beams;
use crate::light::fold_max;
use crate::light::lemma_push_contains;
use crate::tile::Feature;
use crate::tile::Tile;
use crate::tile::tile_passable;
use crate::tile::tile_wf;

verus! {

/// One action of one actor in one turn.
#[derive(Clone, Copy, PartialEq, Eq, Structural, Debug)]
pub enum Action {
    /// Do nothing.
    Wait,
    /// Rotate the facing by the angle.
    Turn(Angle),
    /// Step one cell towards the facing rotated by the angle.
    Move(Angle),
    /// Spin in place: rotate the facing by twice the angle.
    Spin(Angle),
    /// Swap the backpack item with this letter into its slot.
    Equip(char),
    /// A ranged interaction aimed at the coordinate; its resolution is the
    /// actor-behaviour module's business, not the engine's.
    Fire(Coord),
    /// Put the item on the cell ahead into the backpack.
    Pick,
    /// Take the stairs down, when standing on them.
    Descend,
}

/// Whether an action, aimed at an occupied cell, counts as a melee
/// attempt: only a move by a forward-ish angle does.
pub open spec fn spec_action_could_be_attack(action: Action) -> bool {
    match action {
        Action::Move(angle) => match angle {
            Angle::Left | Angle::Right | Angle::Forward => true,
            _ => false,
        },
        _ => false,
    }
}

/// Whether an action, aimed at an occupied cell, counts as a melee
/// attempt.
pub fn action_could_be_attack(action: Action) -> (r: bool)
    ensures
        r == spec_action_could_be_attack(action),
{
    match action {
        Action::Move(angle) => match angle {
            Angle::Left | Angle::Right | Angle::Forward => true,
            _ => false,
        },
        _ => false,
    }
}

/// The world of one dungeon level: terrain, actors with their coordinate
/// index, ground items, the derived light field, and the turn bookkeeping.
#[derive(Clone, Debug)]
pub struct State {
    /// The actor registry: the record of the actor with id `i` sits at
    /// index `i`.  Ids count up from zero and are never reused.  A slot is
    /// `None` only while its record is detached inside an engine call.
    pub actors: Vec<Option<Actor>>,
    /// Coordinate index: which actor stands where.  Within a turn a moved
    /// actor may still be indexed at its old coordinate; the post-turn
    /// cleanup restores exactness.
    pub actors_pos: CoordMap<u32>,
    /// Ids whose death has already been processed, so that a dead actor's
    /// inventory is dropped exactly once.
    pub actors_dead: Vec<u32>,
    /// The terrain, shared copy-on-write: a mutation replaces the whole
    /// reference, never the shared value.
    pub map: Arc<CoordMap<Tile>>,
    /// Ground items, at most one per cell.
    pub items: CoordMap<Item>,
    /// The derived light field, fully recomputed every turn.
    pub light_map: CoordMap<u32>,
    /// How many turns have been completed.
    pub turn: u64,
    /// Set when an actor took stairs down: the driver should build the
    /// next level.
    pub descend: bool,
    /// Which dungeon level this world is.
    pub level: u32,
}

impl State {
    /// The id `id` names a record in the registry.
    pub open spec fn has_id(self, id: int) -> bool {
        0 <= id < self.actors@.len()
    }

    /// The record of id `id` is attached.
    pub open spec fn attached(self, id: int) -> bool {
        self.has_id(id) && self.actors@[id] is Some
    }

    /// The record of the actor with id `id`.
    pub open spec fn actor(self, id: int) -> Actor {
        self.actors@[id].unwrap()
    }

    /// The actor with id `id` is attached and alive.
    pub open spec fn alive(self, id: int) -> bool {
        self.attached(id) && self.actor(id).hp != 0
    }

    /// The terrain map is well formed: distinct keys, every cell in
    /// range, every tile attenuating light.
    pub open spec fn map_wf(self) -> bool {
        &&& self.map.wf()
        &&& forall|c: Coord| #[trigger]
            self.map@.contains_key(c) ==> in_range(c) && tile_wf(self.map@[c])
    }

    /// The whole world is well formed.  Entry condition and guarantee of
    /// every engine operation.
    pub open spec fn wf(self) -> bool {
        &&& self.actors@.len() <= u32::MAX
        &&& forall|id: int| self.has_id(id) ==> #[trigger] self.attached(id)
        &&& forall|id: int|
            self.has_id(id) ==> in_range(#[trigger] self.actor(id).pos.coord)
        &&& self.actors_pos.wf()
        &&& forall|c: Coord| #[trigger]
            self.actors_pos@.contains_key(c) ==> (self.actors_pos@[c] as int)
                < self.actors@.len() && in_range(c)
        &&& self.map_wf()
        &&& self.items.wf()
        &&& self.light_map.wf()
    }

    /// The coordinate index is exact: every entry points at an alive
    /// actor standing at that coordinate.  Restored by the post-turn
    /// cleanup; may lapse transiently within a turn.
    pub open spec fn index_clean(self) -> bool {
        forall|c: Coord| #[trigger]
            self.actors_pos@.contains_key(c) ==> self.alive(self.actors_pos@[c] as int)
                && self.actor(self.actors_pos@[c] as int).pos.coord == c
    }

    /// A fresh level-zero world: the generator builds the terrain, its
    /// creatures and items, and the player is spawned last at the
    /// centre.  The turn count starts at zero with no descent pending.
    pub fn new() -> (r: State)
        ensures
            r.wf(),
            r.turn == 0,
            r.level == 0,
            !r.descend,
            r.map@.contains_key(Coord { x: 0, y: 0 }),
            r.actors@.len() >= 1,
            r.actor(r.actors@.len() - 1).player,
            r.actor(r.actors@.len() - 1).pos.coord == (Coord { x: 0, y: 0 }),
            forall|id: int| 0 <= id < r.actors@.len() - 1 ==> !(#[trigger] r.actor(id)).player,
            r.light_map@ =~= Map::<Coord, u32>::empty(),
            r.actors_dead@ == Seq::<u32>::empty(),
            r.actors_pos@.contains_key(Coord { x: 0, y: 0 }) && r.actors_pos@[Coord {
                x: 0,
                y: 0,
            }] as int == r.actors@.len() - 1,
    {
        let cp = Coord { x: 0, y: 0 };
        let (map, gen_actors, items) = crate::generate::generate(0, cp, 400);
        let mut state = State {
            actors: Vec::new(),
            actors_pos: CoordMap::new(),
            actors_dead: Vec::new(),
            map: Arc::new(map),
            items,
            light_map: CoordMap::new(),
            turn: 0,
            descend: false,
            level: 0,
        };
        let ng = gen_actors.len();
        let mut i: usize = 0;
        while i < ng
            invariant
                ng == gen_actors@.len() <= 4,
                0 <= i <= ng,
                state.wf(),
                state.actors@.len() == i,
                state.turn == 0,
                state.level == 0,
                !state.descend,
                state.map@.contains_key(Coord { x: 0, y: 0 }),
                state.light_map@ =~= Map::<Coord, u32>::empty(),
                state.actors_dead@ == Seq::<u32>::empty(),
                forall|j: int|
                    0 <= j < gen_actors@.len() ==> !(#[trigger] gen_actors@[j]).player
                        && in_range(gen_actors@[j].pos.coord),
                forall|id: int| 0 <= id < i ==> !(#[trigger] state.actor(id)).player,
            decreases ng - i,
        {
            let a = gen_actors[i].duplicate();
            proof {
                assert(gen_actors@[i as int].player == a.player);
            }
            let ghost pre = state;
            state.spawn(a);
            proof {
                assert forall|id: int| 0 <= id < i + 1 implies !(#[trigger] state.actor(
                    id,
                )).player by {
                    if id == i as int {
                        assert(state.actors@[id] == Some(a));
                    } else {
                        assert(state.actors@[id] == pre.actors@[id]);
                        assert(!pre.actor(id).player);
                    }
                }
            }
            i += 1;
        }
        let ghost before = state;
        state.spawn_player(crate::hex::Position { coord: cp, dir: crate::hex::Direction::North });
        proof {
            assert forall|id: int| 0 <= id < state.actors@.len() - 1 implies !(
            #[trigger] state.actor(id)).player by {
                assert(state.actors@[id] == before.actors@[id]);
                assert(!before.actor(id).player);
            }
        }
        state
    }

    /// The world of the next dungeon level: freshly generated, with the
    /// player — and the pony companion, if one lives here — carried
    /// over to its start, told of the change, and spawned in.  Everyone
    /// else stays behind.
    pub fn next_level(&self) -> (r: State)
        requires
            self.wf(),
            self.level < u32::MAX,
            exists|pid: int| #[trigger] self.attached(pid) && self.actor(pid).player,
        ensures
            r.wf(),
            r.level == self.level + 1,
            r.turn == self.turn,
            !r.descend,
            r.actors_dead@ == Seq::<u32>::empty(),
            1 <= r.actors@.len() <= 6,
            exists|opid: int, nid: int|
                #![trigger self.actor(opid), r.actor(nid)]
                self.attached(opid) && self.actor(opid).player && r.attached(nid) && r.actor(
                    nid,
                ).player && carried_over(self.actor(opid), r.actor(nid), start_position()),
            forall|i: int, j: int|
                r.has_id(i) && r.has_id(j) && (#[trigger] r.actor(i)).player && (
                #[trigger] r.actor(j)).player ==> i == j,
            (exists|q: int| #[trigger]
                self.attached(q) && self.actor(q).race == crate::actor::Race::Pony && !self.actor(
                    q,
                ).player) ==> (exists|oq: int, nq: int|
                #![trigger self.actor(oq), r.actor(nq)]
                self.attached(oq) && self.actor(oq).race == crate::actor::Race::Pony
                    && !self.actor(oq).player && r.attached(nq) && r.actor(nq).race
                    == crate::actor::Race::Pony && !r.actor(nq).player && carried_over(
                    self.actor(oq),
                    r.actor(nq),
                    companion_position(),
                )),
    {
        let cp = Coord { x: 0, y: 0 };
        let (map, gen_actors, items) = crate::generate::generate(self.level + 1, cp, 400);
        let mut state = State {
            actors: Vec::new(),
            actors_pos: CoordMap::new(),
            actors_dead: Vec::new(),
            map: Arc::new(map),
            items,
            light_map: CoordMap::new(),
            turn: self.turn,
            descend: false,
            level: self.level + 1,
        };
        let ng = gen_actors.len();
        let mut i: usize = 0;
        while i < ng
            invariant
                ng == gen_actors@.len() <= 4,
                0 <= i <= ng,
                state.wf(),
                state.actors@.len() == i,
                state.turn == self.turn,
                state.level == self.level + 1,
                !state.descend,
                state.actors_dead@ == Seq::<u32>::empty(),
                forall|j: int|
                    0 <= j < gen_actors@.len() ==> !(#[trigger] gen_actors@[j]).player
                        && in_range(gen_actors@[j].pos.coord),
                forall|id: int| 0 <= id < i ==> !(#[trigger] state.actor(id)).player,
            decreases ng - i,
        {
            let a = gen_actors[i].duplicate();
            proof {
                assert(gen_actors@[i as int].player == a.player);
            }
            let ghost pre = state;
            state.spawn(a);
            proof {
                assert forall|id: int| 0 <= id < i + 1 implies !(#[trigger] state.actor(
                    id,
                )).player by {
                    if id == i as int {
                        assert(state.actors@[id] == Some(a));
                    } else {
                        assert(state.actors@[id] == pre.actors@[id]);
                        assert(!pre.actor(id).player);
                    }
                }
            }
            i += 1;
        }
        let n = self.actors.len();
        let mut pi: usize = 0;
        while pi < n
            invariant
                self.wf(),
                n == self.actors@.len(),
                0 <= pi <= n,
                exists|pid: int| #[trigger] self.attached(pid) && self.actor(pid).player,
                forall|id: int| 0 <= id < pi ==> !(#[trigger] self.actor(id)).player,
            ensures
                self.wf(),
                n == self.actors@.len(),
                0 <= pi <= n,
                exists|pid: int| #[trigger] self.attached(pid) && self.actor(pid).player,
                forall|id: int| 0 <= id < pi ==> !(#[trigger] self.actor(id)).player,
                pi < n ==> self.attached(pi as int) && self.actor(pi as int).player,
            decreases n - pi,
        {
            let is_p = match &self.actors[pi] {
                Some(a) => a.player,
                None => false,
            };
            proof {
                assert(self.attached(pi as int));
            }
            if is_p {
                break ;
            }
            pi += 1;
        }
        proof {
            if pi == n {
                let pid = choose|pid: int| #[trigger] self.attached(pid) && self.actor(pid).player;
                assert(!self.actor(pid).player);
            }
            assert(pi < n);
        }
        let mut player = match &self.actors[pi] {
            Some(a) => a.duplicate(),
            None => Actor::new(crate::actor::Race::Human, crate::hex::Position {
                coord: cp,
                dir: crate::hex::Direction::North,
            }),
        };
        player.moved(crate::hex::Position { coord: cp, dir: crate::hex::Direction::North });
        player.changed_level();
        let ghost player_fin = player;
        let ghost before_player = state.actors@.len() as int;
        let ghost pre_p = state;
        state.spawn(player);
        proof {
            assert(state.actors@[before_player] == Some(player_fin));
            assert(state.attached(before_player) && state.actor(before_player) == player_fin);
            assert(carried_over(self.actor(pi as int), player_fin, start_position()));
            assert forall|id: int| 0 <= id < before_player implies !(#[trigger] state.actor(
                id,
            )).player by {
                assert(state.actors@[id] == pre_p.actors@[id]);
                assert(!pre_p.actor(id).player);
            }
        }
        // The pony companion, if one lives here, comes along too.  The
        // player itself is no companion, whatever its race.
        let mut qi: usize = 0;
        while qi < n
            invariant
                self.wf(),
                n == self.actors@.len(),
                0 <= qi <= n,
                forall|id: int|
                    0 <= id < qi ==> !((#[trigger] self.actor(id)).race
                        == crate::actor::Race::Pony && !self.actor(id).player),
            ensures
                self.wf(),
                n == self.actors@.len(),
                0 <= qi <= n,
                forall|id: int|
                    0 <= id < qi ==> !((#[trigger] self.actor(id)).race
                        == crate::actor::Race::Pony && !self.actor(id).player),
                qi < n ==> self.attached(qi as int) && self.actor(qi as int).race
                    == crate::actor::Race::Pony && !self.actor(qi as int).player,
            decreases n - qi,
        {
            let is_pony = match &self.actors[qi] {
                Some(a) => a.race == crate::actor::Race::Pony && !a.player,
                None => false,
            };
            proof {
                assert(self.attached(qi as int));
            }
            if is_pony {
                break ;
            }
            qi += 1;
        }
        if qi < n {
            let mut pony = match &self.actors[qi] {
                Some(a) => a.duplicate(),
                None => Actor::new(crate::actor::Race::Pony, crate::hex::Position {
                    coord: cp,
                    dir: crate::hex::Direction::North,
                }),
            };
            pony.moved(crate::hex::Position {
                coord: Coord { x: -1, y: 0 },
                dir: crate::hex::Direction::North,
            });
            pony.changed_level();
            let ghost pony_fin = pony;
            let ghost before_pony = state.actors@.len() as int;
            let ghost pre_q = state;
            state.spawn(pony);
            proof {
                assert(state.actors@[before_pony] == Some(pony_fin));
                assert(state.actors@[before_player] == pre_q.actors@[before_player]);
                assert(state.attached(before_player) && state.actor(before_player) == player_fin);
                assert(carried_over(self.actor(qi as int), pony_fin, companion_position()));
                assert(!pony_fin.player);
                assert(state.actor(before_pony) == pony_fin);
                assert(self.attached(qi as int) && self.actor(qi as int).race
                    == crate::actor::Race::Pony && !self.actor(qi as int).player && state.attached(
                    before_pony,
                ) && state.actor(before_pony).race == crate::actor::Race::Pony && !state.actor(
                    before_pony,
                ).player && carried_over(
                    self.actor(qi as int),
                    state.actor(before_pony),
                    companion_position(),
                ));
                assert forall|id: int|
                    state.has_id(id) && id != before_player implies !(#[trigger] state.actor(
                    id,
                )).player by {
                    if id != before_pony {
                        assert(state.actors@[id] == pre_q.actors@[id]);
                        assert(!pre_q.actor(id).player);
                    }
                }
            }
        } else {
            proof {
                if exists|q: int| #[trigger]
                    self.attached(q) && self.actor(q).race == crate::actor::Race::Pony
                        && !self.actor(q).player {
                    let q = choose|q: int| #[trigger]
                        self.attached(q) && self.actor(q).race == crate::actor::Race::Pony
                            && !self.actor(q).player;
                    assert(!(self.actor(q).race == crate::actor::Race::Pony && !self.actor(
                        q,
                    ).player));
                }
                assert forall|id: int|
                    state.has_id(id) && id != before_player implies !(#[trigger] state.actor(
                    id,
                )).player by {}
            }
        }
        proof {
            assert(self.attached(pi as int) && self.actor(pi as int).player && state.attached(
                before_player,
            ) && state.actor(before_player).player && carried_over(
                self.actor(pi as int),
                state.actor(before_player),
                start_position(),
            ));
            assert forall|i2: int, j2: int|
                state.has_id(i2) && state.has_id(j2) && (#[trigger] state.actor(i2)).player && (
            #[trigger] state.actor(j2)).player implies i2 == j2 by {
                assert(i2 == before_player && j2 == before_player);
            }
        }
        state
    }

    /// The id the next spawned actor will get.
    pub fn actors_counter(&self) -> (r: u32)
        requires
            self.wf(),
        ensures
            r as int == self.actors@.len(),
    {
        self.actors.len() as u32
    }

    /// The ids of all actors, dead or alive, in increasing order.
    pub fn actors_ids(&self) -> (r: Vec<u32>)
        requires
            self.wf(),
        ensures
            r@.len() == self.actors@.len(),
            forall|i: int| 0 <= i < r@.len() ==> r@[i] == i as u32,
    {
        let n = self.actors.len();
        let mut v: Vec<u32> = Vec::new();
        let mut i: usize = 0;
        while i < n
            invariant
                n == self.actors@.len() <= u32::MAX,
                0 <= i <= n,
                v@.len() == i,
                forall|j: int| 0 <= j < i ==> v@[j] == j as u32,
            decreases n - i,
        {
            v.push(i as u32);
            i += 1;
        }
        v
    }

    /// The ids of all alive actors, in increasing order.
    pub fn actors_alive_ids(&self) -> (r: Vec<u32>)
        requires
            self.wf(),
        ensures
            forall|j: int|
                0 <= j < r@.len() ==> self.alive(#[trigger] r@[j] as int),
            forall|id: int|
                0 <= id < self.actors@.len() && self.alive(id) ==> r@.contains(id as u32),
            forall|j1: int, j2: int| 0 <= j1 < j2 < r@.len() ==> r@[j1] < r@[j2],
    {
        let n = self.actors.len();
        let mut v: Vec<u32> = Vec::new();
        let mut i: usize = 0;
        while i < n
            invariant
                self.wf(),
                n == self.actors@.len() <= u32::MAX,
                0 <= i <= n,
                forall|j: int| 0 <= j < v@.len() ==> self.alive(#[trigger] v@[j] as int),
                forall|j: int| 0 <= j < v@.len() ==> (#[trigger] v@[j] as int) < i,
                forall|id: int| 0 <= id < i && self.alive(id) ==> v@.contains(id as u32),
                forall|j1: int, j2: int| 0 <= j1 < j2 < v@.len() ==> v@[j1] < v@[j2],
            decreases n - i,
        {
            let ghost before = v@;
            let alive = match &self.actors[i] {
                Some(a) => a.hp != 0,
                None => false,
            };
            if alive {
                v.push(i as u32);
            }
            proof {
                assert forall|id: int| 0 <= id < i + 1 && self.alive(id) implies v@.contains(
                    id as u32,
                ) by {
                    if id < i {
                        let j = choose|j: int|
                            0 <= j < before.len() && before[j] == id as u32;
                        assert(v@[j] == id as u32);
                    } else {
                        assert(v@[v@.len() - 1] == id as u32);
                    }
                }
            }
            i += 1;
        }
        v
    }

    /// Detaches the record of id `id` from the registry.
    pub fn take_actor(&mut self, id: u32) -> (a: Actor)
        requires
            old(self).attached(id as int),
        ensures
            a == old(self).actor(id as int),
            final (self).actors@ == old(self).actors@.update(id as int, None),
            *final (self) == (State { actors: final (self).actors, ..*old(self) }),
    {
        let slot = &mut self.actors[id as usize];
        let a = slot.take();
        a.unwrap()
    }

    /// Reattaches a record under the id `id`.
    pub fn put_actor(&mut self, id: u32, a: Actor)
        requires
            old(self).has_id(id as int),
        ensures
            final (self).actors@ == old(self).actors@.update(id as int, Some(a)),
            *final (self) == (State { actors: final (self).actors, ..*old(self) }),
    {
        self.actors[id as usize] = Some(a);
    }

    /// Registers a new actor: it gets the next id, and its coordinate is
    /// put into the index.
    pub fn spawn(&mut self, astate: Actor)
        requires
            old(self).wf(),
            old(self).actors@.len() < u32::MAX,
            in_range(astate.pos.coord),
        ensures
            final (self).wf(),
            final (self).actors@ == old(self).actors@.push(Some(astate)),
            final (self).actors_pos@ == old(self).actors_pos@.insert(
                astate.pos.coord,
                old(self).actors@.len() as u32,
            ),
            *final (self) == (State {
                actors: final (self).actors,
                actors_pos: final (self).actors_pos,
                ..*old(self)
            }),
    {
        let id = self.actors.len() as u32;
        self.actors_pos.insert(astate.pos.coord, id);
        self.actors.push(Some(astate));
        proof {
            assert forall|i: int| final (self).has_id(i) implies #[trigger] final (
            self).attached(i) by {
                if i < old(self).actors@.len() {
                    assert(old(self).attached(i));
                }
            }
            assert forall|i: int| final (self).has_id(i) implies in_range(
                #[trigger] final (self).actor(i).pos.coord,
            ) by {
                if i < old(self).actors@.len() {
                    assert(final (self).actors@[i] == old(self).actors@[i]);
                    assert(in_range(old(self).actor(i).pos.coord));
                }
            }
        }
    }

    /// Spawns the player: a human actor flagged as the player character.
    pub fn spawn_player(&mut self, pos: crate::hex::Position)
        requires
            old(self).wf(),
            old(self).actors@.len() < u32::MAX,
            in_range(pos.coord),
        ensures
            final (self).wf(),
            final (self).actors@.len() == old(self).actors@.len() + 1,
            final (self).actors@ == old(self).actors@.push(
                Some(final (self).actor(old(self).actors@.len() as int)),
            ),
            final (self).actor(old(self).actors@.len() as int).player,
            final (self).actor(old(self).actors@.len() as int).race
                == crate::actor::Race::Human,
            final (self).actor(old(self).actors@.len() as int).pos == pos,
            final (self).actor(old(self).actors@.len() as int).hp != 0,
            final (self).actors_pos@ == old(self).actors_pos@.insert(
                pos.coord,
                old(self).actors@.len() as u32,
            ),
            *final (self) == (State {
                actors: final (self).actors,
                actors_pos: final (self).actors_pos,
                ..*old(self)
            }),
    {
        let mut a = Actor::new(crate::actor::Race::Human, pos);
        a.set_player();
        self.spawn(a);
    }

    /// A read-only view of the world bound to one coordinate.
    pub fn at(&self, coord: Coord) -> (r: At<'_>)
        ensures
            r.coord == coord,
            *r.state == *self,
    {
        At { coord, state: self }
    }
}

/// A read-only view of the world bound to one coordinate.
pub struct At<'a> {
    /// The coordinate the view is bound to.
    pub coord: Coord,
    /// The world the view reads.
    pub state: &'a State,
}

impl<'a> At<'a> {
    /// The tile at this coordinate, if the map covers it.
    pub fn tile(&self) -> (r: Option<&'a Tile>)
        requires
            self.state.map.wf(),
        ensures
            match r {
                Some(t) => self.state.map@.contains_key(self.coord) && *t
                    == self.state.map@[self.coord],
                None => !self.state.map@.contains_key(self.coord),
            },
    {
        self.state.map.get(self.coord)
    }

    /// Maps the tile here through `f`, or yields `def` where the map has
    /// no tile.
    pub fn tile_map_or<R, F: Fn(&Tile) -> R>(&self, def: R, f: F) -> (r: R)
        requires
            self.state.map.wf(),
            forall|t: &Tile| #[trigger] f.requires((t,)),
        ensures
            self.state.map@.contains_key(self.coord) ==> f.ensures(
                (&self.state.map@[self.coord],),
                r,
            ),
            !self.state.map@.contains_key(self.coord) ==> r == def,
    {
        match self.tile() {
            Some(t) => f(t),
            None => def,
        }
    }

    /// Maps the actor indexed here through `f`, or yields `def` where no
    /// actor is indexed.
    pub fn actor_map_or<R, F: Fn(&Actor) -> R>(&self, def: R, f: F) -> (r: R)
        requires
            self.state.wf(),
            forall|a: &Actor| #[trigger] f.requires((a,)),
        ensures
            self.state.actors_pos@.contains_key(self.coord) ==> f.ensures(
                (&self.state.actor(self.state.actors_pos@[self.coord] as int),),
                r,
            ),
            !self.state.actors_pos@.contains_key(self.coord) ==> r == def,
    {
        match self.state.actors_pos.get(self.coord) {
            Some(id) => {
                let id = *id;
                proof {
                    assert(self.state.attached(id as int));
                }
                match &self.state.actors[id as usize] {
                    Some(a) => f(a),
                    None => def,
                }
            },
            None => def,
        }
    }

    /// Maps the ground item here through `f`, or yields `def` where the
    /// cell holds none.
    pub fn item_map_or<R, F: Fn(&Item) -> R>(&self, def: R, f: F) -> (r: R)
        requires
            self.state.items.wf(),
            forall|it: &Item| #[trigger] f.requires((it,)),
        ensures
            self.state.items@.contains_key(self.coord) ==> f.ensures(
                (&self.state.items@[self.coord],),
                r,
            ),
            !self.state.items@.contains_key(self.coord) ==> r == def,
    {
        match self.item() {
            Some(it) => f(it),
            None => def,
        }
    }

    /// Whether an actor is indexed at this coordinate.
    pub fn is_occupied(&self) -> (r: bool)
        requires
            self.state.actors_pos.wf(),
        ensures
            r == self.state.actors_pos@.contains_key(self.coord),
    {
        self.state.actors_pos.contains_key(self.coord)
    }

    /// Whether this cell can be stepped onto: its tile can be walked on
    /// and no actor is indexed here.
    pub fn is_passable(&self) -> (r: bool)
        requires
            self.state.map.wf(),
            self.state.actors_pos.wf(),
        ensures
            r == spec_cell_passable(*self.state, self.coord),
    {
        if self.is_occupied() {
            return false;
        }
        match self.tile() {
            Some(t) => t.is_passable(),
            None => false,
        }
    }

    /// The light intensity at this coordinate; zero where the field has
    /// no entry.
    pub fn light(&self) -> (r: u32)
        requires
            self.state.light_map.wf(),
        ensures
            r == spec_light_at(*self.state, self.coord),
    {
        match self.state.light_map.get(self.coord) {
            Some(l) => *l,
            None => 0,
        }
    }

    /// The ground item at this coordinate, if any.
    pub fn item(&self) -> (r: Option<&'a Item>)
        requires
            self.state.items.wf(),
        ensures
            match r {
                Some(it) => self.state.items@.contains_key(self.coord) && *it
                    == self.state.items@[self.coord],
                None => !self.state.items@.contains_key(self.coord),
            },
    {
        self.state.items.get(self.coord)
    }
}

/// The tile at `c` carries the stairs feature.
pub open spec fn on_stairs(s: State, c: Coord) -> bool {
    s.map@.contains_key(c) && s.map@[c].feature == Some(Feature::Stairs)
}

/// The tile at `c` carries a closed door.
pub open spec fn on_closed_door(s: State, c: Coord) -> bool {
    s.map@.contains_key(c) && s.map@[c].feature == Some(Feature::Door(false))
}

/// The two worlds hold the same values, component for component.
pub open spec fn same_world(s: State, t: State) -> bool {
    &&& t.actors@ == s.actors@
    &&& same_but_registry(s, t)
}

/// The two worlds agree on everything but the actor registry.
pub open spec fn same_but_registry(s: State, t: State) -> bool {
    &&& t.actors_pos@ == s.actors_pos@
    &&& same_but_registry_and_index(s, t)
}

/// The two worlds agree on everything but the actor registry and the
/// coordinate index.
pub open spec fn same_but_registry_and_index(s: State, t: State) -> bool {
    &&& t.actors_dead@ == s.actors_dead@
    &&& t.map@ == s.map@
    &&& t.items@ == s.items@
    &&& t.light_map@ == s.light_map@
    &&& t.turn == s.turn
    &&& t.descend == s.descend
    &&& t.level == s.level
}

/// How applying the action of the actor `id` turns the world `s` into the
/// world `t`.  The cases mirror the resolution order: incapable actors do
/// nothing; an action that leaves the position alone applies its
/// non-positional effect; a forward-ish move into an occupied cell is a
/// melee attempt; a move into a closed door opens it; a move onto a
/// passable cell (or a turn in place) commits, leaving the old index
/// entry stale until cleanup; anything else fails silently.
pub open spec fn act_rel(s: State, id: int, action: Action, t: State) -> bool {
    let a = s.actor(id);
    let np = spec_pos_after(a.pos, action);
    if !(a.hp != 0 && a.acts) {
        same_world(s, t)
    } else if a.pos == np {
        match action {
            Action::Pick => {
                let head = spec_step(a.pos.coord, a.pos.dir);
                if s.items@.contains_key(head) {
                    &&& t.items@ == s.items@.remove(head)
                    &&& t.actors@ == s.actors@.update(
                        id,
                        Some((Actor { backpack: t.actor(id).backpack, ..a })),
                    )
                    &&& t.actor(id).backpack@ == a.backpack@.push(s.items@[head])
                    &&& t.actors_pos@ == s.actors_pos@
                    &&& t.actors_dead@ == s.actors_dead@
                    &&& t.map@ == s.map@
                    &&& t.light_map@ == s.light_map@
                    &&& t.turn == s.turn
                    &&& t.descend == s.descend
                    &&& t.level == s.level
                } else {
                    same_world(s, t)
                }
            },
            Action::Equip(ch) => {
                &&& equip_rel(a, ch, t.actor(id))
                &&& t.actors@ == s.actors@.update(id, Some(t.actor(id)))
                &&& same_but_registry(s, t)
            },
            Action::Descend => {
                &&& t.actors@ == s.actors@
                &&& t.actors_pos@ == s.actors_pos@
                &&& t.actors_dead@ == s.actors_dead@
                &&& t.map@ == s.map@
                &&& t.items@ == s.items@
                &&& t.light_map@ == s.light_map@
                &&& t.turn == s.turn
                &&& t.descend == (s.descend || on_stairs(s, a.pos.coord))
                &&& t.level == s.level
            },
            _ => same_world(s, t),
        }
    } else if spec_action_could_be_attack(action) && a.pos.coord != np.coord
        && s.actors_pos@.contains_key(np.coord) {
        let tid = s.actors_pos@[np.coord] as int;
        if !(a.hp != 0 && a.melee) || tid == id {
            same_world(s, t)
        } else {
            &&& struck(a.damage, s.actor(tid), t.actor(tid))
            &&& t.actors@ == s.actors@.update(tid, Some(t.actor(tid)))
            &&& same_but_registry(s, t)
        }
    } else if on_closed_door(s, np.coord) {
        &&& t.map@ == s.map@.insert(
            np.coord,
            (Tile { feature: Some(Feature::Door(true)), ..s.map@[np.coord] }),
        )
        &&& t.actors@ == s.actors@
        &&& t.actors_pos@ == s.actors_pos@
        &&& t.actors_dead@ == s.actors_dead@
        &&& t.items@ == s.items@
        &&& t.light_map@ == s.light_map@
        &&& t.turn == s.turn
        &&& t.descend == s.descend
        &&& t.level == s.level
    } else if a.pos.coord == np.coord || spec_cell_passable(s, np.coord) {
        &&& t.actors@ == s.actors@.update(id, Some((Actor { pos: np, ..a })))
        &&& t.actors_pos@ == s.actors_pos@.insert(np.coord, id as u32)
        &&& same_but_registry_and_index(s, t)
    } else {
        same_world(s, t)
    }
}

/// A cell can be stepped onto: its tile can be walked on and no actor is
/// indexed on it.
pub open spec fn spec_cell_passable(s: State, c: Coord) -> bool {
    &&& !s.actors_pos@.contains_key(c)
    &&& s.map@.contains_key(c)
    &&& tile_passable(s.map@[c])
}

/// The source `sid` and the index entry at `ic` make a noise pair: a
/// living, noisy actor and another living actor indexed within the
/// source's emission range.
pub open spec fn noise_pair(s: State, sid: int, ic: Coord) -> bool {
    &&& s.alive(sid)
    &&& s.actor(sid).noise_emission > 0
    &&& s.actors_pos@.contains_key(ic)
    &&& s.actors_pos@[ic] as int != sid
    &&& s.alive(s.actors_pos@[ic] as int)
    &&& crate::hex::spec_distance(s.actor(sid).pos.coord, ic) <= s.actor(
        sid,
    ).noise_emission as int
}

/// A heard entry `e` of the actor `tid` is a sound some noise pair of the
/// world `s` explains: a creature-classed sound from the source's cell.
pub open spec fn noise_entry_ok(s: State, tid: int, e: (Coord, crate::actor::NoiseType)) -> bool {
    exists|sid: int, ic: Coord|
        #![trigger noise_pair(s, sid, ic)]
        noise_pair(s, sid, ic) && s.actors_pos@[ic] as int == tid && e == (
            s.actor(sid).pos.coord,
            crate::actor::NoiseType::Creature(s.actor(sid).race),
        )
}

/// Where a carried-over player starts on a fresh level.
pub open spec fn start_position() -> crate::hex::Position {
    crate::hex::Position { coord: Coord { x: 0, y: 0 }, dir: Direction::North }
}

/// Where a carried-over companion starts on a fresh level.
pub open spec fn companion_position() -> crate::hex::Position {
    crate::hex::Position { coord: Coord { x: -1 as i64, y: 0 }, dir: Direction::North }
}

/// The record `b` is the record `a` carried over to a fresh level: the
/// same creature with the same inventories, its perception of the old
/// level void, standing at `p`.
pub open spec fn carried_over(a: Actor, b: Actor, p: crate::hex::Position) -> bool {
    &&& crate::actor::same_stats(a, b)
    &&& b.pos == p
    &&& b.heard@ == Seq::<(Coord, crate::actor::NoiseType)>::empty()
    &&& b.seen_light == 0
    &&& b.backpack@ == a.backpack@
    &&& b.equipped@ == a.equipped@
}

/// The tile at `src` is a light source.
pub open spec fn is_tile_source(s: State, src: Coord) -> bool {
    s.map@.contains_key(src) && s.map@[src].light > 0
}

/// The index entry at `ic` names a living, lit actor: an actor light
/// source.  The beam runs from the actor's current coordinate, which a
/// stale entry may differ from.
pub open spec fn is_actor_source(s: State, ic: Coord) -> bool {
    &&& s.actors_pos@.contains_key(ic)
    &&& s.attached(s.actors_pos@[ic] as int)
    &&& s.actor(s.actors_pos@[ic] as int).hp != 0
    &&& s.actor(s.actors_pos@[ic] as int).light_emission > 0
}

/// Where the actor source indexed at `ic` shines from.
pub open spec fn actor_source_origin(s: State, ic: Coord) -> Coord {
    s.actor(s.actors_pos@[ic] as int).pos.coord
}

/// How strongly the actor source indexed at `ic` shines.
pub open spec fn actor_source_budget(s: State, ic: Coord) -> u16 {
    s.actor(s.actors_pos@[ic] as int).light_emission
}

/// One of the world's light sources carries the value `v` to the cell
/// `c` by one of its beams.
pub open spec fn source_gives(s: State, c: Coord, v: int) -> bool {
    ||| exists|src: Coord| #[trigger]
        is_tile_source(s, src) && beam_gives(s.map@, src, s.map@[src].light, c, v)
    ||| exists|ic: Coord| #[trigger]
        is_actor_source(s, ic) && beam_gives(
            s.map@,
            actor_source_origin(s, ic),
            actor_source_budget(s, ic),
            c,
            v,
        )
}

/// The field `f` is exactly the recomputed light of the world `s`: every
/// entry is a value some source's beam brings that cell, and no beam of
/// any source brings any cell more than the field records there.
pub open spec fn light_field_ok(s: State, f: Map<Coord, u32>) -> bool {
    &&& forall|c: Coord| #[trigger] f.contains_key(c) ==> source_gives(s, c, f[c] as int)
    &&& forall|c: Coord, v: int| #[trigger]
        source_gives(s, c, v) ==> f.contains_key(c) && v <= f[c] as int
}

/// The light propagator is deterministic: any two fields that both match
/// one world are equal.  Together with `light_field_ok`'s own clauses —
/// every recorded value is one source's contribution, and no source
/// contributes more — this pins the recomputation completely.
pub proof fn lemma_light_deterministic(s: State, f1: Map<Coord, u32>, f2: Map<Coord, u32>)
    requires
        light_field_ok(s, f1),
        light_field_ok(s, f2),
    ensures
        f1 =~= f2,
{
    assert forall|c: Coord| #[trigger] f1.contains_key(c) implies f2.contains_key(c) && f1[c]
        == f2[c] by {
        assert(source_gives(s, c, f1[c] as int));
        assert(f2.contains_key(c) && f1[c] as int <= f2[c] as int);
        assert(source_gives(s, c, f2[c] as int));
        assert(f1.contains_key(c) && f2[c] as int <= f1[c] as int);
    }
    assert forall|c: Coord| #[trigger] f2.contains_key(c) implies f1.contains_key(c) by {
        assert(source_gives(s, c, f2[c] as int));
    }
}

/// A world that holds the same components as a well-formed one, value
/// for value, is well formed, whatever its counters and flags say.
pub proof fn lemma_wf_transfer(s1: State, s2: State)
    requires
        s1.wf(),
        s2.actors@ == s1.actors@,
        s2.actors_pos == s1.actors_pos,
        s2.map == s1.map,
        s2.items == s1.items,
        s2.light_map == s1.light_map,
    ensures
        s2.wf(),
{
    assert forall|id: int| s2.has_id(id) implies #[trigger] s2.attached(id) by {
        assert(s1.attached(id));
    }
    assert forall|id: int| s2.has_id(id) implies in_range(
        #[trigger] s2.actor(id).pos.coord,
    ) by {
        assert(s1.attached(id));
        assert(in_range(s1.actor(id).pos.coord));
    }
    assert forall|c: Coord| #[trigger] s2.actors_pos@.contains_key(c) implies (
    s2.actors_pos@[c] as int) < s2.actors@.len() && in_range(c) by {
        assert(s1.actors_pos@.contains_key(c));
    }
    assert forall|c: Coord| #[trigger] s2.map@.contains_key(c) implies in_range(c) && tile_wf(
        s2.map@[c],
    ) by {
        assert(s1.map@.contains_key(c));
    }
}

/// The recomputed light field depends only on the terrain, the index,
/// and each actor's place, life and emission: a world that agrees on
/// those matches the same fields.
pub proof fn lemma_light_stable(s1: State, s2: State, f: Map<Coord, u32>)
    requires
        light_field_ok(s1, f),
        s1.map@ == s2.map@,
        s1.actors_pos@ == s2.actors_pos@,
        s1.actors@.len() == s2.actors@.len(),
        forall|id: int|
            0 <= id < s1.actors@.len() ==> ((#[trigger] s1.attached(id)) == s2.attached(id)),
        forall|id: int|
            s1.attached(id) ==> crate::actor::same_stats(s1.actor(id), #[trigger] s2.actor(id))
                && s2.actor(id).pos == s1.actor(id).pos,
    ensures
        light_field_ok(s2, f),
{
    assert forall|c: Coord, v: int| #[trigger] source_gives(s2, c, v) implies source_gives(
        s1,
        c,
        v,
    ) by {
        if exists|src: Coord| #[trigger]
            is_tile_source(s2, src) && beam_gives(s2.map@, src, s2.map@[src].light, c, v) {
            let src = choose|src: Coord| #[trigger]
                is_tile_source(s2, src) && beam_gives(s2.map@, src, s2.map@[src].light, c, v);
            assert(is_tile_source(s1, src) && beam_gives(s1.map@, src, s1.map@[src].light, c, v));
        } else {
            let ic = choose|ic: Coord| #[trigger]
                is_actor_source(s2, ic) && beam_gives(
                    s2.map@,
                    actor_source_origin(s2, ic),
                    actor_source_budget(s2, ic),
                    c,
                    v,
                );
            let id = s2.actors_pos@[ic] as int;
            assert(s1.attached(id));
            assert(is_actor_source(s1, ic) && beam_gives(
                s1.map@,
                actor_source_origin(s1, ic),
                actor_source_budget(s1, ic),
                c,
                v,
            ));
        }
    }
    assert forall|c: Coord, v: int| #[trigger] source_gives(s1, c, v) implies source_gives(
        s2,
        c,
        v,
    ) by {
        if exists|src: Coord| #[trigger]
            is_tile_source(s1, src) && beam_gives(s1.map@, src, s1.map@[src].light, c, v) {
            let src = choose|src: Coord| #[trigger]
                is_tile_source(s1, src) && beam_gives(s1.map@, src, s1.map@[src].light, c, v);
            assert(is_tile_source(s2, src) && beam_gives(s2.map@, src, s2.map@[src].light, c, v));
        } else {
            let ic = choose|ic: Coord| #[trigger]
                is_actor_source(s1, ic) && beam_gives(
                    s1.map@,
                    actor_source_origin(s1, ic),
                    actor_source_budget(s1, ic),
                    c,
                    v,
                );
            let id = s1.actors_pos@[ic] as int;
            assert(s1.attached(id));
            assert(is_actor_source(s2, ic) && beam_gives(
                s2.map@,
                actor_source_origin(s2, ic),
                actor_source_budget(s2, ic),
                c,
                v,
            ));
        }
    }
    assert forall|c: Coord| #[trigger] f.contains_key(c) implies source_gives(
        s2,
        c,
        f[c] as int,
    ) by {
        assert(source_gives(s1, c, f[c] as int));
    }
    assert forall|c: Coord, v: int| #[trigger] source_gives(s2, c, v) implies f.contains_key(c)
        && v <= f[c] as int by {
        assert(source_gives(s1, c, v));
    }
}

/// A recorded light value never exceeds what single sources can give:
/// any bound that caps every source's contribution to a cell caps the
/// field's value there too, because each recorded value is itself one
/// source's contribution.
pub proof fn lemma_light_bounded_by_sources(s: State, f: Map<Coord, u32>, c: Coord, bound: int)
    requires
        light_field_ok(s, f),
        f.contains_key(c),
        forall|v: int| #[trigger] source_gives(s, c, v) ==> v <= bound,
    ensures
        f[c] as int <= bound,
{
    assert(source_gives(s, c, f[c] as int));
}

/// One element of the collected source list: some tile or actor source
/// with that origin and strength.
pub open spec fn source_elem(s: State, e: (Coord, u16)) -> bool {
    ||| exists|src: Coord| #[trigger] is_tile_source(s, src) && e == (src, s.map@[src].light)
    ||| exists|ic: Coord| #[trigger]
        is_actor_source(s, ic) && e == (actor_source_origin(s, ic), actor_source_budget(s, ic))
}

/// The light the field records at a cell; zero where it records nothing.
pub open spec fn spec_light_at(s: State, c: Coord) -> u32 {
    if s.light_map@.contains_key(c) {
        s.light_map@[c]
    } else {
        0u32
    }
}

/// A cell the drop search may walk through: the map covers it and its
/// tile can be walked on.  Actors standing around do not block a drop.
pub open spec fn step_ok(m: Map<Coord, Tile>, c: Coord) -> bool {
    m.contains_key(c) && tile_passable(m[c])
}

/// The two cells lie one step apart.
pub open spec fn hex_adjacent(a: Coord, b: Coord) -> bool {
    ||| b == spec_step(a, Direction::North)
    ||| b == spec_step(a, Direction::NorthEast)
    ||| b == spec_step(a, Direction::SouthEast)
    ||| b == spec_step(a, Direction::South)
    ||| b == spec_step(a, Direction::SouthWest)
    ||| b == spec_step(a, Direction::NorthWest)
}

/// A walk from `start` over walkable cells: every later cell is one step
/// from the cell before it and is itself walkable.
pub open spec fn is_drop_path(m: Map<Coord, Tile>, start: Coord, p: Seq<Coord>) -> bool {
    &&& p.len() >= 1
    &&& p[0] == start
    &&& forall|k: int| 1 <= k < p.len() ==> hex_adjacent(p[k - 1], #[trigger] p[k])
    &&& forall|k: int| 1 <= k < p.len() ==> step_ok(m, #[trigger] p[k])
}

/// The cell `c` can be reached from `start` through walkable cells.
pub open spec fn drop_reachable(m: Map<Coord, Tile>, start: Coord, c: Coord) -> bool {
    exists|p: Seq<Coord>| #[trigger] is_drop_path(m, start, p) && p.last() == c
}

/// Every cell reaches itself.
pub proof fn lemma_reach_self(m: Map<Coord, Tile>, start: Coord)
    ensures
        drop_reachable(m, start, start),
{
    let p = seq![start];
    assert(is_drop_path(m, start, p));
    assert(p.last() == start);
}

/// A walkable neighbour of a reached cell is reached.
pub proof fn lemma_reach_step(m: Map<Coord, Tile>, start: Coord, c: Coord, n: Coord, d: Direction)
    requires
        drop_reachable(m, start, c),
        n == spec_step(c, d),
        step_ok(m, n),
    ensures
        drop_reachable(m, start, n),
{
    let p = choose|p: Seq<Coord>| #[trigger] is_drop_path(m, start, p) && p.last() == c;
    let q = p.push(n);
    assert forall|k: int| 1 <= k < q.len() implies hex_adjacent(q[k - 1], #[trigger] q[k]) by {
        if k < p.len() {
            assert(q[k] == p[k] && q[k - 1] == p[k - 1]);
        } else {
            assert(q[k - 1] == c);
            assert(q[k] == spec_step(c, d));
        }
    }
    assert forall|k: int| 1 <= k < q.len() implies step_ok(m, #[trigger] q[k]) by {
        if k < p.len() {
            assert(q[k] == p[k]);
        }
    }
    assert(q[0] == p[0] && p[0] == start);
    assert(q.last() == n);
    assert(is_drop_path(m, start, q));
}

/// When every walkable cell reachable from the drop point already holds
/// an item, a drop leaves the ground exactly as it was: the item is
/// destroyed rather than placed.  The two premises are what `drop_item`
/// guarantees of any call.
pub proof fn lemma_drop_destroys_when_full(
    m: Map<Coord, Tile>,
    items0: Map<Coord, Item>,
    items1: Map<Coord, Item>,
    start: Coord,
    it: Item,
)
    requires
        forall|c: Coord|
            drop_reachable(m, start, c) && step_ok(m, c) ==> #[trigger] items0.contains_key(c),
        (exists|c: Coord|
            drop_reachable(m, start, c) && step_ok(m, c) && !items0.contains_key(c) && items1
                == items0.insert(c, it)) || items1 == items0,
    ensures
        items1 == items0,
{
    if exists|c: Coord|
        drop_reachable(m, start, c) && step_ok(m, c) && !items0.contains_key(c) && items1
            == items0.insert(c, it) {
        let c = choose|c: Coord|
            drop_reachable(m, start, c) && step_ok(m, c) && !items0.contains_key(c) && items1
                == items0.insert(c, it);
        assert(items0.contains_key(c));
    }
}

/// A duplicate-free queue whose cells beyond the first are all map keys
/// cannot outgrow the map.
proof fn lemma_queue_bound(q: Seq<Coord>, m: Map<Coord, Tile>)
    requires
        q.len() >= 1,
        q.no_duplicates(),
        forall|i: int| 1 <= i < q.len() ==> step_ok(m, #[trigger] q[i]),
        m.dom().finite(),
    ensures
        q.len() <= m.dom().len() + 1,
{
    let t = q.drop_first();
    assert forall|i: int, j: int| 0 <= i < j < t.len() implies t[i] != t[j] by {
        assert(t[i] == q[i + 1] && t[j] == q[j + 1]);
    }
    t.unique_seq_to_set();
    assert forall|c: Coord| t.to_set().contains(c) implies m.dom().contains(c) by {
        let i = choose|i: int| 0 <= i < t.len() && t[i] == c;
        assert(t[i] == q[i + 1]);
        assert(step_ok(m, q[i + 1]));
    }
    assert(t.to_set().subset_of(m.dom()));
    vstd::set_lib::lemma_len_subset(t.to_set(), m.dom());
}

/// Whether the vector holds the id.
fn id_in_vec(v: &Vec<u32>, x: u32) -> (r: bool)
    ensures
        r == v@.contains(x),
{
    let n = v.len();
    let mut i: usize = 0;
    while i < n
        invariant
            n == v@.len(),
            0 <= i <= n,
            forall|j: int| 0 <= j < i ==> v@[j] != x,
        decreases n - i,
    {
        if v[i] == x {
            proof {
                assert(v@[i as int] == x);
            }
            return true;
        }
        i += 1;
    }
    false
}

/// The id `id` is dead in `s` and its death is not yet processed.
pub open spec fn newly_dead(s: State, id: int) -> bool {
    &&& s.has_id(id)
    &&& s.actor(id).hp == 0
    &&& !s.actors_dead@.contains(id as u32)
}

/// Every death the world holds has been processed already.
pub open spec fn deaths_processed(s: State) -> bool {
    forall|id: int|
        s.has_id(id) && (#[trigger] s.actor(id)).hp == 0 ==> s.actors_dead@.contains(id as u32)
}

/// The item `it` lying at `c` is explained by a death being swept: some
/// newly dead actor carried it, and `c` is a walkable cell reachable
/// from the cell it died on.
pub open spec fn dropped_from_death(s: State, c: Coord, it: Item) -> bool {
    exists|id: int|
        #![trigger s.actor(id)]
        s.has_id(id) && newly_dead(s, id) && (s.actor(id).backpack@.contains(it) || s.actor(
            id,
        ).equipped@.contains(it)) && drop_reachable(s.map@, s.actor(id).pos.coord, c) && step_ok(
            s.map@,
            c,
        )
}

/// One drop during a death sweep keeps both provenance facts: the old
/// ground is untouched, and every new entry is a dead actor's drained
/// item on a cell reachable from its death cell.
proof fn lemma_drop_provenance(
    s: State,
    items_pre: Map<Coord, Item>,
    items_post: Map<Coord, Item>,
    id: int,
    it: Item,
)
    requires
        s.has_id(id),
        newly_dead(s, id),
        s.actor(id).backpack@.contains(it) || s.actor(id).equipped@.contains(it),
        (exists|c: Coord|
            drop_reachable(s.map@, s.actor(id).pos.coord, c) && step_ok(s.map@, c)
                && !items_pre.contains_key(c) && items_post == items_pre.insert(c, it))
            || items_post == items_pre,
        forall|c: Coord| #[trigger]
            s.items@.contains_key(c) ==> items_pre.contains_key(c) && items_pre[c]
                == s.items@[c],
        forall|c: Coord| #[trigger]
            items_pre.contains_key(c) && !s.items@.contains_key(c) ==> dropped_from_death(
                s,
                c,
                items_pre[c],
            ),
    ensures
        forall|c: Coord| #[trigger]
            s.items@.contains_key(c) ==> items_post.contains_key(c) && items_post[c]
                == s.items@[c],
        forall|c: Coord| #[trigger]
            items_post.contains_key(c) && !s.items@.contains_key(c) ==> dropped_from_death(
                s,
                c,
                items_post[c],
            ),
{
    if exists|c: Coord|
        drop_reachable(s.map@, s.actor(id).pos.coord, c) && step_ok(s.map@, c)
            && !items_pre.contains_key(c) && items_post == items_pre.insert(c, it) {
        let cn = choose|c: Coord|
            drop_reachable(s.map@, s.actor(id).pos.coord, c) && step_ok(s.map@, c)
                && !items_pre.contains_key(c) && items_post == items_pre.insert(c, it);
        assert forall|c: Coord| #[trigger]
            items_post.contains_key(c) && !s.items@.contains_key(c) implies dropped_from_death(
            s,
            c,
            items_post[c],
        ) by {
            if c == cn {
                assert(s.actor(id) == s.actor(id));
                assert(dropped_from_death(s, c, it));
            } else {
                assert(items_pre.contains_key(c));
            }
        }
    }
}

/// A set of cells that holds the start and every walkable neighbour of
/// its members holds the last cell of every walk from the start.
proof fn lemma_bfs_closed(m: Map<Coord, Tile>, start: Coord, q: Seq<Coord>, p: Seq<Coord>)
    requires
        q.len() >= 1,
        q[0] == start,
        forall|k: int, d: Direction|
            #![trigger spec_step(q[k], d)]
            0 <= k < q.len() && step_ok(m, spec_step(q[k], d)) ==> q.contains(
                spec_step(q[k], d),
            ),
        is_drop_path(m, start, p),
    ensures
        q.contains(p.last()),
    decreases p.len(),
{
    if p.len() <= 1 {
        assert(p.last() == start);
        assert(q[0] == p.last());
    } else {
        let pp = p.drop_last();
        assert(pp[0] == start);
        assert forall|k: int| 1 <= k < pp.len() implies hex_adjacent(
            pp[k - 1],
            #[trigger] pp[k],
        ) by {
            assert(pp[k] == p[k] && pp[k - 1] == p[k - 1]);
        }
        assert forall|k: int| 1 <= k < pp.len() implies step_ok(m, #[trigger] pp[k]) by {
            assert(pp[k] == p[k]);
        }
        assert(is_drop_path(m, start, pp));
        lemma_bfs_closed(m, start, q, pp);
        let k = choose|k: int| 0 <= k < q.len() && q[k] == pp.last();
        assert(pp.last() == p[p.len() - 2]);
        assert(hex_adjacent(p[p.len() - 2], p.last()));
        assert(step_ok(m, p.last()));
        assert forall|d: Direction| p.last() == spec_step(pp.last(), d) implies q.contains(
            p.last(),
        ) by {
            assert(spec_step(q[k], d) == spec_step(pp.last(), d));
        }
        assert(q.contains(p.last()));
    }
}

/// Whether the vector holds the coordinate.
fn coord_in_vec(v: &Vec<Coord>, c: Coord) -> (r: bool)
    ensures
        r == v@.contains(c),
{
    let n = v.len();
    let mut i: usize = 0;
    while i < n
        invariant
            n == v@.len(),
            0 <= i <= n,
            forall|j: int| 0 <= j < i ==> v@[j] != c,
        decreases n - i,
    {
        if v[i] == c {
            proof {
                assert(v@[i as int] == c);
            }
            return true;
        }
        i += 1;
    }
    false
}

impl State {
    /// For every living actor, detaches its record, runs its pre-turn
    /// hook against the rest of the world, and reattaches it.  No hook
    /// ever sees a half-updated copy of its own record.
    pub fn pre_tick(&mut self)
        requires
            old(self).wf(),
        ensures
            final (self).wf(),
            *final (self) == (State { actors: final (self).actors, ..*old(self) }),
            final (self).actors@.len() == old(self).actors@.len(),
            forall|id: int| old(self).has_id(id) ==> #[trigger] final (self).attached(id),
            forall|id: int|
                old(self).has_id(id) && !old(self).alive(id) ==> (#[trigger] final (self).actor(
                    id,
                )) == old(self).actor(id),
            forall|id: int|
                old(self).has_id(id) && old(self).alive(id) ==> (#[trigger] final (self).actor(
                    id,
                )) == (Actor { heard: final (self).actor(id).heard, ..old(self).actor(id) })
                    && final (self).actor(id).heard@ == Seq::<
                    (Coord, crate::actor::NoiseType),
                >::empty(),
    {
        let ghost s = *old(self);
        let n = self.actors.len();
        let mut i: usize = 0;
        while i < n
            invariant
                s.wf(),
                n == s.actors@.len(),
                0 <= i <= n,
                *self == (State { actors: self.actors, ..s }),
                self.actors@.len() == n,
                forall|id: int| s.has_id(id) ==> #[trigger] self.attached(id),
                forall|id: int|
                    s.has_id(id) && (i <= id || !s.alive(id)) ==> (#[trigger] self.actor(id))
                        == s.actor(id),
                forall|id: int|
                    s.has_id(id) && id < i && s.alive(id) ==> (#[trigger] self.actor(id))
                        == (Actor { heard: self.actor(id).heard, ..s.actor(id) })
                        && self.actor(id).heard@ == Seq::<(Coord, crate::actor::NoiseType)>::empty(),
            decreases n - i,
        {
            let ghost pre = *self;
            let id = i as u32;
            let alive = match &self.actors[i] {
                Some(a) => a.hp != 0,
                None => false,
            };
            if alive {
                let mut a = self.take_actor(id);
                a.pre_tick(self);
                let ghost a_fin = a;
                self.put_actor(id, a);
                proof {
                    assert(self.actors@ =~= pre.actors@.update(i as int, Some(a_fin)));
                    assert(pre.actor(i as int) == s.actor(i as int));
                    assert(self.actor(i as int) == a_fin);
                    assert forall|idx: int| s.has_id(idx) implies #[trigger] self.attached(
                        idx,
                    ) by {
                        if idx != i as int {
                            assert(pre.attached(idx));
                            assert(self.actors@[idx] == pre.actors@[idx]);
                        }
                    }
                    assert forall|idx: int|
                        s.has_id(idx) && (i + 1 <= idx || !s.alive(idx)) implies (
                    #[trigger] self.actor(idx)) == s.actor(idx) by {
                        assert(self.actors@[idx] == pre.actors@[idx]);
                        assert(pre.actor(idx) == s.actor(idx));
                    }
                    assert forall|idx: int|
                        s.has_id(idx) && idx < i + 1 && s.alive(idx) implies (
                    #[trigger] self.actor(idx)) == (Actor {
                        heard: self.actor(idx).heard,
                        ..s.actor(idx)
                    }) && self.actor(idx).heard@ == Seq::<
                        (Coord, crate::actor::NoiseType),
                    >::empty() by {
                        if idx != i as int {
                            assert(self.actors@[idx] == pre.actors@[idx]);
                            assert(pre.actor(idx) == (Actor {
                                heard: pre.actor(idx).heard,
                                ..s.actor(idx)
                            }));
                        }
                    }
                }
            } else {
                proof {
                    assert(self.attached(i as int));
                    assert(self.actor(i as int) == s.actor(i as int));
                    assert(self.actor(i as int).hp == 0);
                    assert(!s.alive(i as int));
                }
            }
            i += 1;
        }
        proof {
            assert forall|id: int| self.has_id(id) implies in_range(
                #[trigger] self.actor(id).pos.coord,
            ) by {
                assert(s.attached(id));
                assert(in_range(s.actor(id).pos.coord));
            }
        }
    }

    /// Gathers every noise event of this turn: one (hearer, source cell,
    /// source race) triple for every noise pair.
    fn collect_noise_events(&self) -> (r: Vec<(u32, Coord, crate::actor::Race)>)
        requires
            self.wf(),
        ensures
            forall|j: int|
                0 <= j < r@.len() ==> self.alive((#[trigger] r@[j]).0 as int) && noise_entry_ok(
                    *self,
                    r@[j].0 as int,
                    (r@[j].1, crate::actor::NoiseType::Creature(r@[j].2)),
                ),
            forall|sid: int, ic: Coord|
                #![trigger noise_pair(*self, sid, ic)]
                noise_pair(*self, sid, ic) ==> r@.contains(
                    (
                        self.actors_pos@[ic],
                        self.actor(sid).pos.coord,
                        self.actor(sid).race,
                    ),
                ),
    {
        let mut r: Vec<(u32, Coord, crate::actor::Race)> = Vec::new();
        let n = self.actors.len();
        let mut sid: usize = 0;
        while sid < n
            invariant
                self.wf(),
                n == self.actors@.len(),
                0 <= sid <= n,
                forall|j: int|
                    0 <= j < r@.len() ==> self.alive((#[trigger] r@[j]).0 as int)
                        && noise_entry_ok(
                        *self,
                        r@[j].0 as int,
                        (r@[j].1, crate::actor::NoiseType::Creature(r@[j].2)),
                    ),
                forall|s2: int, ic: Coord|
                    #![trigger noise_pair(*self, s2, ic)]
                    0 <= s2 < sid && noise_pair(*self, s2, ic) ==> r@.contains(
                        (
                            self.actors_pos@[ic],
                            self.actor(s2).pos.coord,
                            self.actor(s2).race,
                        ),
                    ),
            decreases n - sid,
        {
            let (src_alive, src_em, src_coord, src_race) = match &self.actors[sid] {
                Some(a) => (a.hp != 0, a.noise_emission, a.pos.coord, a.race),
                None => (false, 0u16, Coord { x: 0, y: 0 }, crate::actor::Race::Rat),
            };
            if src_alive && src_em > 0 {
                let m2 = self.actors_pos.entry_count();
                let mut e: usize = 0;
                while e < m2
                    invariant
                        self.wf(),
                        n == self.actors@.len(),
                        0 <= sid < n,
                        m2 == self.actors_pos.entry_seq().len(),
                        0 <= e <= m2,
                        self.alive(sid as int),
                        src_em == self.actor(sid as int).noise_emission,
                        src_em > 0,
                        src_coord == self.actor(sid as int).pos.coord,
                        src_race == self.actor(sid as int).race,
                        forall|j: int|
                            0 <= j < r@.len() ==> self.alive((#[trigger] r@[j]).0 as int)
                                && noise_entry_ok(
                                *self,
                                r@[j].0 as int,
                                (r@[j].1, crate::actor::NoiseType::Creature(r@[j].2)),
                            ),
                        forall|s2: int, ic: Coord|
                            #![trigger noise_pair(*self, s2, ic)]
                            0 <= s2 < sid && noise_pair(*self, s2, ic) ==> r@.contains(
                                (
                                    self.actors_pos@[ic],
                                    self.actor(s2).pos.coord,
                                    self.actor(s2).race,
                                ),
                            ),
                        forall|ic: Coord|
                            #![trigger noise_pair(*self, sid as int, ic)]
                            (exists|j: int|
                                0 <= j < e && (#[trigger] self.actors_pos.entry_seq()[j]).0
                                    == ic) && noise_pair(*self, sid as int, ic) ==> r@.contains(
                                (self.actors_pos@[ic], src_coord, src_race),
                            ),
                    decreases m2 - e,
                {
                    let entry = self.actors_pos.entry_at(e);
                    let ic = entry.0;
                    let tid = entry.1;
                    proof {
                        assert(self.actors_pos@.contains_key(ic) && self.actors_pos@[ic] == tid);
                    }
                    let t_alive = match &self.actors[tid as usize] {
                        Some(a) => a.hp != 0,
                        None => false,
                    };
                    if tid as usize != sid && t_alive && src_coord.distance(ic) <= src_em as i64 {
                        let ghost prev = r@;
                        r.push((tid, src_coord, src_race));
                        proof {
                            assert(noise_pair(*self, sid as int, ic));
                            assert(r@[prev.len() as int] == (tid, src_coord, src_race));
                            assert(noise_entry_ok(
                                *self,
                                tid as int,
                                (src_coord, crate::actor::NoiseType::Creature(src_race)),
                            ));
                            assert forall|s2: int, ic2: Coord|
                                0 <= s2 < sid && #[trigger] noise_pair(
                                    *self,
                                    s2,
                                    ic2,
                                ) implies r@.contains(
                                (
                                    self.actors_pos@[ic2],
                                    self.actor(s2).pos.coord,
                                    self.actor(s2).race,
                                ),
                            ) by {
                                lemma_push_contains(
                                    prev,
                                    (tid, src_coord, src_race),
                                    (
                                        self.actors_pos@[ic2],
                                        self.actor(s2).pos.coord,
                                        self.actor(s2).race,
                                    ),
                                );
                            }
                            assert forall|ic2: Coord|
                                (exists|j: int|
                                    0 <= j < e + 1 && (
                                    #[trigger] self.actors_pos.entry_seq()[j]).0 == ic2)
                                    && #[trigger] noise_pair(
                                    *self,
                                    sid as int,
                                    ic2,
                                ) implies r@.contains(
                                (self.actors_pos@[ic2], src_coord, src_race),
                            ) by {
                                lemma_push_contains(
                                    prev,
                                    (tid, src_coord, src_race),
                                    (self.actors_pos@[ic2], src_coord, src_race),
                                );
                                if ic2 == ic {
                                    assert(r@[prev.len() as int] == (
                                        self.actors_pos@[ic2],
                                        src_coord,
                                        src_race,
                                    ));
                                }
                            }
                        }
                    } else {
                        proof {
                            assert forall|ic2: Coord|
                                (exists|j: int|
                                    0 <= j < e + 1 && (
                                    #[trigger] self.actors_pos.entry_seq()[j]).0 == ic2)
                                    && #[trigger] noise_pair(
                                    *self,
                                    sid as int,
                                    ic2,
                                ) implies r@.contains(
                                (self.actors_pos@[ic2], src_coord, src_race),
                            ) by {
                                if ic2 == ic {
                                    assert(!noise_pair(*self, sid as int, ic));
                                }
                            }
                        }
                    }
                    e += 1;
                }
                proof {
                    self.actors_pos.lemma_entries();
                    assert forall|ic: Coord| #[trigger] noise_pair(
                        *self,
                        sid as int,
                        ic,
                    ) implies r@.contains((self.actors_pos@[ic], src_coord, src_race)) by {
                        let j = choose|j: int|
                            0 <= j < self.actors_pos.entry_seq().len() && (
                            #[trigger] self.actors_pos.entry_seq()[j]).0 == ic;
                    }
                }
            } else {
                proof {
                    assert forall|ic: Coord| #[trigger] noise_pair(
                        *self,
                        sid as int,
                        ic,
                    ) implies false by {
                        assert(self.attached(sid as int));
                        assert(self.actor(sid as int).hp == 0 || self.actor(
                            sid as int,
                        ).noise_emission == 0);
                    }
                }
            }
            sid += 1;
        }
        r
    }

    /// Broadcasts every living, noisy actor's sound to every other
    /// living actor the index places within its range: each hearer's
    /// perception records where the sound came from and what kind of
    /// creature made it.
    pub fn recalculate_noise(&mut self)
        requires
            old(self).wf(),
        ensures
            final (self).wf(),
            *final (self) == (State { actors: final (self).actors, ..*old(self) }),
            final (self).actors@.len() == old(self).actors@.len(),
            forall|id: int| old(self).has_id(id) ==> #[trigger] final (self).attached(id),
            forall|id: int|
                old(self).has_id(id) ==> (#[trigger] final (self).actor(id)) == (Actor {
                    heard: final (self).actor(id).heard,
                    ..old(self).actor(id)
                }),
            forall|id: int|
                old(self).has_id(id) ==> old(self).actor(id).heard@.len() <= (
                #[trigger] final (self).actor(id).heard@).len(),
            forall|id: int, j: int|
                old(self).has_id(id) && 0 <= j < old(self).actor(id).heard@.len() ==> (
                #[trigger] final (self).actor(id).heard@[j]) == old(self).actor(id).heard@[j],
            forall|id: int, j: int|
                old(self).has_id(id) && old(self).actor(id).heard@.len() <= j
                    < final (self).actor(id).heard@.len() ==> noise_entry_ok(
                    *old(self),
                    id,
                    #[trigger] final (self).actor(id).heard@[j],
                ),
            forall|sid: int, ic: Coord|
                #![trigger noise_pair(*old(self), sid, ic)]
                noise_pair(*old(self), sid, ic) ==> final (self).actor(
                    old(self).actors_pos@[ic] as int,
                ).heard@.contains(
                    (
                        old(self).actor(sid).pos.coord,
                        crate::actor::NoiseType::Creature(old(self).actor(sid).race),
                    ),
                ),
    {
        let ghost s = *old(self);
        let events = self.collect_noise_events();
        let ne = events.len();
        let mut j: usize = 0;
        while j < ne
            invariant
                s.wf(),
                ne == events@.len(),
                0 <= j <= ne,
                *self == (State { actors: self.actors, ..s }),
                self.actors@.len() == s.actors@.len(),
                forall|jj: int|
                    0 <= jj < events@.len() ==> s.alive((#[trigger] events@[jj]).0 as int)
                        && noise_entry_ok(
                        s,
                        events@[jj].0 as int,
                        (events@[jj].1, crate::actor::NoiseType::Creature(events@[jj].2)),
                    ),
                forall|sid: int, ic: Coord|
                    #![trigger noise_pair(s, sid, ic)]
                    noise_pair(s, sid, ic) ==> events@.contains(
                        (s.actors_pos@[ic], s.actor(sid).pos.coord, s.actor(sid).race),
                    ),
                forall|id: int| s.has_id(id) ==> #[trigger] self.attached(id),
                forall|id: int|
                    s.has_id(id) ==> (#[trigger] self.actor(id)) == (Actor {
                        heard: self.actor(id).heard,
                        ..s.actor(id)
                    }),
                forall|id: int|
                    s.has_id(id) ==> s.actor(id).heard@.len() <= (#[trigger] self.actor(
                        id,
                    ).heard@).len(),
                forall|id: int, jj: int|
                    s.has_id(id) && 0 <= jj < s.actor(id).heard@.len() ==> (#[trigger] self.actor(
                        id,
                    ).heard@[jj]) == s.actor(id).heard@[jj],
                forall|id: int, jj: int|
                    s.has_id(id) && s.actor(id).heard@.len() <= jj < self.actor(id).heard@.len()
                        ==> noise_entry_ok(s, id, #[trigger] self.actor(id).heard@[jj]),
                forall|jj: int|
                    0 <= jj < j ==> self.actor((#[trigger] events@[jj]).0 as int).heard@.contains(
                        (events@[jj].1, crate::actor::NoiseType::Creature(events@[jj].2)),
                    ),
            decreases ne - j,
        {
            let (tid, from, race) = events[j];
            proof {
                assert(events@[j as int] == (tid, from, race));
                assert(s.alive(tid as int));
                assert(self.attached(tid as int));
            }
            let ghost pre = *self;
            let mut a = self.take_actor(tid);
            a.noise_hears(from, crate::actor::NoiseType::Creature(race));
            let ghost a_fin = a;
            self.put_actor(tid, a);
            proof {
                assert(self.actors@ =~= pre.actors@.update(tid as int, Some(a_fin)));
                assert(self.actor(tid as int) == a_fin);
                assert forall|id: int| s.has_id(id) implies #[trigger] self.attached(id) by {
                    if id != tid as int {
                        assert(pre.attached(id));
                        assert(self.actors@[id] == pre.actors@[id]);
                    }
                }
                assert forall|id: int| s.has_id(id) implies (#[trigger] self.actor(id)) == (Actor {
                    heard: self.actor(id).heard,
                    ..s.actor(id)
                }) && s.actor(id).heard@.len() <= self.actor(id).heard@.len() by {
                    if id != tid as int {
                        assert(self.actors@[id] == pre.actors@[id]);
                        assert(pre.actor(id) == (Actor { heard: pre.actor(id).heard, ..s.actor(id) }));
                        assert(s.actor(id).heard@.len() <= pre.actor(id).heard@.len());
                    } else {
                        assert(pre.actor(id) == (Actor { heard: pre.actor(id).heard, ..s.actor(id) }));
                        assert(a_fin.heard@ == pre.actor(id).heard@.push(
                            (from, crate::actor::NoiseType::Creature(race)),
                        ));
                    }
                }
                assert forall|id: int, jj: int|
                    s.has_id(id) && 0 <= jj < s.actor(id).heard@.len() implies (
                #[trigger] self.actor(id).heard@[jj]) == s.actor(id).heard@[jj] by {
                    if id != tid as int {
                        assert(self.actors@[id] == pre.actors@[id]);
                        assert(pre.actor(id).heard@[jj] == s.actor(id).heard@[jj]);
                    } else {
                        assert(jj < pre.actor(id).heard@.len());
                        assert(self.actor(id).heard@[jj] == pre.actor(id).heard@[jj]);
                        assert(pre.actor(id).heard@[jj] == s.actor(id).heard@[jj]);
                    }
                }
                assert forall|id: int, jj: int|
                    s.has_id(id) && s.actor(id).heard@.len() <= jj < self.actor(
                        id,
                    ).heard@.len() implies noise_entry_ok(
                    s,
                    id,
                    #[trigger] self.actor(id).heard@[jj],
                ) by {
                    if id != tid as int {
                        assert(self.actors@[id] == pre.actors@[id]);
                        assert(noise_entry_ok(s, id, pre.actor(id).heard@[jj]));
                    } else {
                        if jj < pre.actor(id).heard@.len() {
                            assert(self.actor(id).heard@[jj] == pre.actor(id).heard@[jj]);
                            assert(noise_entry_ok(s, id, pre.actor(id).heard@[jj]));
                        } else {
                            assert(self.actor(id).heard@[jj] == (
                                from,
                                crate::actor::NoiseType::Creature(race),
                            ));
                        }
                    }
                }
                assert forall|jj: int| 0 <= jj < j + 1 implies self.actor(
                    (#[trigger] events@[jj]).0 as int,
                ).heard@.contains(
                    (events@[jj].1, crate::actor::NoiseType::Creature(events@[jj].2)),
                ) by {
                    if jj < j as int {
                        if events@[jj].0 == tid {
                            lemma_push_contains(
                                pre.actor(tid as int).heard@,
                                (from, crate::actor::NoiseType::Creature(race)),
                                (events@[jj].1, crate::actor::NoiseType::Creature(events@[jj].2)),
                            );
                        } else {
                            assert(self.actors@[events@[jj].0 as int] == pre.actors@[events@[jj].0 as int]);
                        }
                    } else {
                        lemma_push_contains(
                            pre.actor(tid as int).heard@,
                            (from, crate::actor::NoiseType::Creature(race)),
                            (from, crate::actor::NoiseType::Creature(race)),
                        );
                    }
                }
            }
            j += 1;
        }
        proof {
            assert forall|sid: int, ic: Coord| #[trigger] noise_pair(s, sid, ic) implies self.actor(
                s.actors_pos@[ic] as int,
            ).heard@.contains(
                (s.actor(sid).pos.coord, crate::actor::NoiseType::Creature(s.actor(sid).race)),
            ) by {
                let ev = (s.actors_pos@[ic], s.actor(sid).pos.coord, s.actor(sid).race);
                let jj = choose|jj: int| 0 <= jj < events@.len() && events@[jj] == ev;
            }
            assert forall|id: int| self.has_id(id) implies in_range(
                #[trigger] self.actor(id).pos.coord,
            ) by {
                assert(s.attached(id));
                assert(in_range(s.actor(id).pos.coord));
            }
        }
    }

    /// Sweeps deaths: every dead actor whose death is not yet processed
    /// has its backpack and equipped items dropped on the ground at its
    /// death cell, and its id is added to the dead-set, so that this
    /// happens exactly once per death.
    fn process_deaths(&mut self)
        requires
            old(self).wf(),
        ensures
            final (self).wf(),
            *final (self) == (State {
                actors: final (self).actors,
                actors_dead: final (self).actors_dead,
                items: final (self).items,
                ..*old(self)
            }),
            final (self).actors@.len() == old(self).actors@.len(),
            forall|id: int| old(self).has_id(id) ==> #[trigger] final (self).attached(id),
            forall|id: int|
                old(self).has_id(id) && newly_dead(*old(self), id) ==> (#[trigger] final (self).actor(id)) == (Actor {
                    backpack: final (self).actor(id).backpack,
                    equipped: final (self).actor(id).equipped,
                    ..old(self).actor(id)
                }) && final (self).actor(id).backpack@.len() == 0 && final (self).actor(
                    id,
                ).equipped@.len() == 0,
            forall|id: int|
                old(self).has_id(id) && !newly_dead(*old(self), id) ==> (#[trigger] final (self).actor(id)) == old(self).actor(id),
            forall|id: int|
                0 <= id < old(self).actors@.len() ==> (#[trigger] final (self).actors_dead@.contains(id as u32)) == (old(self).actors_dead@.contains(id as u32)
                    || old(self).actor(id).hp == 0),
            forall|x: u32| #[trigger]
                final (self).actors_dead@.contains(x) ==> old(self).actors_dead@.contains(x) || (
                (x as int) < old(self).actors@.len() && old(self).actor(x as int).hp == 0),
            deaths_processed(*old(self)) ==> final (self).items@ == old(self).items@ && final (self).actors_dead@ == old(self).actors_dead@,
            forall|c: Coord| #[trigger]
                old(self).items@.contains_key(c) ==> final (self).items@.contains_key(c)
                    && final (self).items@[c] == old(self).items@[c],
            forall|c: Coord| #[trigger]
                final (self).items@.contains_key(c) && !old(self).items@.contains_key(c)
                    ==> dropped_from_death(*old(self), c, final (self).items@[c]),
    {
        let ghost s = *old(self);
        let n = self.actors.len();
        let mut i: usize = 0;
        while i < n
            invariant
                s.wf(),
                n == s.actors@.len(),
                0 <= i <= n,
                *self == (State {
                    actors: self.actors,
                    actors_dead: self.actors_dead,
                    items: self.items,
                    ..s
                }),
                self.actors@.len() == n,
                self.items.wf(),
                forall|id: int| s.has_id(id) ==> #[trigger] self.attached(id),
                forall|id: int|
                    s.has_id(id) && id < i && newly_dead(s, id) ==> (#[trigger] self.actor(id))
                        == (Actor {
                        backpack: self.actor(id).backpack,
                        equipped: self.actor(id).equipped,
                        ..s.actor(id)
                    }) && self.actor(id).backpack@.len() == 0 && self.actor(id).equipped@.len()
                        == 0,
                forall|id: int|
                    s.has_id(id) && (i <= id || !newly_dead(s, id)) ==> (#[trigger] self.actor(
                        id,
                    )) == s.actor(id),
                forall|id: int|
                    0 <= id < n ==> (#[trigger] self.actors_dead@.contains(id as u32)) == (
                    s.actors_dead@.contains(id as u32) || (id < i && s.actor(id).hp == 0)),
                forall|x: u32| #[trigger]
                    self.actors_dead@.contains(x) ==> s.actors_dead@.contains(x) || ((x as int)
                        < n && s.actor(x as int).hp == 0),
                deaths_processed(s) ==> self.items@ == s.items@ && self.actors_dead@
                    == s.actors_dead@,
                forall|c: Coord| #[trigger]
                    s.items@.contains_key(c) ==> self.items@.contains_key(c) && self.items@[c]
                        == s.items@[c],
                forall|c: Coord| #[trigger]
                    self.items@.contains_key(c) && !s.items@.contains_key(c)
                        ==> dropped_from_death(s, c, self.items@[c]),
            decreases n - i,
        {
            let ghost pre = *self;
            let id32 = i as u32;
            let dead = match &self.actors[i] {
                Some(a) => a.hp == 0,
                None => false,
            };
            if dead && !id_in_vec(&self.actors_dead, id32) {
                proof {
                    assert(self.attached(i as int));
                    assert(self.actor(i as int) == s.actor(i as int));
                    assert(s.actor(i as int).hp == 0);
                    assert(!s.actors_dead@.contains(id32));
                    assert(newly_dead(s, i as int));
                }
                let mut a = self.take_actor(id32);
                let ghost a0 = a;
                let ghost mid = *self;
                let here = a.pos.coord;
                proof {
                    assert(in_range(s.actor(i as int).pos.coord));
                }
                while a.backpack.len() > 0
                    invariant
                        a == (Actor { backpack: a.backpack, ..a0 }),
                        a.backpack@.len() <= a0.backpack@.len(),
                        a.backpack@ == a0.backpack@.take(a.backpack@.len() as int),
                        a0 == s.actor(i as int),
                        0 <= i < s.actors@.len(),
                        newly_dead(s, i as int),
                        in_range(a.pos.coord),
                        here == a.pos.coord,
                        *self == (State { items: self.items, ..mid }),
                        mid.map@ == s.map@,
                        self.items.wf(),
                        mid.map_wf(),
                        forall|c: Coord| #[trigger]
                            s.items@.contains_key(c) ==> self.items@.contains_key(c)
                                && self.items@[c] == s.items@[c],
                        forall|c: Coord| #[trigger]
                            self.items@.contains_key(c) && !s.items@.contains_key(c)
                                ==> dropped_from_death(s, c, self.items@[c]),
                    decreases a.backpack@.len(),
                {
                    let ghost items_pre = self.items@;
                    let it = a.backpack.pop();
                    match it {
                        Some(it) => {
                            proof {
                                let k = a.backpack@.len() as int;
                                assert(it == a0.backpack@.take(k + 1)[k]);
                                assert(a0.backpack@.take(k + 1)[k] == a0.backpack@[k]);
                                assert(a0.backpack@[k] == it);
                                assert(a0.backpack@.contains(it));
                                assert(a.backpack@ =~= a0.backpack@.take(k + 1).drop_last());
                                assert(a.backpack@ =~= a0.backpack@.take(k));
                            }
                            self.drop_item(here, it);
                            proof {
                                lemma_drop_provenance(s, items_pre, self.items@, i as int, it);
                            }
                        },
                        None => {},
                    }
                }
                while a.equipped.len() > 0
                    invariant
                        a == (Actor { backpack: a.backpack, equipped: a.equipped, ..a0 }),
                        a.backpack@.len() == 0,
                        a.equipped@.len() <= a0.equipped@.len(),
                        a.equipped@ == a0.equipped@.take(a.equipped@.len() as int),
                        a0 == s.actor(i as int),
                        0 <= i < s.actors@.len(),
                        newly_dead(s, i as int),
                        in_range(a.pos.coord),
                        here == a.pos.coord,
                        *self == (State { items: self.items, ..mid }),
                        mid.map@ == s.map@,
                        self.items.wf(),
                        mid.map_wf(),
                        forall|c: Coord| #[trigger]
                            s.items@.contains_key(c) ==> self.items@.contains_key(c)
                                && self.items@[c] == s.items@[c],
                        forall|c: Coord| #[trigger]
                            self.items@.contains_key(c) && !s.items@.contains_key(c)
                                ==> dropped_from_death(s, c, self.items@[c]),
                    decreases a.equipped@.len(),
                {
                    let ghost items_pre = self.items@;
                    let it = a.equipped.pop();
                    match it {
                        Some(it) => {
                            proof {
                                let k = a.equipped@.len() as int;
                                assert(it == a0.equipped@.take(k + 1)[k]);
                                assert(a0.equipped@.take(k + 1)[k] == a0.equipped@[k]);
                                assert(a0.equipped@[k] == it);
                                assert(a0.equipped@.contains(it));
                                assert(a.equipped@ =~= a0.equipped@.take(k + 1).drop_last());
                                assert(a.equipped@ =~= a0.equipped@.take(k));
                            }
                            self.drop_item(here, it);
                            proof {
                                lemma_drop_provenance(s, items_pre, self.items@, i as int, it);
                            }
                        },
                        None => {},
                    }
                }
                let ghost a_fin = a;
                self.put_actor(id32, a);
                let ghost dead_pre = self.actors_dead@;
                self.actors_dead.push(id32);
                proof {
                    assert(self.actors@ =~= pre.actors@.update(i as int, Some(a_fin)));
                    assert(self.actor(i as int) == a_fin);
                    assert(a_fin == (Actor {
                        backpack: a_fin.backpack,
                        equipped: a_fin.equipped,
                        ..s.actor(i as int)
                    }));
                    assert forall|id: int| s.has_id(id) implies #[trigger] self.attached(id) by {
                        if id != i as int {
                            assert(pre.attached(id));
                            assert(self.actors@[id] == pre.actors@[id]);
                        }
                    }
                    assert forall|id: int|
                        s.has_id(id) && id < i + 1 && newly_dead(s, id) implies (
                    #[trigger] self.actor(id)) == (Actor {
                        backpack: self.actor(id).backpack,
                        equipped: self.actor(id).equipped,
                        ..s.actor(id)
                    }) && self.actor(id).backpack@.len() == 0 && self.actor(id).equipped@.len()
                        == 0 by {
                        if id != i as int {
                            assert(pre.attached(id));
                            assert(pre.actor(id) == (Actor {
                                backpack: pre.actor(id).backpack,
                                equipped: pre.actor(id).equipped,
                                ..s.actor(id)
                            }) && pre.actor(id).backpack@.len() == 0 && pre.actor(
                                id,
                            ).equipped@.len() == 0);
                            assert(self.actors@[id] == pre.actors@[id]);
                        }
                    }
                    assert forall|id: int|
                        s.has_id(id) && (i + 1 <= id || !newly_dead(s, id)) implies (
                    #[trigger] self.actor(id)) == s.actor(id) by {
                        assert(pre.attached(id));
                        assert(pre.actor(id) == s.actor(id));
                        assert(self.actors@[id] == pre.actors@[id]);
                    }
                    assert forall|id: int| 0 <= id < n implies (
                    #[trigger] self.actors_dead@.contains(id as u32)) == (s.actors_dead@.contains(
                        id as u32,
                    ) || (id < i + 1 && s.actor(id).hp == 0)) by {
                        lemma_push_contains(dead_pre, id32, id as u32);
                        assert(dead_pre == pre.actors_dead@);
                        if self.actors_dead@.contains(id as u32) {
                            let jx = choose|jx: int|
                                0 <= jx < self.actors_dead@.len() && self.actors_dead@[jx] == (
                                id as u32);
                            if jx < dead_pre.len() {
                                assert(dead_pre[jx] == id as u32);
                                assert(pre.actors_dead@.contains(id as u32));
                            } else {
                                assert(id as u32 == id32);
                            }
                        } else {
                            assert(!pre.actors_dead@.contains(id as u32));
                        }
                        if pre.actors_dead@.contains(id as u32) || (id < i + 1 && s.actor(id).hp
                            == 0 && id < i) {
                            assert(self.actors_dead@.contains(id as u32));
                        }
                        if id == i as int && s.actor(id).hp == 0 {
                            assert(self.actors_dead@[dead_pre.len() as int] == id32);
                            assert(self.actors_dead@.contains(id as u32));
                        }
                    }
                    assert forall|x: u32| #[trigger] self.actors_dead@.contains(
                        x,
                    ) implies s.actors_dead@.contains(x) || ((x as int) < n && s.actor(
                        x as int,
                    ).hp == 0) by {
                        let jx = choose|jx: int|
                            0 <= jx < self.actors_dead@.len() && self.actors_dead@[jx] == x;
                        if jx < dead_pre.len() {
                            assert(dead_pre[jx] == x);
                            assert(pre.actors_dead@.contains(x));
                        } else {
                            assert(x == id32);
                        }
                    }
                }
            } else {
                proof {
                    assert(self.attached(i as int));
                    if dead {
                        assert(self.actors_dead@.contains(id32));
                        assert(!newly_dead(s, i as int));
                    } else {
                        assert(self.actor(i as int) == s.actor(i as int));
                        assert(s.actor(i as int).hp != 0);
                        assert(!newly_dead(s, i as int));
                    }
                }
            }
            i += 1;
        }
        proof {
            assert forall|id: int| self.has_id(id) implies in_range(
                #[trigger] self.actor(id).pos.coord,
            ) by {
                assert(s.attached(id));
                assert(in_range(s.actor(id).pos.coord));
                if newly_dead(s, id) {
                    assert(self.actor(id).pos == s.actor(id).pos);
                }
            }
        }
    }

    /// Rebuilds the coordinate index, keeping exactly the entries whose
    /// actor is alive and still stands at the indexed cell.
    fn rebuild_index(&mut self)
        requires
            old(self).wf(),
        ensures
            final (self).wf(),
            *final (self) == (State { actors_pos: final (self).actors_pos, ..*old(self) }),
            forall|c: Coord| #[trigger]
                final (self).actors_pos@.contains_key(c) ==> old(self).actors_pos@.contains_key(c)
                    && final (self).actors_pos@[c] == old(self).actors_pos@[c] && old(self).alive(
                    old(self).actors_pos@[c] as int,
                ) && old(self).actor(old(self).actors_pos@[c] as int).pos.coord == c,
            forall|c: Coord| #[trigger]
                old(self).actors_pos@.contains_key(c) && old(self).alive(
                    old(self).actors_pos@[c] as int,
                ) && old(self).actor(old(self).actors_pos@[c] as int).pos.coord == c ==> final (self).actors_pos@.contains_key(c),
            final (self).index_clean(),
    {
        let ghost s = *old(self);
        let mut fresh = CoordMap::<u32>::new();
        let n = self.actors_pos.entry_count();
        let mut e: usize = 0;
        while e < n
            invariant
                s.wf(),
                *self == s,
                n == self.actors_pos.entry_seq().len(),
                0 <= e <= n,
                fresh.wf(),
                forall|c: Coord| #[trigger]
                    fresh@.contains_key(c) ==> s.actors_pos@.contains_key(c) && fresh@[c]
                        == s.actors_pos@[c] && s.alive(s.actors_pos@[c] as int) && s.actor(
                        s.actors_pos@[c] as int,
                    ).pos.coord == c,
                forall|j: int|
                    0 <= j < e && s.alive(
                        s.actors_pos@[(#[trigger] self.actors_pos.entry_seq()[j]).0] as int,
                    ) && s.actor(
                        s.actors_pos@[self.actors_pos.entry_seq()[j].0] as int,
                    ).pos.coord == self.actors_pos.entry_seq()[j].0 ==> fresh@.contains_key(
                        self.actors_pos.entry_seq()[j].0,
                    ),
            decreases n - e,
        {
            let entry = self.actors_pos.entry_at(e);
            let c = entry.0;
            let id = entry.1;
            proof {
                assert(self.actors_pos@.contains_key(c) && self.actors_pos@[c] == id);
            }
            let keep = match &self.actors[id as usize] {
                Some(a) => a.hp != 0 && a.pos.coord.x == c.x && a.pos.coord.y == c.y,
                None => false,
            };
            if keep {
                fresh.insert(c, id);
            }
            e += 1;
        }
        proof {
            self.actors_pos.lemma_entries();
        }
        self.actors_pos = fresh;
        proof {
            assert forall|c: Coord| #[trigger] s.actors_pos@.contains_key(c) && s.alive(
                s.actors_pos@[c] as int,
            ) && s.actor(s.actors_pos@[c] as int).pos.coord == c implies self.actors_pos@.contains_key(
                c,
            ) by {
                let j = choose|j: int|
                    0 <= j < s.actors_pos.entry_seq().len() && (
                    #[trigger] s.actors_pos.entry_seq()[j]).0 == c;
            }
            assert forall|id: int| self.has_id(id) implies #[trigger] self.attached(id) by {
                assert(s.attached(id));
            }
            assert forall|id: int| self.has_id(id) implies in_range(
                #[trigger] self.actor(id).pos.coord,
            ) by {
                assert(s.attached(id));
                assert(in_range(s.actor(id).pos.coord));
            }
            assert forall|c: Coord| #[trigger] self.actors_pos@.contains_key(c) implies (
            self.actors_pos@[c] as int) < self.actors@.len() && in_range(c) by {
                assert(s.actors_pos@.contains_key(c));
            }
        }
    }

    /// The post-turn phase: deaths are swept (inventories dropped exactly
    /// once), the coordinate index is rebuilt to exactness, the light
    /// field is recomputed, noise is propagated, every living actor's
    /// post-turn hook runs under the detach discipline, and the turn
    /// counter moves on.
    #[verifier::rlimit(100)]
    #[verifier::spinoff_prover]
    pub fn post_tick(&mut self)
        requires
            old(self).wf(),
            old(self).turn < u64::MAX,
        ensures
            final (self).wf(),
            final (self).turn == old(self).turn + 1,
            final (self).map@ == old(self).map@,
            final (self).descend == old(self).descend,
            final (self).level == old(self).level,
            final (self).actors@.len() == old(self).actors@.len(),
            forall|id: int| old(self).has_id(id) ==> #[trigger] final (self).attached(id),
            forall|id: int|
                old(self).has_id(id) ==> crate::actor::same_stats(
                    old(self).actor(id),
                    #[trigger] final (self).actor(id),
                ) && final (self).actor(id).pos == old(self).actor(id).pos,
            forall|c: Coord| #[trigger]
                final (self).actors_pos@.contains_key(c) ==> old(self).actors_pos@.contains_key(c)
                    && final (self).actors_pos@[c] == old(self).actors_pos@[c] && old(self).alive(
                    old(self).actors_pos@[c] as int,
                ) && old(self).actor(old(self).actors_pos@[c] as int).pos.coord == c,
            forall|c: Coord| #[trigger]
                old(self).actors_pos@.contains_key(c) && old(self).alive(
                    old(self).actors_pos@[c] as int,
                ) && old(self).actor(old(self).actors_pos@[c] as int).pos.coord == c ==> final (self).actors_pos@.contains_key(c),
            final (self).index_clean(),
            forall|id: int|
                0 <= id < old(self).actors@.len() ==> (#[trigger] final (self).actors_dead@.contains(id as u32)) == (old(self).actors_dead@.contains(id as u32)
                    || old(self).actor(id).hp == 0),
            forall|id: int|
                old(self).has_id(id) && newly_dead(*old(self), id) ==> (#[trigger] final (self).actor(id)).backpack@.len() == 0 && final (self).actor(id).equipped@.len() == 0,
            deaths_processed(*old(self)) ==> final (self).items@ == old(self).items@ && final (self).actors_dead@ == old(self).actors_dead@,
            forall|c: Coord| #[trigger]
                old(self).items@.contains_key(c) ==> final (self).items@.contains_key(c) && final (self).items@[c] == old(self).items@[c],
            forall|c: Coord| #[trigger]
                final (self).items@.contains_key(c) && !old(self).items@.contains_key(c)
                    ==> dropped_from_death(*old(self), c, final (self).items@[c]),
            light_field_ok(*final (self), final (self).light_map@),
            forall|id: int|
                old(self).has_id(id) && old(self).actor(id).hp != 0 ==> (#[trigger] final (self).actor(id)).seen_light == spec_light_at(
                    *final (self),
                    final (self).actor(id).pos.coord,
                ),
    {
        let ghost s0 = *old(self);
        // No later phase reads the counter, so moving it on first keeps
        // every observable outcome of the lifecycle the same.
        self.turn = self.turn + 1;
        proof {
            lemma_wf_transfer(s0, *self);
        }
        let ghost s0b = *self;
        self.process_deaths();
        let ghost s1 = *self;
        self.rebuild_index();
        let ghost s2 = *self;
        self.recalculate_light_map();
        let ghost s3 = *self;
        self.recalculate_noise();
        let ghost s4 = *self;
        let n = self.actors.len();
        let mut i: usize = 0;
        while i < n
            invariant
                s4.wf(),
                n == s4.actors@.len(),
                0 <= i <= n,
                *self == (State { actors: self.actors, ..s4 }),
                self.actors@.len() == n,
                forall|id: int| s4.has_id(id) ==> #[trigger] self.attached(id),
                forall|id: int|
                    s4.has_id(id) ==> (#[trigger] self.actor(id)) == (Actor {
                        seen_light: self.actor(id).seen_light,
                        ..s4.actor(id)
                    }),
                forall|id: int|
                    0 <= id < i && s4.has_id(id) && s4.actor(id).hp != 0 ==> (
                    #[trigger] self.actor(id)).seen_light == spec_light_at(
                        s4,
                        s4.actor(id).pos.coord,
                    ),
            decreases n - i,
        {
            let ghost pre = *self;
            let id = i as u32;
            let alive = match &self.actors[i] {
                Some(a) => a.hp != 0,
                None => false,
            };
            if alive {
                proof {
                    assert(self.attached(i as int));
                }
                let mut a = self.take_actor(id);
                a.post_tick(self);
                let ghost a_fin = a;
                self.put_actor(id, a);
                proof {
                    assert(self.actors@ =~= pre.actors@.update(i as int, Some(a_fin)));
                    assert forall|idx: int| s4.has_id(idx) implies #[trigger] self.attached(
                        idx,
                    ) by {
                        if idx != i as int {
                            assert(pre.attached(idx));
                            assert(self.actors@[idx] == pre.actors@[idx]);
                        }
                    }
                    assert forall|idx: int| s4.has_id(idx) implies (#[trigger] self.actor(idx))
                        == (Actor {
                        seen_light: self.actor(idx).seen_light,
                        ..s4.actor(idx)
                    }) by {
                        assert(pre.attached(idx));
                        assert(pre.actor(idx) == (Actor {
                            seen_light: pre.actor(idx).seen_light,
                            ..s4.actor(idx)
                        }));
                        if idx != i as int {
                            assert(self.actors@[idx] == pre.actors@[idx]);
                        } else {
                            assert(self.actor(idx) == a_fin);
                        }
                    }
                    assert forall|idx: int|
                        0 <= idx < i + 1 && s4.has_id(idx) && s4.actor(idx).hp != 0 implies (
                    #[trigger] self.actor(idx)).seen_light == spec_light_at(
                        s4,
                        s4.actor(idx).pos.coord,
                    ) by {
                        if idx != i as int {
                            assert(pre.attached(idx));
                            assert(self.actors@[idx] == pre.actors@[idx]);
                            assert(pre.actor(idx).seen_light == spec_light_at(
                                s4,
                                s4.actor(idx).pos.coord,
                            ));
                        } else {
                            assert(pre.actor(idx) == (Actor {
                                seen_light: pre.actor(idx).seen_light,
                                ..s4.actor(idx)
                            }));
                            assert(pre.light_map@ == s4.light_map@);
                            assert(self.actor(idx) == a_fin);
                        }
                    }
                }
            } else {
                proof {
                    assert(self.attached(i as int));
                    assert(self.actor(i as int) == (Actor {
                        seen_light: self.actor(i as int).seen_light,
                        ..s4.actor(i as int)
                    }));
                    if s4.actor(i as int).hp != 0 {
                        assert(false);
                    }
                }
            }
            i += 1;
        }
        proof {
            assert(s4.wf());
            assert(self.actors@.len() == s4.actors@.len());
            assert(s1.actors@.len() == s0.actors@.len());
            assert(s2.actors@.len() == s1.actors@.len());
            assert(s3.actors@.len() == s2.actors@.len());
            assert(s4.actors@.len() == s3.actors@.len());
            assert forall|id: int| self.has_id(id) implies in_range(
                #[trigger] self.actor(id).pos.coord,
            ) by {
                assert(s4.attached(id));
                assert(in_range(s4.actor(id).pos.coord));
                assert(self.actor(id).pos == s4.actor(id).pos);
            }
            assert forall|id: int| s0.has_id(id) implies crate::actor::same_stats(
                s0.actor(id),
                #[trigger] self.actor(id),
            ) && self.actor(id).pos == s0.actor(id).pos by {
                assert(s0b.attached(id) && s1.attached(id) && s2.attached(id) && s3.attached(id)
                    && s4.attached(id));
                assert(s0b.actor(id) == s0.actor(id));
                if newly_dead(s0b, id) {
                    assert(s1.actor(id) == (Actor {
                        backpack: s1.actor(id).backpack,
                        equipped: s1.actor(id).equipped,
                        ..s0b.actor(id)
                    }));
                } else {
                    assert(s1.actor(id) == s0b.actor(id));
                }
                assert(s2.actor(id) == s1.actor(id));
                assert(s3.actor(id) == s2.actor(id));
                assert(s4.actor(id) == (Actor { heard: s4.actor(id).heard, ..s3.actor(id) }));
                assert(self.actor(id) == (Actor {
                    seen_light: self.actor(id).seen_light,
                    ..s4.actor(id)
                }));
            }
            assert forall|id: int|
                s0.has_id(id) && newly_dead(s0, id) implies (#[trigger] self.actor(
                id,
            )).backpack@.len() == 0 && self.actor(id).equipped@.len() == 0 by {
                assert(s0b.actor(id) == s0.actor(id));
                assert(s0b.actors_dead@ == s0.actors_dead@);
                assert(newly_dead(s0b, id));
                assert(s1.actor(id).backpack@.len() == 0 && s1.actor(id).equipped@.len() == 0);
                assert(s2.actor(id) == s1.actor(id));
                assert(s3.actor(id) == s2.actor(id));
                assert(s4.actor(id) == (Actor { heard: s4.actor(id).heard, ..s3.actor(id) }));
                assert(self.actor(id) == (Actor {
                    seen_light: self.actor(id).seen_light,
                    ..s4.actor(id)
                }));
            }
            if deaths_processed(s0) {
                assert forall|id: int|
                    s0b.has_id(id) && (#[trigger] s0b.actor(id)).hp == 0 implies s0b.actors_dead@.contains(
                    id as u32,
                ) by {
                    assert(s0b.actor(id) == s0.actor(id));
                    assert(s0.actor(id).hp == 0);
                }
                assert(deaths_processed(s0b));
                assert(self.items@ == s0.items@ && self.actors_dead@ == s0.actors_dead@);
            }
            assert(self.index_clean());
            assert forall|id: int| 0 <= id < s2.actors@.len() implies ((#[trigger] s2.attached(
                id,
            )) == self.attached(id)) by {
                assert(s2.attached(id) && s3.attached(id) && s4.attached(id) && self.attached(id));
            }
            assert forall|id: int| s2.attached(id) implies crate::actor::same_stats(
                s2.actor(id),
                #[trigger] self.actor(id),
            ) && self.actor(id).pos == s2.actor(id).pos by {
                assert(s3.attached(id) && s4.attached(id));
            }
            lemma_light_stable(s2, *self, self.light_map@);
            assert forall|id: int|
                s0.has_id(id) && s0.actor(id).hp != 0 implies (#[trigger] self.actor(
                id,
            )).seen_light == spec_light_at(*self, self.actor(id).pos.coord) by {
                assert(s4.attached(id));
                assert(s4.actor(id).hp != 0);
                assert(self.actor(id).seen_light == spec_light_at(s4, s4.actor(id).pos.coord));
                assert(self.light_map@ == s4.light_map@);
                assert(self.actor(id).pos == s4.actor(id).pos);
            }
            assert(self.items@ == s1.items@);
            assert(s0b.items@ == s0.items@);
            assert forall|c: Coord| #[trigger] s0.items@.contains_key(c) implies self.items@.contains_key(
                c,
            ) && self.items@[c] == s0.items@[c] by {
                assert(s0b.items@.contains_key(c));
            }
            assert forall|c: Coord| #[trigger]
                self.items@.contains_key(c) && !s0.items@.contains_key(c) implies dropped_from_death(
                s0,
                c,
                self.items@[c],
            ) by {
                assert(s1.items@.contains_key(c) && !s0b.items@.contains_key(c));
                assert(dropped_from_death(s0b, c, s1.items@[c]));
                let id = choose|id: int|
                    #![trigger s0b.actor(id)]
                    s0b.has_id(id) && newly_dead(s0b, id) && (s0b.actor(id).backpack@.contains(
                        s1.items@[c],
                    ) || s0b.actor(id).equipped@.contains(s1.items@[c])) && drop_reachable(
                        s0b.map@,
                        s0b.actor(id).pos.coord,
                        c,
                    ) && step_ok(s0b.map@, c);
                assert(s0.actor(id) == s0b.actor(id));
                assert(s0.actors_dead@ == s0b.actors_dead@);
                assert(newly_dead(s0, id));
                assert(s0.map@ == s0b.map@);
                assert(s0.has_id(id) && newly_dead(s0, id) && (s0.actor(id).backpack@.contains(
                    self.items@[c],
                ) || s0.actor(id).equipped@.contains(self.items@[c])) && drop_reachable(
                    s0.map@,
                    s0.actor(id).pos.coord,
                    c,
                ) && step_ok(s0.map@, c));
            }
        }
    }

    /// Gathers every light source of the world: lit tiles, and living
    /// actors named by the index that carry light.
    fn collect_sources(&self) -> (r: Vec<(Coord, u16)>)
        requires
            self.wf(),
        ensures
            forall|i: int|
                0 <= i < r@.len() ==> (#[trigger] r@[i]).1 >= 1 && in_range(r@[i].0)
                    && source_elem(*self, r@[i]),
            forall|src: Coord| #[trigger]
                is_tile_source(*self, src) ==> r@.contains((src, self.map@[src].light)),
            forall|ic: Coord| #[trigger]
                is_actor_source(*self, ic) ==> r@.contains(
                    (actor_source_origin(*self, ic), actor_source_budget(*self, ic)),
                ),
    {
        let mut r: Vec<(Coord, u16)> = Vec::new();
        let n = self.map.entry_count();
        let mut e: usize = 0;
        while e < n
            invariant
                self.wf(),
                n == self.map.entry_seq().len(),
                0 <= e <= n,
                forall|i: int|
                    0 <= i < r@.len() ==> (#[trigger] r@[i]).1 >= 1 && in_range(r@[i].0)
                        && source_elem(*self, r@[i]),
                forall|j: int|
                    0 <= j < e && (#[trigger] self.map.entry_seq()[j]).1.light > 0 ==> r@.contains(
                        (self.map.entry_seq()[j].0, self.map.entry_seq()[j].1.light),
                    ),
            decreases n - e,
        {
            let entry = self.map.entry_at(e);
            let c = entry.0;
            let t = entry.1;
            if t.light > 0 {
                let ghost prev = r@;
                r.push((c, t.light));
                proof {
                    assert(self.map@.contains_key(c) && self.map@[c] == t);
                    assert(is_tile_source(*self, c));
                    assert(r@.last() == (c, t.light));
                    assert forall|j: int|
                        0 <= j < e + 1 && (#[trigger] self.map.entry_seq()[j]).1.light
                            > 0 implies r@.contains(
                        (self.map.entry_seq()[j].0, self.map.entry_seq()[j].1.light),
                    ) by {
                        lemma_push_contains(
                            prev,
                            (c, t.light),
                            (self.map.entry_seq()[j].0, self.map.entry_seq()[j].1.light),
                        );
                        if j == e as int {
                            assert(r@[prev.len() as int] == (c, t.light));
                        }
                    }
                }
            }
            e += 1;
        }
        proof {
            self.map.lemma_entries();
            assert forall|src: Coord| #[trigger] is_tile_source(*self, src) implies r@.contains(
                (src, self.map@[src].light),
            ) by {
                let j = choose|j: int|
                    0 <= j < self.map.entry_seq().len() && (#[trigger] self.map.entry_seq()[j]).0
                        == src;
                assert(self.map.entry_seq()[j].1 == self.map@[src]);
            }
        }
        let ghost tiles_done = r@;
        let m2 = self.actors_pos.entry_count();
        let mut e2: usize = 0;
        while e2 < m2
            invariant
                self.wf(),
                m2 == self.actors_pos.entry_seq().len(),
                0 <= e2 <= m2,
                forall|i: int|
                    0 <= i < r@.len() ==> (#[trigger] r@[i]).1 >= 1 && in_range(r@[i].0)
                        && source_elem(*self, r@[i]),
                tiles_done.len() <= r@.len(),
                forall|j: int| 0 <= j < tiles_done.len() ==> r@[j] == #[trigger] tiles_done[j],
                forall|j: int|
                    0 <= j < e2 && is_actor_source(
                        *self,
                        (#[trigger] self.actors_pos.entry_seq()[j]).0,
                    ) ==> r@.contains(
                        (
                            actor_source_origin(*self, self.actors_pos.entry_seq()[j].0),
                            actor_source_budget(*self, self.actors_pos.entry_seq()[j].0),
                        ),
                    ),
            decreases m2 - e2,
        {
            let entry = self.actors_pos.entry_at(e2);
            let c = entry.0;
            let id = entry.1;
            proof {
                assert(self.actors_pos@.contains_key(c) && self.actors_pos@[c] == id);
            }
            let lit = match &self.actors[id as usize] {
                Some(a) => a.hp != 0 && a.light_emission > 0,
                None => false,
            };
            if lit {
                let (origin, budget) = match &self.actors[id as usize] {
                    Some(a) => (a.pos.coord, a.light_emission),
                    None => (c, 0),
                };
                let ghost prev = r@;
                r.push((origin, budget));
                proof {
                    assert(is_actor_source(*self, c));
                    assert(origin == actor_source_origin(*self, c));
                    assert(budget == actor_source_budget(*self, c));
                    assert(r@[prev.len() as int] == (origin, budget));
                    assert forall|j: int|
                        0 <= j < e2 + 1 && is_actor_source(
                            *self,
                            (#[trigger] self.actors_pos.entry_seq()[j]).0,
                        ) implies r@.contains(
                        (
                            actor_source_origin(*self, self.actors_pos.entry_seq()[j].0),
                            actor_source_budget(*self, self.actors_pos.entry_seq()[j].0),
                        ),
                    ) by {
                        lemma_push_contains(
                            prev,
                            (origin, budget),
                            (
                                actor_source_origin(*self, self.actors_pos.entry_seq()[j].0),
                                actor_source_budget(*self, self.actors_pos.entry_seq()[j].0),
                            ),
                        );
                    }
                    assert forall|j: int| 0 <= j < tiles_done.len() implies r@[j]
                        == #[trigger] tiles_done[j] by {
                        assert(r@[j] == prev[j]);
                    }
                }
            }
            e2 += 1;
        }
        proof {
            self.actors_pos.lemma_entries();
            assert forall|ic: Coord| #[trigger] is_actor_source(*self, ic) implies r@.contains(
                (actor_source_origin(*self, ic), actor_source_budget(*self, ic)),
            ) by {
                let j = choose|j: int|
                    0 <= j < self.actors_pos.entry_seq().len() && (
                    #[trigger] self.actors_pos.entry_seq()[j]).0 == ic;
            }
            assert forall|src: Coord| #[trigger] is_tile_source(*self, src) implies r@.contains(
                (src, self.map@[src].light),
            ) by {
                let j = choose|j: int| 0 <= j < tiles_done.len() && tiles_done[j] == (
                    src,
                    self.map@[src].light,
                );
                assert(r@[j] == (src, self.map@[src].light));
            }
        }
        r
    }

    /// Rebuilds the light field from nothing: every lit tile and every
    /// living, lit actor the index names floods its beams outward, and
    /// every visited cell keeps the greatest value any beam brings it.
    pub fn recalculate_light_map(&mut self)
        requires
            old(self).wf(),
        ensures
            final (self).wf(),
            *final (self) == (State { light_map: final (self).light_map, ..*old(self) }),
            final (self).light_map.wf(),
            light_field_ok(*old(self), final (self).light_map@),
    {
        let ghost s = *old(self);
        let ghost m = self.map@;
        let srcs = self.collect_sources();
        let mut cs: Vec<(Coord, u32)> = Vec::new();
        let nsrc = srcs.len();
        let mut i: usize = 0;
        while i < nsrc
            invariant
                *self == *old(self),
                self.wf(),
                m == self.map@,
                nsrc == srcs@.len(),
                0 <= i <= nsrc,
                forall|si: int|
                    0 <= si < srcs@.len() ==> (#[trigger] srcs@[si]).1 >= 1 && in_range(
                        srcs@[si].0,
                    ) && source_elem(*self, srcs@[si]),
                forall|j: int|
                    0 <= j < cs@.len() ==> exists|si: int|
                        0 <= si < srcs@.len() && beam_gives(
                            m,
                            (#[trigger] srcs@[si]).0,
                            srcs@[si].1,
                            (#[trigger] cs@[j]).0,
                            cs@[j].1 as int,
                        ),
                forall|si: int, c: Coord, v: int|
                    0 <= si < i && #[trigger] beam_gives(
                        m,
                        (#[trigger] srcs@[si]).0,
                        srcs@[si].1,
                        c,
                        v,
                    ) ==> cs@.contains((c, v as u32)),
            decreases nsrc - i,
        {
            let (sc, sb) = srcs[i];
            let ghost before = cs@;
            collect_beams(&self.map, sc, sb, &mut cs);
            proof {
                assert(srcs@[i as int] == (sc, sb));
                assert forall|j: int| 0 <= j < cs@.len() implies exists|si: int|
                    0 <= si < srcs@.len() && beam_gives(
                        m,
                        (#[trigger] srcs@[si]).0,
                        srcs@[si].1,
                        (#[trigger] cs@[j]).0,
                        cs@[j].1 as int,
                    ) by {
                    if j < before.len() {
                        assert(cs@[j] == before[j]);
                        let si = choose|si: int|
                            0 <= si < srcs@.len() && beam_gives(
                                m,
                                (#[trigger] srcs@[si]).0,
                                srcs@[si].1,
                                before[j].0,
                                before[j].1 as int,
                            );
                        assert(0 <= si < srcs@.len() && beam_gives(
                            m,
                            srcs@[si].0,
                            srcs@[si].1,
                            cs@[j].0,
                            cs@[j].1 as int,
                        ));
                    } else {
                        assert(beam_gives(m, sc, sb, cs@[j].0, cs@[j].1 as int));
                        assert(0 <= (i as int) < srcs@.len() && beam_gives(
                            m,
                            srcs@[i as int].0,
                            srcs@[i as int].1,
                            cs@[j].0,
                            cs@[j].1 as int,
                        ));
                    }
                }
                assert forall|si: int, c: Coord, v: int|
                    0 <= si < i + 1 && #[trigger] beam_gives(
                        m,
                        (#[trigger] srcs@[si]).0,
                        srcs@[si].1,
                        c,
                        v,
                    ) implies cs@.contains((c, v as u32)) by {
                    if si < i as int {
                        let jx = choose|jx: int|
                            0 <= jx < before.len() && before[jx] == (c, v as u32);
                        assert(cs@[jx] == (c, v as u32));
                    }
                }
            }
            i += 1;
        }
        let field = fold_max(&cs);
        self.light_map = field;
        proof {
            assert forall|id: int| self.has_id(id) implies #[trigger] self.attached(id) by {
                assert(s.attached(id));
            }
            assert forall|id: int| self.has_id(id) implies in_range(
                #[trigger] self.actor(id).pos.coord,
            ) by {
                assert(s.attached(id));
                assert(in_range(s.actor(id).pos.coord));
            }
            assert forall|c: Coord| #[trigger] self.actors_pos@.contains_key(c) implies (
            self.actors_pos@[c] as int) < self.actors@.len() && in_range(c) by {
                assert(s.actors_pos@.contains_key(c));
            }
            assert forall|c: Coord| #[trigger] self.light_map@.contains_key(c) implies source_gives(
                s,
                c,
                self.light_map@[c] as int,
            ) by {
                let jx = choose|jx: int|
                    0 <= jx < cs@.len() && cs@[jx] == (c, self.light_map@[c]);
                let si = choose|si: int|
                    0 <= si < srcs@.len() && beam_gives(
                        m,
                        (#[trigger] srcs@[si]).0,
                        srcs@[si].1,
                        cs@[jx].0,
                        cs@[jx].1 as int,
                    );
                assert(source_elem(s, srcs@[si]));
            }
            assert forall|c: Coord, v: int| #[trigger] source_gives(s, c, v) implies self.light_map@.contains_key(
                c,
            ) && v <= self.light_map@[c] as int by {
                let e: (Coord, u16) = if exists|src: Coord| #[trigger]
                    is_tile_source(s, src) && beam_gives(s.map@, src, s.map@[src].light, c, v) {
                    let src = choose|src: Coord| #[trigger]
                        is_tile_source(s, src) && beam_gives(s.map@, src, s.map@[src].light, c, v);
                    (src, s.map@[src].light)
                } else {
                    let ic = choose|ic: Coord| #[trigger]
                        is_actor_source(s, ic) && beam_gives(
                            s.map@,
                            actor_source_origin(s, ic),
                            actor_source_budget(s, ic),
                            c,
                            v,
                        );
                    (actor_source_origin(s, ic), actor_source_budget(s, ic))
                };
                assert(beam_gives(m, e.0, e.1, c, v));
                assert(srcs@.contains(e));
                let si = choose|si: int| 0 <= si < srcs@.len() && srcs@[si] == e;
                assert(beam_gives(m, srcs@[si].0, srcs@[si].1, c, v));
                assert(cs@.contains((c, v as u32)));
                let jx = choose|jx: int| 0 <= jx < cs@.len() && cs@[jx] == (c, v as u32);
                assert(self.light_map@.contains_key(cs@[jx].0) && cs@[jx].1
                    <= self.light_map@[cs@[jx].0]);
                assert(v > 0);
                crate::light::lemma_beam_value_le(m, e.0, e.1, c, v);
            }
        }
    }

    /// Removes and returns the ground item at exactly this coordinate,
    /// if one lies there.
    pub fn pick_item(&mut self, coord: Coord) -> (r: Option<Item>)
        requires
            old(self).items.wf(),
        ensures
            final (self).items.wf(),
            *final (self) == (State { items: final (self).items, ..*old(self) }),
            match r {
                Some(it) => old(self).items@.contains_key(coord) && it == old(self).items@[coord]
                    && final (self).items@ == old(self).items@.remove(coord),
                None => !old(self).items@.contains_key(coord) && final (self).items@ == old(
                    self,
                ).items@,
            },
    {
        self.items.remove(coord)
    }

    /// Puts an item on the ground at this coordinate if that cell is
    /// walkable and free; otherwise a breadth-first search over walkable
    /// cells looks for a free cell to take it.  When no reachable cell is
    /// free, the item is destroyed rather than failing the turn: the
    /// items field is then left as it was, and no error is raised.
    #[verifier::rlimit(100)]
    pub fn drop_item(&mut self, coord: Coord, item: Item)
        requires
            old(self).map_wf(),
            old(self).items.wf(),
            in_range(coord),
        ensures
            final (self).items.wf(),
            *final (self) == (State { items: final (self).items, ..*old(self) }),
            (exists|c: Coord|
                drop_reachable(old(self).map@, coord, c) && step_ok(old(self).map@, c) && !old(
                    self,
                ).items@.contains_key(c) && final (self).items@ == old(self).items@.insert(
                    c,
                    item,
                )) || (final (self).items@ == old(self).items@ && forall|c: Coord|
                drop_reachable(old(self).map@, coord, c) && #[trigger] step_ok(old(self).map@, c)
                    ==> old(self).items@.contains_key(c)),
            step_ok(old(self).map@, coord) && !old(self).items@.contains_key(coord) ==> final (
            self).items@ == old(self).items@.insert(coord, item),
    {
        let ghost m = self.map@;
        let pass0 = match self.at(coord).tile() {
            Some(t) => t.is_passable(),
            None => false,
        };
        if pass0 && !self.items.contains_key(coord) {
            proof {
                lemma_reach_self(m, coord);
            }
            self.items.insert(coord, item);
            proof {
                assert(drop_reachable(old(self).map@, coord, coord) && step_ok(
                    old(self).map@,
                    coord,
                ) && !old(self).items@.contains_key(coord) && self.items@ == old(
                    self,
                ).items@.insert(coord, item));
            }
            return ;
        }
        proof {
            self.map.lemma_finite();
        }
        let mut queue: Vec<Coord> = Vec::new();
        queue.push(coord);
        proof {
            lemma_reach_self(m, coord);
        }
        let mut head: usize = 0;
        while head < queue.len()
            invariant
                *self == *old(self),
                self.map_wf(),
                self.items.wf(),
                m == self.map@,
                m.dom().finite(),
                in_range(coord),
                0 <= head <= queue@.len(),
                1 <= queue@.len(),
                step_ok(m, coord) ==> old(self).items@.contains_key(coord),
                queue@[0] == coord,
                queue@.no_duplicates(),
                forall|i: int| 1 <= i < queue@.len() ==> step_ok(m, #[trigger] queue@[i]),
                forall|i: int|
                    0 <= i < queue@.len() ==> drop_reachable(m, coord, #[trigger] queue@[i]),
                forall|i: int|
                    1 <= i < queue@.len() ==> old(self).items@.contains_key(#[trigger] queue@[i]),
                forall|k: int, d: Direction|
                    #![trigger spec_step(queue@[k], d)]
                    0 <= k < head && step_ok(m, spec_step(queue@[k], d)) ==> queue@.contains(
                        spec_step(queue@[k], d),
                    ),
                queue@.len() <= m.dom().len() + 1,
            decreases m.dom().len() + 1 - head,
        {
            let cur = queue[head];
            head += 1;
            proof {
                if cur != coord {
                    assert(step_ok(m, cur));
                    assert(in_range(cur));
                }
            }
            let dirs = crate::hex::Direction::all();
            let mut di: usize = 0;
            while di < 6
                invariant
                    *self == *old(self),
                    self.map_wf(),
                    self.items.wf(),
                    m == self.map@,
                    m.dom().finite(),
                    in_range(coord),
                    in_range(cur) || cur == coord,
                    i64::MIN < cur.x < i64::MAX,
                    i64::MIN < cur.y < i64::MAX,
                    drop_reachable(m, coord, cur),
                    dirs@.len() == 6,
                    0 <= di <= 6,
                    0 <= head <= queue@.len(),
                    1 <= queue@.len(),
                    step_ok(m, coord) ==> old(self).items@.contains_key(coord),
                    queue@[0] == coord,
                    queue@.no_duplicates(),
                    forall|i: int| 1 <= i < queue@.len() ==> step_ok(m, #[trigger] queue@[i]),
                    forall|i: int|
                        0 <= i < queue@.len() ==> drop_reachable(m, coord, #[trigger] queue@[i]),
                    forall|i: int|
                        1 <= i < queue@.len() ==> old(self).items@.contains_key(
                            #[trigger] queue@[i],
                        ),
                    1 <= head <= queue@.len(),
                    cur == queue@[head - 1],
                    forall|i: int| 0 <= i < 6 ==> dirs@[i] == crate::hex::dir_of_index(i),
                    forall|k: int, d: Direction|
                        #![trigger spec_step(queue@[k], d)]
                        0 <= k < head - 1 && step_ok(m, spec_step(queue@[k], d))
                            ==> queue@.contains(spec_step(queue@[k], d)),
                    forall|d2: Direction|
                        #![trigger spec_step(cur, d2)]
                        crate::hex::dir_index(d2) < di && step_ok(m, spec_step(cur, d2))
                            ==> queue@.contains(spec_step(cur, d2)),
                    queue@.len() <= m.dom().len() + 1,
                decreases 6 - di,
            {
                let n = cur.step(dirs[di]);
                let n_pass = match self.at(n).tile() {
                    Some(t) => t.is_passable(),
                    None => false,
                };
                if n_pass {
                    proof {
                        lemma_reach_step(m, coord, cur, n, dirs@[di as int]);
                    }
                    if !coord_in_vec(&queue, n) {
                        if !self.items.contains_key(n) {
                            self.items.insert(n, item);
                            proof {
                                assert(drop_reachable(old(self).map@, coord, n) && step_ok(
                                    old(self).map@,
                                    n,
                                ) && !old(self).items@.contains_key(n) && self.items@ == old(
                                    self,
                                ).items@.insert(n, item));
                            }
                            return ;
                        }
                        let ghost prev = queue@;
                        queue.push(n);
                        proof {
                            let q = queue@;
                            assert(q.drop_last() =~= prev);
                            assert forall|i: int| 0 <= i < prev.len() implies q[i] == prev[i] by {
                            }
                            assert(q[0] == coord);
                            assert forall|i: int, j: int| 0 <= i < j < q.len() implies q[i]
                                != q[j] by {
                                if j < q.len() - 1 {
                                    assert(prev[i] == q[i] && prev[j] == q[j]);
                                } else {
                                    assert(prev[i] == q[i]);
                                    assert(prev.contains(q[i]));
                                }
                            }
                            lemma_queue_bound(q, m);
                            assert(q[prev.len() as int] == n);
                            assert forall|k: int, d: Direction|
                                0 <= k < head - 1 && step_ok(
                                    m,
                                    #[trigger] spec_step(q[k], d),
                                ) implies q.contains(spec_step(q[k], d)) by {
                                assert(q[k] == prev[k]);
                                assert(prev.contains(spec_step(prev[k], d)));
                                lemma_push_contains(prev, n, spec_step(prev[k], d));
                            }
                            assert forall|d2: Direction|
                                crate::hex::dir_index(d2) < di + 1 && step_ok(
                                    m,
                                    #[trigger] spec_step(cur, d2),
                                ) implies q.contains(spec_step(cur, d2)) by {
                                if crate::hex::dir_index(d2) == di as int {
                                    assert(crate::hex::dir_of_index(crate::hex::dir_index(d2))
                                        == d2);
                                    assert(d2 == dirs@[di as int]);
                                    assert(spec_step(cur, d2) == n);
                                    assert(q.contains(n));
                                } else {
                                    assert(prev.contains(spec_step(cur, d2)));
                                    lemma_push_contains(prev, n, spec_step(cur, d2));
                                }
                            }
                        }
                    } else {
                        proof {
                            assert forall|d2: Direction|
                                crate::hex::dir_index(d2) < di + 1 && step_ok(
                                    m,
                                    #[trigger] spec_step(cur, d2),
                                ) implies queue@.contains(spec_step(cur, d2)) by {
                                if crate::hex::dir_index(d2) == di as int {
                                    assert(crate::hex::dir_of_index(crate::hex::dir_index(d2))
                                        == d2);
                                    assert(d2 == dirs@[di as int]);
                                    assert(spec_step(cur, d2) == n);
                                }
                            }
                        }
                    }
                } else {
                    proof {
                        assert(!step_ok(m, n));
                        assert forall|d2: Direction|
                            crate::hex::dir_index(d2) < di + 1 && step_ok(
                                m,
                                #[trigger] spec_step(cur, d2),
                            ) implies queue@.contains(spec_step(cur, d2)) by {
                            if crate::hex::dir_index(d2) == di as int {
                                assert(crate::hex::dir_of_index(crate::hex::dir_index(d2)) == d2);
                                assert(d2 == dirs@[di as int]);
                                assert(spec_step(cur, d2) == n);
                            }
                        }
                    }
                }
                di += 1;
            }
            proof {
                assert forall|k: int, d: Direction|
                    0 <= k < head && step_ok(m, #[trigger] spec_step(queue@[k], d)) implies queue@.contains(
                    spec_step(queue@[k], d),
                ) by {
                    if k == head - 1 {
                        assert(queue@[k] == cur);
                        assert(crate::hex::dir_index(d) < 6);
                    }
                }
            }
        }
        // No reachable walkable cell is free: the item is destroyed, and
        // exhaustion of the closed search set shows nothing was missed.
        proof {
            assert forall|c: Coord|
                drop_reachable(m, coord, c) && #[trigger] step_ok(m, c) implies old(
                self,
            ).items@.contains_key(c) by {
                let pth = choose|pth: Seq<Coord>| #[trigger] is_drop_path(m, coord, pth)
                    && pth.last() == c;
                lemma_bfs_closed(m, coord, queue@, pth);
                let k = choose|k: int| 0 <= k < queue@.len() && queue@[k] == c;
                if k == 0 {
                    assert(c == coord);
                } else {
                    assert(old(self).items@.contains_key(queue@[k]));
                }
            }
        }
    }

    /// Applies one action of the actor `id`, resolving it against the
    /// world as `act_rel` states.  An impossible action falls back to
    /// doing nothing; no failure is reported.
    pub fn act(&mut self, id: u32, action: Action)
        requires
            old(self).wf(),
            old(self).attached(id as int),
        ensures
            final (self).wf(),
            act_rel(*old(self), id as int, action, *final (self)),
    {
        let ghost s = *old(self);
        let can = match &self.actors[id as usize] {
            Some(a) => a.can_perform_action(),
            None => false,
        };
        if !can {
            return ;
        }
        let mut a = self.take_actor(id);
        let old_pos = a.pos;
        let new_pos = a.pos_after_action(action);
        if old_pos == new_pos {
            match action {
                Action::Pick => {
                    let head = a.head();
                    let item = self.pick_item(head);
                    match item {
                        Some(item) => {
                            a.add_item(item);
                        },
                        None => {},
                    }
                },
                Action::Equip(ch) => {
                    a.equip_switch(ch);
                },
                Action::Descend => {
                    let stairs = match self.at(a.pos.coord).tile() {
                        Some(t) => t.feature == Some(Feature::Stairs),
                        None => false,
                    };
                    if stairs {
                        self.descend = true;
                    }
                },
                _ => {},
            }
            let ghost a_fin = a;
            self.put_actor(id, a);
            proof {
                assert(self.actors@ =~= s.actors@.update(id as int, Some(a_fin)));
                assert(self.actor(id as int) == a_fin);
                if a_fin == s.actor(id as int) {
                    assert(self.actors@ =~= s.actors@);
                }
                lemma_put_back(s, *self, id as int, a_fin);
            }
        } else if action_could_be_attack(action) && old_pos.coord != new_pos.coord
            && self.at(new_pos.coord).is_occupied() {
            // A move into an occupied cell: a melee attempt.
            if !a.can_attack() {
                let ghost a_fin = a;
                self.put_actor(id, a);
                proof {
                    assert(self.actors@ =~= s.actors@.update(id as int, Some(a_fin)));
                    assert(self.actors@ =~= s.actors@);
                    lemma_put_back(s, *self, id as int, a_fin);
                }
                return ;
            }
            let dir = match action {
                Action::Move(an) => old_pos.dir.rotate(an),
                _ => old_pos.dir,
            };
            let target_id = match self.actors_pos.get(new_pos.coord) {
                Some(tid) => *tid,
                None => 0,
            };
            if target_id == id {
                // A stale index entry can point the mover at itself;
                // striking one's own record is no fight.
                let ghost a_fin = a;
                self.put_actor(id, a);
                proof {
                    assert(self.actors@ =~= s.actors@.update(id as int, Some(a_fin)));
                    assert(self.actors@ =~= s.actors@);
                    lemma_put_back(s, *self, id as int, a_fin);
                }
                return ;
            }
            proof {
                assert(s.actors_pos@.contains_key(new_pos.coord));
                assert((s.actors_pos@[new_pos.coord] as int) < s.actors@.len());
                assert(self.actors@[target_id as int] == s.actors@[target_id as int]);
                assert(s.attached(target_id as int));
            }
            let mut target = self.take_actor(target_id);
            a.attacks(dir, &mut target);
            let ghost t_fin = target;
            self.put_actor(target_id, target);
            let ghost a_fin = a;
            self.put_actor(id, a);
            proof {
                assert(self.actors@ =~= s.actors@.update(target_id as int, Some(t_fin)));
                assert(self.actor(target_id as int) == t_fin);
                lemma_put_back(s, *self, target_id as int, t_fin);
            }
        } else if {
            let door = match self.at(new_pos.coord).tile() {
                Some(t) => t.feature == Some(Feature::Door(false)),
                None => false,
            };
            door
        } {
            // Walked into a closed door: the turn opens it, through a
            // fresh terrain value so that shared snapshots keep the old
            // one.
            let mut map = self.map.duplicate();
            let tile = match map.get(new_pos.coord) {
                Some(t) => *t,
                None => Tile::floor(),
            };
            map.insert(new_pos.coord, tile.add_feature(Feature::Door(true)));
            self.map = Arc::new(map);
            let ghost a_fin = a;
            self.put_actor(id, a);
            proof {
                assert(self.actors@ =~= s.actors@.update(id as int, Some(a_fin)));
                assert(self.actors@ =~= s.actors@);
                assert forall|c: Coord| #[trigger] self.map@.contains_key(c) implies in_range(c)
                    && tile_wf(self.map@[c]) by {
                    assert(s.map@.contains_key(c));
                }
                lemma_put_back(s, *self, id as int, a_fin);
            }
        } else if {
            let pass = old_pos.coord == new_pos.coord || self.at(new_pos.coord).is_passable();
            pass
        } {
            // The move commits.  The old coordinate's index entry stays
            // until cleanup, so later actors this turn can still find
            // the mover through either cell.
            a.moved(new_pos);
            self.actors_pos.insert(new_pos.coord, id);
            let ghost a_fin = a;
            self.put_actor(id, a);
            proof {
                assert(self.actors@ =~= s.actors@.update(id as int, Some(a_fin)));
                assert(self.actor(id as int) == a_fin);
                assert forall|c: Coord| #[trigger] self.actors_pos@.contains_key(c) implies (
                self.actors_pos@[c] as int) < self.actors@.len() && in_range(c) by {
                    if c != new_pos.coord {
                        assert(s.actors_pos@.contains_key(c));
                    } else {
                        assert(in_range(a_fin.pos.coord));
                    }
                }
                lemma_put_back(s, *self, id as int, a_fin);
            }
        } else {
            // Hit a wall or worse: nothing happens.
            let ghost a_fin = a;
            self.put_actor(id, a);
            proof {
                assert(self.actors@ =~= s.actors@.update(id as int, Some(a_fin)));
                assert(self.actors@ =~= s.actors@);
                lemma_put_back(s, *self, id as int, a_fin);
            }
        }
    }
}

/// Reattaching a well-placed record under an id of a well-formed world
/// leaves the world well formed, provided the index, terrain, items and
/// light parts are in shape.
proof fn lemma_put_back(s: State, t: State, id: int, a: Actor)
    requires
        s.wf(),
        0 <= id < s.actors@.len(),
        t.actors@ == s.actors@.update(id, Some(a)),
        in_range(a.pos.coord),
        t.actors_pos.wf(),
        forall|c: Coord| #[trigger]
            t.actors_pos@.contains_key(c) ==> (t.actors_pos@[c] as int) < t.actors@.len()
                && in_range(c),
        t.map_wf(),
        t.items.wf(),
        t.light_map.wf(),
    ensures
        t.wf(),
{
    assert forall|i: int| t.has_id(i) implies #[trigger] t.attached(i) by {
        if i != id {
            assert(s.attached(i));
            assert(t.actors@[i] == s.actors@[i]);
        }
    }
    assert forall|i: int| t.has_id(i) implies in_range(#[trigger] t.actor(i).pos.coord) by {
        if i != id {
            assert(s.attached(i));
            assert(in_range(s.actor(i).pos.coord));
            assert(t.actors@[i] == s.actors@[i]);
        }
    }
}

} // verus!
