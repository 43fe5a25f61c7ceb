//! Per-creature state and the behaviour hooks the turn engine calls.
//! The engine reads these records through stable integer ids; the rules
//! here are the minimal ones the engine's contracts rely on.

use vstd::prelude::*;

use crate::game::Action;
use crate::game::State;
use crate::hex::Angle;
use crate::hex::Coord;
use crate::hex::Direction;
use crate::hex::Position;
use crate::hex::in_range;
use crate::hex::spec_rotate;
use crate::hex::spec_step;
use crate::item::Item;
use crate::item::Slot;

verus! {

/// The species of an actor.
#[derive(Clone, Copy, PartialEq, Eq, Structural, Debug)]
pub enum Race {
    Human,
    Pony,
    Rat,
}

/// What kind of sound a heard noise was.
#[derive(Clone, Copy, PartialEq, Eq, Structural, Debug)]
pub enum NoiseType {
    /// A sound made by a creature of the given race.
    Creature(Race),
}

/// Mutable per-creature state: position, vital and capability flags,
/// emission radii, perception, and the two inventories.
#[derive(Clone, Debug)]
pub struct Actor {
    /// Coordinate and facing.
    pub pos: Position,
    /// Species.
    pub race: Race,
    /// Whether this is the player character.
    pub player: bool,
    /// Hit points; the actor is dead when they reach zero.
    pub hp: u16,
    /// Hit points an attack of this actor takes away.
    pub damage: u16,
    /// Whether the actor can currently take actions at all.
    pub acts: bool,
    /// Whether the actor is able to fight in melee.
    pub melee: bool,
    /// How far the actor's noise carries; zero for a silent actor.
    pub noise_emission: u16,
    /// How far the actor's own light reaches; zero for an unlit actor.
    pub light_emission: u16,
    /// Noises heard this turn: where from, and what kind.
    pub heard: Vec<(Coord, NoiseType)>,
    /// The light intensity at the actor's cell, as of the last post-turn
    /// hook.
    pub seen_light: u32,
    /// Carried items.
    pub backpack: Vec<Item>,
    /// Worn or held items, at most one per slot.
    pub equipped: Vec<Item>,
}

/// All fields that no inventory, perception or position change touches.
pub open spec fn same_stats(a: Actor, b: Actor) -> bool {
    &&& a.race == b.race
    &&& a.player == b.player
    &&& a.hp == b.hp
    &&& a.damage == b.damage
    &&& a.acts == b.acts
    &&& a.melee == b.melee
    &&& a.noise_emission == b.noise_emission
    &&& a.light_emission == b.light_emission
}

/// The position the actor would hold after the action, before the engine
/// has ruled on whether the world allows it.
pub open spec fn spec_pos_after(p: Position, a: Action) -> Position {
    match a {
        Action::Turn(an) => Position { coord: p.coord, dir: spec_rotate(p.dir, an) },
        Action::Move(an) => Position { coord: spec_step(p.coord, spec_rotate(p.dir, an)), dir: p.dir },
        Action::Spin(an) => Position {
            coord: p.coord,
            dir: spec_rotate(spec_rotate(p.dir, an), an),
        },
        _ => p,
    }
}

/// Index of the first item of `s` that answers to the letter `ch`, or -1.
pub open spec fn first_with_letter(s: Seq<Item>, ch: char) -> int
    decreases s.len(),
{
    if s.len() == 0 {
        -1
    } else if s[0].letter == ch {
        0
    } else {
        let r = first_with_letter(s.drop_first(), ch);
        if r < 0 {
            -1
        } else {
            r + 1
        }
    }
}

/// Index of the first item of `s` worn in the slot `sl`, or -1.
pub open spec fn first_in_slot(s: Seq<Item>, sl: Slot) -> int
    decreases s.len(),
{
    if s.len() == 0 {
        -1
    } else if s[0].slot == sl {
        0
    } else {
        let r = first_in_slot(s.drop_first(), sl);
        if r < 0 {
            -1
        } else {
            r + 1
        }
    }
}

/// How one equip-switch action turns the actor `a` into the actor `b`:
/// the first backpack item answering to `ch` moves into its slot, and
/// whatever that slot held goes back into the backpack; without such an
/// item nothing changes.
pub open spec fn equip_rel(a: Actor, ch: char, b: Actor) -> bool {
    let i = first_with_letter(a.backpack@, ch);
    &&& b == (Actor { backpack: b.backpack, equipped: b.equipped, ..a })
    &&& if i < 0 {
        b.backpack@ == a.backpack@ && b.equipped@ == a.equipped@
    } else {
        let it = a.backpack@[i];
        let j = first_in_slot(a.equipped@, it.slot);
        if j < 0 {
            b.backpack@ == a.backpack@.remove(i) && b.equipped@ == a.equipped@.push(it)
        } else {
            b.backpack@ == a.backpack@.remove(i).push(a.equipped@[j]) && b.equipped@
                == a.equipped@.remove(j).push(it)
        }
    }
}

/// How one melee strike of `dmg` hit points turns the target `b` into the
/// target `c`: hit points sink by `dmg`, to a floor of zero; nothing else
/// moves.
pub open spec fn struck(dmg: u16, b: Actor, c: Actor) -> bool {
    c == (Actor {
        hp: if b.hp >= dmg {
            (b.hp - dmg) as u16
        } else {
            0
        },
        ..b
    })
}

proof fn lemma_first_with_letter(s: Seq<Item>, ch: char, i: int)
    requires
        0 <= i <= s.len(),
        forall|j: int| 0 <= j < i ==> (#[trigger] s[j]).letter != ch,
        i < s.len() ==> s[i].letter == ch,
    ensures
        i < s.len() ==> first_with_letter(s, ch) == i,
        i == s.len() ==> first_with_letter(s, ch) == -1,
    decreases s.len(),
{
    if s.len() > 0 && s[0].letter != ch {
        assert forall|j: int| 0 <= j < i - 1 implies (#[trigger] s.drop_first()[j]).letter
            != ch by {
            assert(s[j + 1].letter != ch);
        }
        lemma_first_with_letter(s.drop_first(), ch, i - 1);
    }
}

proof fn lemma_first_in_slot(s: Seq<Item>, sl: Slot, i: int)
    requires
        0 <= i <= s.len(),
        forall|j: int| 0 <= j < i ==> (#[trigger] s[j]).slot != sl,
        i < s.len() ==> s[i].slot == sl,
    ensures
        i < s.len() ==> first_in_slot(s, sl) == i,
        i == s.len() ==> first_in_slot(s, sl) == -1,
    decreases s.len(),
{
    if s.len() > 0 && s[0].slot != sl {
        assert forall|j: int| 0 <= j < i - 1 implies (#[trigger] s.drop_first()[j]).slot != sl by {
            assert(s[j + 1].slot != sl);
        }
        lemma_first_in_slot(s.drop_first(), sl, i - 1);
    }
}

/// An element-for-element copy of an item list.
fn copy_items(v: &Vec<Item>) -> (r: Vec<Item>)
    ensures
        r@ == v@,
{
    let n = v.len();
    let mut r: Vec<Item> = Vec::new();
    let mut i: usize = 0;
    while i < n
        invariant
            n == v@.len(),
            0 <= i <= n,
            r@ =~= v@.take(i as int),
        decreases n - i,
    {
        r.push(v[i]);
        i += 1;
    }
    proof {
        assert(r@ =~= v@);
    }
    r
}

/// An element-for-element copy of a heard-noise list.
fn copy_heard(v: &Vec<(Coord, NoiseType)>) -> (r: Vec<(Coord, NoiseType)>)
    ensures
        r@ == v@,
{
    let n = v.len();
    let mut r: Vec<(Coord, NoiseType)> = Vec::new();
    let mut i: usize = 0;
    while i < n
        invariant
            n == v@.len(),
            0 <= i <= n,
            r@ =~= v@.take(i as int),
        decreases n - i,
    {
        r.push(v[i]);
        i += 1;
    }
    proof {
        assert(r@ =~= v@);
    }
    r
}

impl Actor {
    /// A fresh actor of the given race at the given position, able to act
    /// and fight, silent and unlit, with empty inventories.
    pub fn new(race: Race, pos: Position) -> (a: Actor)
        ensures
            a.pos == pos,
            a.race == race,
            !a.player,
            a.hp == 10,
            a.damage == 1,
            a.acts,
            a.melee,
            a.noise_emission == 0,
            a.light_emission == 0,
            a.heard@ == Seq::<(Coord, NoiseType)>::empty(),
            a.seen_light == 0,
            a.backpack@ == Seq::<Item>::empty(),
            a.equipped@ == Seq::<Item>::empty(),
    {
        Actor {
            pos,
            race,
            player: false,
            hp: 10,
            damage: 1,
            acts: true,
            melee: true,
            noise_emission: 0,
            light_emission: 0,
            heard: Vec::new(),
            seen_light: 0,
            backpack: Vec::new(),
            equipped: Vec::new(),
        }
    }

    /// Marks the actor as the player character.
    pub fn set_player(&mut self)
        ensures
            *final (self) == (Actor { player: true, ..*old(self) }),
    {
        self.player = true;
    }

    /// Whether this is the player character.
    pub fn is_player(&self) -> (r: bool)
        ensures
            r == self.player,
    {
        self.player
    }

    /// Whether the actor is dead.
    pub fn is_dead(&self) -> (r: bool)
        ensures
            r == (self.hp == 0),
    {
        self.hp == 0
    }

    /// Whether the actor can take an action this turn.
    pub fn can_perform_action(&self) -> (r: bool)
        ensures
            r == (self.hp != 0 && self.acts),
    {
        self.hp != 0 && self.acts
    }

    /// Whether the actor can fight in melee.
    pub fn can_attack(&self) -> (r: bool)
        ensures
            r == (self.hp != 0 && self.melee),
    {
        self.hp != 0 && self.melee
    }

    /// The actor's coordinate.
    pub fn coord(&self) -> (c: Coord)
        ensures
            c == self.pos.coord,
    {
        self.pos.coord
    }

    /// The cell right in front of the actor.
    pub fn head(&self) -> (c: Coord)
        requires
            in_range(self.pos.coord),
        ensures
            c == spec_step(self.pos.coord, self.pos.dir),
    {
        self.pos.coord.step(self.pos.dir)
    }

    /// The position the actor would hold after the action, ignoring what
    /// the world allows.
    pub fn pos_after_action(&self, action: Action) -> (p: Position)
        requires
            in_range(self.pos.coord),
        ensures
            p == spec_pos_after(self.pos, action),
    {
        match action {
            Action::Turn(an) => self.pos.rotated(an),
            Action::Move(an) => Position {
                coord: self.pos.coord.step(self.pos.dir.rotate(an)),
                dir: self.pos.dir,
            },
            Action::Spin(an) => self.pos.rotated(an).rotated(an),
            _ => self.pos,
        }
    }

    /// Puts the actor at a new position.
    pub fn moved(&mut self, pos: Position)
        ensures
            *final (self) == (Actor { pos, ..*old(self) }),
    {
        self.pos = pos;
    }

    /// Tells the actor it was carried to a fresh level: its perception of
    /// the old one is void.
    pub fn changed_level(&mut self)
        ensures
            *final (self) == (Actor {
                heard: final (self).heard,
                seen_light: 0,
                ..*old(self)
            }),
            final (self).heard@ == Seq::<(Coord, NoiseType)>::empty(),
    {
        self.heard = Vec::new();
        self.seen_light = 0;
    }

    /// Puts an item into the backpack.
    pub fn add_item(&mut self, it: Item)
        ensures
            *final (self) == (Actor { backpack: final (self).backpack, ..*old(self) }),
            final (self).backpack@ == old(self).backpack@.push(it),
    {
        self.backpack.push(it);
    }

    /// Swaps the backpack item with the letter `ch` into its slot: the item
    /// leaves the backpack, and whatever was worn in that slot goes back
    /// into the backpack.  Without such a backpack item nothing changes.
    pub fn equip_switch(&mut self, ch: char)
        ensures
            equip_rel(*old(self), ch, *final (self)),
    {
        let n = self.backpack.len();
        let mut i: usize = 0;
        while i < n
            invariant
                n == self.backpack@.len(),
                *self == *old(self),
                0 <= i <= n,
                forall|j: int| 0 <= j < i ==> (#[trigger] self.backpack@[j]).letter != ch,
            ensures
                n == self.backpack@.len(),
                *self == *old(self),
                0 <= i <= n,
                forall|j: int| 0 <= j < i ==> (#[trigger] self.backpack@[j]).letter != ch,
                i < n ==> self.backpack@[i as int].letter == ch,
            decreases n - i,
        {
            if self.backpack[i].letter == ch {
                break ;
            }
            i += 1;
        }
        proof {
            lemma_first_with_letter(self.backpack@, ch, i as int);
        }
        if i == n {
            return ;
        }
        let it = self.backpack.remove(i);
        let m = self.equipped.len();
        let mut j: usize = 0;
        while j < m
            invariant
                m == self.equipped@.len(),
                self.equipped@ == old(self).equipped@,
                0 <= j <= m,
                forall|k: int| 0 <= k < j ==> (#[trigger] self.equipped@[k]).slot != it.slot,
            ensures
                m == self.equipped@.len(),
                self.equipped@ == old(self).equipped@,
                0 <= j <= m,
                forall|k: int| 0 <= k < j ==> (#[trigger] self.equipped@[k]).slot != it.slot,
                j < m ==> self.equipped@[j as int].slot == it.slot,
            decreases m - j,
        {
            if self.equipped[j].slot == it.slot {
                break ;
            }
            j += 1;
        }
        proof {
            lemma_first_in_slot(self.equipped@, it.slot, j as int);
        }
        if j == m {
            self.equipped.push(it);
        } else {
            let back = self.equipped.remove(j);
            self.backpack.push(back);
            self.equipped.push(it);
        }
    }

    /// Resolves this actor's melee strike from the given direction against
    /// the target: the target loses `damage` hit points, to a floor of
    /// zero.  The direction is part of the hook interface for richer
    /// combat rules; these minimal ones do not read it.
    pub fn attacks(&self, _dir: Direction, target: &mut Actor)
        ensures
            struck(self.damage, *old(target), *final (target)),
    {
        if target.hp >= self.damage {
            target.hp = target.hp - self.damage;
        } else {
            target.hp = 0;
        }
    }

    /// A copy of the record, field for field.
    pub fn duplicate(&self) -> (r: Actor)
        ensures
            same_stats(*self, r),
            r.pos == self.pos,
            r.heard@ == self.heard@,
            r.seen_light == self.seen_light,
            r.backpack@ == self.backpack@,
            r.equipped@ == self.equipped@,
    {
        Actor {
            pos: self.pos,
            race: self.race,
            player: self.player,
            hp: self.hp,
            damage: self.damage,
            acts: self.acts,
            melee: self.melee,
            noise_emission: self.noise_emission,
            light_emission: self.light_emission,
            heard: copy_heard(&self.heard),
            seen_light: self.seen_light,
            backpack: copy_items(&self.backpack),
            equipped: copy_items(&self.equipped),
        }
    }

    /// Records a noise the actor hears.
    pub fn noise_hears(&mut self, from: Coord, kind: NoiseType)
        ensures
            *final (self) == (Actor { heard: final (self).heard, ..*old(self) }),
            final (self).heard@ == old(self).heard@.push((from, kind)),
    {
        self.heard.push((from, kind));
    }

    /// Pre-turn hook: the actor drops last turn's perception before the
    /// turn's actions run.  The rest of the world, with this actor's own
    /// record detached, is handed in by reference.
    pub fn pre_tick(&mut self, _world: &State)
        ensures
            *final (self) == (Actor { heard: final (self).heard, ..*old(self) }),
            final (self).heard@ == Seq::<(Coord, NoiseType)>::empty(),
    {
        self.heard = Vec::new();
    }

    /// Post-turn hook: the actor takes note of the light at its own cell.
    /// The rest of the world, with this actor's own record detached, is
    /// handed in by reference.
    pub fn post_tick(&mut self, world: &State)
        requires
            world.light_map.wf(),
        ensures
            *final (self) == (Actor {
                seen_light: if world.light_map@.contains_key(old(self).pos.coord) {
                    world.light_map@[old(self).pos.coord]
                } else {
                    0
                },
                ..*old(self)
            }),
    {
        self.seen_light = match world.light_map.get(self.pos.coord) {
            Some(l) => *l,
            None => 0,
        };
    }
}

} // verus!
