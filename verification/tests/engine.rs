//! End-to-end checks of the turn engine: world creation, the turn
//! lifecycle, action resolution, item handling and the derived fields.

use std::sync::Arc;

use rhex::actor::Actor;
use rhex::actor::NoiseType;
use rhex::actor::Race;
use rhex::coord_map::CoordMap;
use rhex::game::Action;
use rhex::game::State;
use rhex::hex::Angle;
use rhex::hex::Coord;
use rhex::hex::Direction;
use rhex::hex::Position;
use rhex::item::Item;
use rhex::item::Slot;
use rhex::tile::Feature;
use rhex::tile::Tile;

fn c(x: i64, y: i64) -> Coord {
    Coord { x, y }
}

fn pos(x: i64, y: i64, dir: Direction) -> Position {
    Position { coord: c(x, y), dir }
}

/// A tiny hand-built world: the given tiles, no actors, no items.
fn world(tiles: &[(Coord, Tile)]) -> State {
    let mut map = CoordMap::new();
    for (co, t) in tiles {
        map.insert(*co, *t);
    }
    State {
        actors: Vec::new(),
        actors_pos: CoordMap::new(),
        actors_dead: Vec::new(),
        map: Arc::new(map),
        items: CoordMap::new(),
        light_map: CoordMap::new(),
        turn: 0,
        descend: false,
        level: 0,
    }
}

fn actor_at(st: &State, id: u32) -> &Actor {
    st.actors[id as usize].as_ref().expect("actor record detached")
}

#[test]
fn scenario_a_fresh_world() {
    let st = State::new();
    assert_eq!(st.turn, 0);
    assert_eq!(st.level, 0);
    assert!(!st.descend);
    assert!(st.map.entry_count() > 0);
    let players = st
        .actors
        .iter()
        .filter(|a| a.as_ref().map_or(false, |a| a.player))
        .count();
    assert_eq!(players, 1);
}

#[test]
fn scenario_b_one_turn_cycle() {
    let mut st = State::new();
    st.pre_tick();
    for id in st.actors_alive_ids() {
        st.act(id, Action::Wait);
    }
    st.post_tick();
    assert_eq!(st.turn, 1);
    // The generated world carries a lamp tile, so the recomputed light
    // field must hold a positive entry.
    let lamp = st.at(c(0, 1)).light();
    assert!(lamp > 0);
}

#[test]
fn scenario_c_descend_on_and_off_stairs() {
    let mut st = State::new();
    let player = (st.actors_counter() - 1) as u32;
    // Away from the stairs the flag stays down.
    st.act(player, Action::Descend);
    assert!(!st.descend);
    // Face the stairs cell east of the start, step onto it, descend.
    st.act(player, Action::Turn(Angle::RightBack));
    assert_eq!(actor_at(&st, player).pos.dir, Direction::SouthEast);
    st.act(player, Action::Move(Angle::Forward));
    assert_eq!(actor_at(&st, player).pos.coord, c(1, 0));
    st.act(player, Action::Descend);
    assert!(st.descend);
}

#[test]
fn impassable_move_is_silent_noop() {
    let mut st = world(&[(c(0, 0), Tile::floor()), (c(0, -1), Tile::wall())]);
    st.spawn(Actor::new(Race::Human, pos(0, 0, Direction::North)));
    st.act(0, Action::Move(Angle::Forward));
    assert_eq!(actor_at(&st, 0).pos, pos(0, 0, Direction::North));
    // Off the map entirely is just as silent.
    st.act(0, Action::Move(Angle::Back));
    assert_eq!(actor_at(&st, 0).pos, pos(0, 0, Direction::North));
}

#[test]
fn closed_door_bump_opens_it() {
    let door = Tile::floor().add_feature(Feature::Door(false));
    let mut st = world(&[(c(0, 0), Tile::floor()), (c(0, -1), door)]);
    st.spawn(Actor::new(Race::Human, pos(0, 0, Direction::North)));
    st.act(0, Action::Move(Angle::Forward));
    // The turn went on opening the door: no movement, tile flipped.
    assert_eq!(actor_at(&st, 0).pos.coord, c(0, 0));
    let t = st.map.get(c(0, -1)).copied().expect("door tile vanished");
    assert_eq!(t.feature, Some(Feature::Door(true)));
    // Now the way is free.
    st.act(0, Action::Move(Angle::Forward));
    assert_eq!(actor_at(&st, 0).pos.coord, c(0, -1));
}

#[test]
fn drop_on_full_ground_destroys_item() {
    let mut st = world(&[(c(0, 0), Tile::floor())]);
    st.items.insert(c(0, 0), Item::new('a', Slot::Hand));
    st.drop_item(c(0, 0), Item::new('b', Slot::Body));
    // The single reachable walkable cell was taken: the new item is gone.
    assert_eq!(st.items.entry_count(), 1);
    assert_eq!(st.items.get(c(0, 0)).copied(), Some(Item::new('a', Slot::Hand)));
}

#[test]
fn drop_lands_on_nearest_free_cell() {
    let mut st = world(&[(c(0, 0), Tile::floor()), (c(0, 1), Tile::floor())]);
    st.items.insert(c(0, 0), Item::new('a', Slot::Hand));
    st.drop_item(c(0, 0), Item::new('b', Slot::Body));
    assert_eq!(st.items.get(c(0, 1)).copied(), Some(Item::new('b', Slot::Body)));
}

#[test]
fn attack_keeps_both_combatants_registered() {
    let mut st = world(&[(c(0, 0), Tile::floor()), (c(0, -1), Tile::floor())]);
    st.spawn(Actor::new(Race::Human, pos(0, 0, Direction::North)));
    st.spawn(Actor::new(Race::Rat, pos(0, -1, Direction::South)));
    st.act(0, Action::Move(Angle::Forward));
    assert_eq!(st.actors.len(), 2);
    assert!(st.actors[0].is_some());
    assert!(st.actors[1].is_some());
    // The strike landed: the rat lost one hit point to the human.
    assert_eq!(actor_at(&st, 1).hp, 9);
    // The attacker stayed put.
    assert_eq!(actor_at(&st, 0).pos.coord, c(0, 0));
}

#[test]
fn death_drops_inventory_exactly_once() {
    let mut st = world(&[(c(0, 0), Tile::floor()), (c(0, 1), Tile::floor())]);
    let mut victim = Actor::new(Race::Rat, pos(0, 0, Direction::North));
    victim.backpack.push(Item::new('a', Slot::Hand));
    victim.equipped.push(Item::new('b', Slot::Body));
    victim.hp = 0;
    st.spawn(victim);
    st.post_tick();
    assert_eq!(st.turn, 1);
    // Both items lie on the ground now; the record is emptied and the
    // death is booked.
    assert_eq!(st.items.entry_count(), 2);
    assert!(actor_at(&st, 0).backpack.is_empty());
    assert!(actor_at(&st, 0).equipped.is_empty());
    assert_eq!(st.actors_dead, vec![0]);
    // A second cleanup without new deaths changes nothing further.
    st.post_tick();
    assert_eq!(st.items.entry_count(), 2);
    assert_eq!(st.actors_dead, vec![0]);
}

#[test]
fn index_is_exact_after_cycle() {
    let mut st = State::new();
    st.pre_tick();
    for id in st.actors_alive_ids() {
        st.act(id, Action::Move(Angle::Forward));
    }
    st.post_tick();
    let n = st.actors_pos.entry_count();
    for i in 0..n {
        let (co, id) = *st.actors_pos.entry_at(i);
        let a = actor_at(&st, id);
        assert!(a.hp != 0);
        assert_eq!(a.pos.coord, co);
    }
}

#[test]
fn light_recomputation_is_deterministic_and_attenuates() {
    let lamp = Tile { passable: true, opaqueness: 1, light: 4, feature: None };
    let mut st = world(&[
        (c(0, 0), lamp),
        (c(0, 1), Tile::floor()),
        (c(0, 2), Tile::floor()),
        (c(0, 3), Tile::floor()),
        (c(0, 4), Tile::floor()),
    ]);
    st.recalculate_light_map();
    let first: Vec<(Coord, u32)> = (0..st.light_map.entry_count())
        .map(|i| *st.light_map.entry_at(i))
        .collect();
    st.recalculate_light_map();
    let second: Vec<(Coord, u32)> = (0..st.light_map.entry_count())
        .map(|i| *st.light_map.entry_at(i))
        .collect();
    assert_eq!(first, second);
    // The source keeps its full strength; each step south costs one.
    assert_eq!(st.at(c(0, 0)).light(), 4);
    assert_eq!(st.at(c(0, 1)).light(), 4);
    assert_eq!(st.at(c(0, 2)).light(), 3);
    assert_eq!(st.at(c(0, 3)).light(), 2);
    assert_eq!(st.at(c(0, 4)).light(), 1);
    assert_eq!(st.at(c(0, 5)).light(), 0);
}

#[test]
fn noise_reaches_neighbours_not_the_source() {
    let mut st = world(&[(c(0, 0), Tile::floor()), (c(0, 1), Tile::floor())]);
    let mut crier = Actor::new(Race::Rat, pos(0, 0, Direction::South));
    crier.noise_emission = 3;
    st.spawn(crier);
    st.spawn(Actor::new(Race::Human, pos(0, 1, Direction::North)));
    st.recalculate_noise();
    assert!(actor_at(&st, 1)
        .heard
        .contains(&(c(0, 0), NoiseType::Creature(Race::Rat))));
    // The crier does not hear itself.
    assert!(actor_at(&st, 0)
        .heard
        .iter()
        .all(|&(from, _)| from != c(0, 0)));
}

#[test]
fn pick_and_equip_move_items() {
    let mut st = world(&[(c(0, 0), Tile::floor()), (c(0, -1), Tile::floor())]);
    st.items.insert(c(0, -1), Item::new('a', Slot::Hand));
    st.spawn(Actor::new(Race::Human, pos(0, 0, Direction::North)));
    st.act(0, Action::Pick);
    assert_eq!(st.items.entry_count(), 0);
    assert_eq!(actor_at(&st, 0).backpack, vec![Item::new('a', Slot::Hand)]);
    st.act(0, Action::Equip('a'));
    assert!(actor_at(&st, 0).backpack.is_empty());
    assert_eq!(actor_at(&st, 0).equipped, vec![Item::new('a', Slot::Hand)]);
}

#[test]
fn pre_tick_clears_last_turns_perception() {
    let mut st = world(&[(c(0, 0), Tile::floor())]);
    let mut a = Actor::new(Race::Human, pos(0, 0, Direction::North));
    a.heard.push((c(5, 5), NoiseType::Creature(Race::Rat)));
    st.spawn(a);
    st.pre_tick();
    assert!(actor_at(&st, 0).heard.is_empty());
}

#[test]
fn dead_actor_acts_as_noop() {
    let mut st = world(&[(c(0, 0), Tile::floor()), (c(0, 1), Tile::floor())]);
    let mut corpse = Actor::new(Race::Rat, pos(0, 0, Direction::South));
    corpse.hp = 0;
    st.spawn(corpse);
    st.act(0, Action::Move(Angle::Forward));
    assert_eq!(actor_at(&st, 0).pos.coord, c(0, 0));
}

#[test]
fn next_level_carries_the_player() {
    let mut st = State::new();
    let pid = (st.actors_counter() - 1) as usize;
    // The player packs something and hears something before descending.
    if let Some(p) = st.actors[pid].as_mut() {
        p.backpack.push(Item::new('z', Slot::Body));
        p.heard.push((c(3, 3), NoiseType::Creature(Race::Rat)));
    }
    let next = st.next_level();
    assert_eq!(next.level, 1);
    assert_eq!(next.turn, st.turn);
    assert!(!next.descend);
    assert!(next.actors_dead.is_empty());
    let players: Vec<&Actor> = next
        .actors
        .iter()
        .filter_map(|a| a.as_ref())
        .filter(|a| a.player)
        .collect();
    assert_eq!(players.len(), 1);
    // The carried record keeps its load, stands at the start, and its
    // perception of the old level is void.
    assert_eq!(players[0].backpack, vec![Item::new('z', Slot::Body)]);
    assert_eq!(players[0].pos.coord, c(0, 0));
    assert!(players[0].heard.is_empty());
    assert_eq!(players[0].seen_light, 0);
}
