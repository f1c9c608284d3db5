use dose_response::ai::{AIState, Behavior};
use dose_response::components::{
    AcceptsUserInput, Addiction, AnxietyKillCounter, AttackTarget, AttackType, AttributeModifier,
    Attributes, Bump, Destination, Monster, MonsterKind, Panicking, Position, Side, Solid,
    Stunned, Turn, AI, ID,
};
use dose_response::pathfinding::Grid;
use dose_response::point::point;
use dose_response::replay::Command;
use dose_response::store::{ComponentManager, Entity};
use dose_response::systems::{
    addiction_system, bump_system, combat_system, distance, effect_duration_system, input_system,
    kill_entity, movement_system, path_system, player_dead_system, solid_entity_on, will_system,
};
use std::collections::VecDeque;

fn pos(x: i32, y: i32) -> Position {
    Position { x, y }
}

fn walker(ecm: &mut ComponentManager, side: Side, at: Position, ap: i32) -> ID {
    let mut e = Entity::new();
    e.position = Some(at);
    e.turn = Some(Turn::new(side, ap, ap));
    ecm.add_entity(e)
}

fn go(ecm: &mut ComponentManager, id: ID, to: Position) {
    let mut e = ecm.components(id);
    e.destination = Some(Destination { x: to.x, y: to.y });
    ecm.set_components(id, e);
}

fn open_grid() -> Grid {
    Grid::new(point(-10, -10), 21, 21, true)
}

#[test]
fn distance_is_counted_in_tile_steps() {
    assert_eq!(distance(&pos(0, 0), &pos(0, 0)), 0);
    assert_eq!(distance(&pos(0, 0), &pos(3, -4)), 4);
    assert_eq!(distance(&pos(-3, -3), &pos(10, 10)), 13);
    assert_eq!(distance(&pos(i32::MIN, 0), &pos(i32::MAX, 0)), u32::MAX);
}

#[test]
fn input_becomes_the_destination_of_the_steered_entity() {
    let mut ecm = ComponentManager::new();
    let player = walker(&mut ecm, Side::Player, pos(5, 5), 1);
    let mut e = ecm.components(player);
    e.accepts_user_input = Some(AcceptsUserInput);
    ecm.set_components(player, e);
    let monster = walker(&mut ecm, Side::Computer, pos(0, 0), 1);
    let mut commands = VecDeque::from(vec![Command::NW, Command::UseFood, Command::S]);
    let mut log = Vec::new();
    input_system(monster, &mut ecm, &mut commands, &mut log, Side::Player);
    input_system(player, &mut ecm, &mut commands, &mut log, Side::Computer);
    input_system(ID(42), &mut ecm, &mut commands, &mut log, Side::Player);
    assert_eq!((commands.len(), log.len()), (3, 0));
    input_system(player, &mut ecm, &mut commands, &mut log, Side::Player);
    assert_eq!(ecm.components(player).destination, Some(Destination { x: 4, y: 4 }));
    assert_eq!(commands, vec![Command::UseFood, Command::S]);
    assert_eq!(log, b"NW\n".to_vec());
    // A command that is no step is logged and changes no destination.
    input_system(player, &mut ecm, &mut commands, &mut log, Side::Player);
    assert_eq!(ecm.components(player).destination, Some(Destination { x: 4, y: 4 }));
    assert_eq!(log, b"NW\nUseFood\n".to_vec());
    input_system(player, &mut ecm, &mut commands, &mut log, Side::Player);
    assert_eq!(ecm.components(player).destination, Some(Destination { x: 5, y: 6 }));
    input_system(player, &mut ecm, &mut commands, &mut log, Side::Player);
    assert_eq!(log, b"NW\nUseFood\nS\n".to_vec());
}

#[test]
fn a_step_to_a_free_neighbour_moves_the_entity_and_the_index() {
    let mut ecm = ComponentManager::new();
    let grid = open_grid();
    let e = walker(&mut ecm, Side::Player, pos(0, 0), 2);
    go(&mut ecm, e, pos(1, 1));
    movement_system(e, &mut ecm, &grid);
    let after = ecm.components(e);
    assert_eq!(after.position, Some(pos(1, 1)));
    assert_eq!(after.destination, None);
    assert_eq!((after.turn.unwrap().ap(), after.turn.unwrap().spent_this_tick()), (1, 1));
    assert_eq!(ecm.entities_on_pos(pos(1, 1)), vec![e]);
    assert!(ecm.entities_on_pos(pos(0, 0)).is_empty());
    // Nowhere to go: nothing happens.
    movement_system(e, &mut ecm, &grid);
    assert_eq!(ecm.components(e).turn.unwrap().ap(), 1);
}

#[test]
fn waiting_costs_a_point() {
    let mut ecm = ComponentManager::new();
    let e = walker(&mut ecm, Side::Player, pos(0, 0), 1);
    go(&mut ecm, e, pos(0, 0));
    movement_system(e, &mut ecm, &open_grid());
    let after = ecm.components(e);
    assert_eq!((after.position, after.destination, after.turn.unwrap().ap()), (Some(pos(0, 0)), None, 0));
    // Out of points, the entity does not move.
    go(&mut ecm, e, pos(1, 0));
    movement_system(e, &mut ecm, &open_grid());
    assert_eq!(ecm.components(e).position, Some(pos(0, 0)));
    assert!(ecm.components(e).destination.is_some());
}

#[test]
fn a_blocked_step_is_a_bump_or_nothing() {
    let mut ecm = ComponentManager::new();
    let mut grid = open_grid();
    grid.set_walkable(point(0, 1), false);
    let e = walker(&mut ecm, Side::Player, pos(0, 0), 1);
    let rock = walker(&mut ecm, Side::Computer, pos(1, 0), 1);
    let mut r = ecm.components(rock);
    r.solid = Some(Solid);
    ecm.set_components(rock, r);
    let ghost = walker(&mut ecm, Side::Computer, pos(-1, 0), 1);
    assert_eq!(solid_entity_on(&ecm, pos(1, 0)), Some(rock));
    assert_eq!(solid_entity_on(&ecm, pos(-1, 0)), None);
    go(&mut ecm, e, pos(1, 0));
    movement_system(e, &mut ecm, &grid);
    let after = ecm.components(e);
    assert_eq!(after.bump, Some(Bump(rock)));
    assert_eq!((after.position, after.destination, after.turn.unwrap().ap()), (Some(pos(0, 0)), None, 1));
    // A tile that cannot be walked on stops the entity at no cost.
    go(&mut ecm, e, pos(0, 1));
    movement_system(e, &mut ecm, &grid);
    assert_eq!(ecm.components(e).position, Some(pos(0, 0)));
    assert_eq!(ecm.components(e).turn.unwrap().ap(), 1);
    // An entity that is not solid is walked through.
    go(&mut ecm, e, pos(-1, 0));
    movement_system(e, &mut ecm, &grid);
    assert_eq!(ecm.components(e).position, Some(pos(-1, 0)));
    let mut here = ecm.entities_on_pos(pos(-1, 0));
    here.sort_by_key(|id| id.0);
    assert_eq!(here, vec![e, ghost]);
}

#[test]
fn a_far_destination_is_approached_along_a_shortest_way() {
    let mut ecm = ComponentManager::new();
    let mut grid = open_grid();
    for y in -10..=10 {
        if y != -2 {
            grid.set_walkable(point(1, y), false);
        }
    }
    let e = walker(&mut ecm, Side::Computer, pos(0, 0), 10);
    go(&mut ecm, e, pos(2, 0));
    let mut steps = 0;
    while ecm.components(e).position != Some(pos(2, 0)) {
        movement_system(e, &mut ecm, &grid);
        steps += 1;
        assert!(steps <= 10);
    }
    assert_eq!(steps, 4);
    // Behind a wall without a gap there is no way: the entity waits.
    grid.set_walkable(point(1, -2), false);
    go(&mut ecm, e, pos(0, 0));
    let ap = ecm.components(e).turn.unwrap().ap();
    movement_system(e, &mut ecm, &grid);
    let after = ecm.components(e);
    assert_eq!((after.position, after.destination, after.turn.unwrap().ap()), (Some(pos(2, 0)), None, ap - 1));
}

#[test]
fn a_bump_into_the_other_side_becomes_an_attack() {
    let mut ecm = ComponentManager::new();
    let player = walker(&mut ecm, Side::Player, pos(0, 0), 1);
    let monster = walker(&mut ecm, Side::Computer, pos(1, 0), 1);
    let friend = walker(&mut ecm, Side::Player, pos(0, 1), 1);
    let wall = ecm.new_entity();
    for (bumpee, target) in [(monster, Some(AttackTarget(monster))), (friend, None), (wall, None)] {
        let mut e = ecm.components(player);
        e.bump = Some(Bump(bumpee));
        e.attack_target = None;
        ecm.set_components(player, e);
        bump_system(player, &mut ecm);
        let after = ecm.components(player);
        assert_eq!((after.bump, after.attack_target), (None, target));
    }
    // Without a bump nothing happens.
    bump_system(player, &mut ecm);
    assert_eq!(ecm.components(player).attack_target, None);
}

fn attacker(ecm: &mut ComponentManager, attack: AttackType, target: ID) -> ID {
    let id = walker(ecm, Side::Computer, pos(1, 0), 1);
    let mut e = ecm.components(id);
    e.attack_type = Some(attack);
    e.attack_target = Some(AttackTarget(target));
    e.ai = Some(AI { behaviour: Behavior::LoneAttacker, state: AIState::Chasing });
    ecm.set_components(id, e);
    id
}

#[test]
fn a_kill_kills_the_target_and_counts_anxieties() {
    let mut ecm = ComponentManager::new();
    let victim = walker(&mut ecm, Side::Player, pos(0, 0), 1);
    let mut v = ecm.components(victim);
    v.monster = Some(Monster { kind: MonsterKind::Anxiety });
    ecm.set_components(victim, v);
    let killer = attacker(&mut ecm, AttackType::Kill, victim);
    let mut k = ecm.components(killer);
    k.anxiety_kill_counter = Some(AnxietyKillCounter { count: 2, threshold: 10 });
    ecm.set_components(killer, k);
    combat_system(killer, &mut ecm, 5);
    let dead = ecm.components(victim);
    assert_eq!((dead.position, dead.turn.is_none(), dead.ai), (None, true, None));
    assert!(ecm.entities_on_pos(pos(0, 0)).is_empty());
    let after = ecm.components(killer);
    assert_eq!(after.attack_target, None);
    assert_eq!(after.turn.unwrap().ap(), 0);
    assert_eq!(after.anxiety_kill_counter, Some(AnxietyKillCounter { count: 3, threshold: 10 }));
    assert_eq!(after.position, Some(pos(1, 0)));
}

#[test]
fn a_stun_and_a_panic_cost_the_attacker_its_life() {
    let mut ecm = ComponentManager::new();
    let victim = walker(&mut ecm, Side::Player, pos(0, 0), 1);
    let voices = attacker(&mut ecm, AttackType::Stun { duration: 3 }, victim);
    combat_system(voices, &mut ecm, 10);
    assert_eq!(ecm.components(victim).stunned, Some(Stunned { turn: 10, duration: 3 }));
    assert_eq!(ecm.components(voices).position, None);
    assert!(ecm.components(voices).turn.is_none());
    assert!(ecm.entities_on_pos(pos(1, 0)).is_empty());
    let more = attacker(&mut ecm, AttackType::Stun { duration: 4 }, victim);
    combat_system(more, &mut ecm, 12);
    assert_eq!(ecm.components(victim).stunned, Some(Stunned { turn: 10, duration: 7 }));
    let shadows = attacker(&mut ecm, AttackType::Panic { duration: 2 }, victim);
    combat_system(shadows, &mut ecm, 12);
    assert_eq!(ecm.components(victim).panicking, Some(Panicking { turn: 12, duration: 2 }));
    assert_eq!(ecm.components(victim).position, Some(pos(0, 0)));
}

#[test]
fn an_attack_on_the_attributes_changes_them() {
    let mut ecm = ComponentManager::new();
    let victim = walker(&mut ecm, Side::Player, pos(0, 0), 1);
    let mut v = ecm.components(victim);
    v.attributes = Some(Attributes { state_of_mind: 50, will: 2 });
    ecm.set_components(victim, v);
    let hunger = attacker(&mut ecm, AttackType::ModifyAttributes, victim);
    let mut h = ecm.components(hunger);
    h.attribute_modifier = Some(AttributeModifier { state_of_mind: -20, will: 0 });
    ecm.set_components(hunger, h);
    combat_system(hunger, &mut ecm, 1);
    assert_eq!(ecm.components(victim).attributes, Some(Attributes { state_of_mind: 30, will: 2 }));
    assert_eq!(ecm.components(hunger).turn.unwrap().ap(), 0);
    assert_eq!(ecm.components(hunger).position, Some(pos(1, 0)));
}

#[test]
fn an_attack_without_points_or_target_does_not_happen() {
    let mut ecm = ComponentManager::new();
    let victim = walker(&mut ecm, Side::Player, pos(0, 0), 1);
    let tired = attacker(&mut ecm, AttackType::Kill, victim);
    let t = ecm.components(tired).turn.unwrap().spend_ap(1);
    ecm.set_turn(tired, t);
    combat_system(tired, &mut ecm, 1);
    assert_eq!(ecm.components(victim).position, Some(pos(0, 0)));
    assert_eq!(ecm.components(tired).attack_target, Some(AttackTarget(victim)));
    let lost = attacker(&mut ecm, AttackType::Kill, ID(1000));
    combat_system(lost, &mut ecm, 1);
    assert_eq!(ecm.components(lost).turn.unwrap().ap(), 1);
    let selfish = attacker(&mut ecm, AttackType::Kill, ID(0));
    let mut e = ecm.components(selfish);
    e.attack_target = Some(AttackTarget(selfish));
    ecm.set_components(selfish, e);
    combat_system(selfish, &mut ecm, 1);
    assert_eq!(ecm.components(selfish).position, Some(pos(1, 0)));
    combat_system(ID(-5), &mut ecm, 1);
}

#[test]
fn killing_takes_an_entity_out_of_play_but_not_out_of_the_store() {
    let mut ecm = ComponentManager::new();
    let e = walker(&mut ecm, Side::Computer, pos(3, 3), 1);
    let mut c = ecm.components(e);
    c.ai = Some(AI { behaviour: Behavior::PackAttacker, state: AIState::Idle });
    c.solid = Some(Solid);
    ecm.set_components(e, c);
    kill_entity(e, &mut ecm);
    kill_entity(ID(50), &mut ecm);
    let dead = ecm.components(e);
    assert!(ecm.has_entity(e));
    assert_eq!((dead.ai, dead.position, dead.accepts_user_input), (None, None, None));
    assert!(dead.turn.is_none());
    assert!(dead.solid.is_some());
    assert!(ecm.entities_on_pos(pos(3, 3)).is_empty());
}

#[test]
fn effects_end_when_their_time_is_up() {
    let mut ecm = ComponentManager::new();
    let e = ecm.new_entity();
    let mut c = ecm.components(e);
    c.stunned = Some(Stunned { turn: 1, duration: 2 });
    c.panicking = Some(Panicking { turn: 1, duration: 5 });
    ecm.set_components(e, c);
    effect_duration_system(e, &mut ecm, 2);
    assert!(ecm.components(e).stunned.is_some());
    effect_duration_system(e, &mut ecm, 3);
    assert_eq!(ecm.components(e).stunned, None);
    assert!(ecm.components(e).panicking.is_some());
    effect_duration_system(e, &mut ecm, 6);
    assert_eq!(ecm.components(e).panicking, None);
    effect_duration_system(ID(9), &mut ecm, 6);
}

#[test]
fn addiction_wears_the_mind_down_once_a_turn() {
    let mut ecm = ComponentManager::new();
    let e = walker(&mut ecm, Side::Player, pos(0, 0), 1);
    let mut c = ecm.components(e);
    c.attributes = Some(Attributes { state_of_mind: 7, will: 2 });
    c.addiction = Some(Addiction { tolerance: 0, drop_per_turn: 3, last_turn: 0 });
    ecm.set_components(e, c);
    addiction_system(e, &mut ecm, 0);
    assert_eq!(ecm.components(e).attributes.unwrap().state_of_mind, 7);
    addiction_system(e, &mut ecm, 1);
    addiction_system(e, &mut ecm, 1);
    assert_eq!(ecm.components(e).attributes.unwrap().state_of_mind, 4);
    assert_eq!(ecm.components(e).addiction.unwrap().last_turn, 1);
    addiction_system(e, &mut ecm, 2);
    assert_eq!(ecm.components(e).attributes.unwrap().state_of_mind, 1);
    assert_eq!(ecm.components(e).position, Some(pos(0, 0)));
    addiction_system(e, &mut ecm, 3);
    assert_eq!(ecm.components(e).attributes.unwrap().state_of_mind, -2);
    assert_eq!(ecm.components(e).position, None);
    // An overdose kills as well.
    let high = walker(&mut ecm, Side::Player, pos(1, 1), 1);
    let mut c = ecm.components(high);
    c.attributes = Some(Attributes { state_of_mind: 100, will: 2 });
    c.addiction = Some(Addiction { tolerance: 0, drop_per_turn: 0, last_turn: 5 });
    ecm.set_components(high, c);
    addiction_system(high, &mut ecm, 5);
    assert_eq!(ecm.components(high).position, None);
}

#[test]
fn the_will_grows_with_defeated_anxieties_and_its_loss_kills() {
    let mut ecm = ComponentManager::new();
    let e = walker(&mut ecm, Side::Player, pos(0, 0), 1);
    let mut c = ecm.components(e);
    c.attributes = Some(Attributes { state_of_mind: 50, will: 1 });
    c.anxiety_kill_counter = Some(AnxietyKillCounter { count: 9, threshold: 10 });
    ecm.set_components(e, c);
    will_system(e, &mut ecm);
    assert_eq!(ecm.components(e).attributes.unwrap().will, 1);
    let mut c = ecm.components(e);
    c.anxiety_kill_counter = Some(AnxietyKillCounter { count: 10, threshold: 10 });
    ecm.set_components(e, c);
    will_system(e, &mut ecm);
    assert_eq!(ecm.components(e).attributes.unwrap().will, 2);
    assert_eq!(ecm.components(e).anxiety_kill_counter, Some(AnxietyKillCounter { count: 0, threshold: 10 }));
    let mut c = ecm.components(e);
    c.attributes = Some(Attributes { state_of_mind: 50, will: 0 });
    ecm.set_components(e, c);
    will_system(e, &mut ecm);
    assert_eq!(ecm.components(e).position, None);
    assert!(ecm.components(e).turn.is_none());
}

#[test]
fn monsters_stop_deciding_once_the_player_is_dead() {
    let mut ecm = ComponentManager::new();
    let player = walker(&mut ecm, Side::Player, pos(0, 0), 1);
    let monster = walker(&mut ecm, Side::Computer, pos(5, 5), 1);
    let mut m = ecm.components(monster);
    m.ai = Some(AI { behaviour: Behavior::LoneAttacker, state: AIState::Idle });
    ecm.set_components(monster, m);
    player_dead_system(monster, &mut ecm, player);
    assert!(ecm.components(monster).ai.is_some());
    kill_entity(player, &mut ecm);
    player_dead_system(monster, &mut ecm, player);
    player_dead_system(ID(33), &mut ecm, player);
    assert_eq!(ecm.components(monster).ai, None);
    assert_eq!(ecm.components(monster).position, Some(pos(5, 5)));
}

#[test]
fn a_destination_becomes_a_path() {
    let mut ecm = ComponentManager::new();
    let mut grid = open_grid();
    let e = walker(&mut ecm, Side::Computer, pos(0, 0), 1);
    go(&mut ecm, e, pos(3, 0));
    path_system(e, &mut ecm, &grid);
    assert_eq!(ecm.components(e).destination, None);
    let way = ecm.path(e).unwrap().waypoints;
    assert_eq!(way.len(), 3);
    assert_eq!(way[2], point(3, 0));
    assert_eq!(way[0].tile_distance(point(0, 0)), 1);
    assert_eq!(way[1].tile_distance(way[0]), 1);
    assert_eq!(way[2].tile_distance(way[1]), 1);
    assert_eq!(ecm.walk_one_step(e), Some(way[0]));
    // Without a way the old path is dropped.
    for y in -10..=10 {
        grid.set_walkable(point(2, y), false);
    }
    go(&mut ecm, e, pos(3, 0));
    path_system(e, &mut ecm, &grid);
    assert!(ecm.path(e).is_none());
    assert_eq!(ecm.components(e).destination, None);
    // No destination: nothing changes.
    ecm.set_path(e, vec![point(9, 9)]);
    path_system(e, &mut ecm, &grid);
    assert_eq!(ecm.path(e).unwrap().waypoints, vec![point(9, 9)]);
    path_system(ID(12), &mut ecm, &grid);
    // Where one stands already, the path has no steps.
    go(&mut ecm, e, pos(0, 0));
    path_system(e, &mut ecm, &grid);
    assert!(ecm.path(e).unwrap().waypoints.is_empty());
}
