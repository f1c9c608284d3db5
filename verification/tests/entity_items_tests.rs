use dose_response::ai::{AIState, Behavior};
use dose_response::components::{
    AcceptsUserInput, Addiction, AttributeModifier, Attributes, Destination, Dose,
    ExplosionEffect, Position, Side, Turn, AI, ID,
};
use dose_response::entity_items::{blast, dose_system, interaction_system};
use dose_response::pathfinding::Grid;
use dose_response::point::point;
use dose_response::store::{ComponentManager, Entity};

fn pos(x: i32, y: i32) -> Position {
    Position { x, y }
}

fn addict(ecm: &mut ComponentManager, at: Position, will: i32) -> ID {
    let mut e = Entity::new();
    e.position = Some(at);
    e.accepts_user_input = Some(AcceptsUserInput);
    e.turn = Some(Turn::new(Side::Player, 1, 1));
    e.attributes = Some(Attributes { state_of_mind: 50, will });
    e.addiction = Some(Addiction { tolerance: 5, drop_per_turn: 1, last_turn: 0 });
    e.destination = Some(Destination { x: at.x, y: at.y - 1 });
    ecm.add_entity(e)
}

fn dose(ecm: &mut ComponentManager, at: Position, resist_radius: i32) -> ID {
    let mut e = Entity::new();
    e.position = Some(at);
    e.dose = Some(Dose { tolerance_modifier: 2, resist_radius });
    e.attribute_modifier = Some(AttributeModifier { state_of_mind: 40, will: 0 });
    e.explosion_effect = Some(ExplosionEffect { radius: 2 });
    ecm.add_entity(e)
}

fn monster(ecm: &mut ComponentManager, at: Position) -> ID {
    let mut e = Entity::new();
    e.position = Some(at);
    e.turn = Some(Turn::new(Side::Computer, 1, 1));
    e.ai = Some(AI { behaviour: Behavior::LoneAttacker, state: AIState::Idle });
    ecm.add_entity(e)
}

#[test]
fn the_nearest_dose_that_pulls_becomes_the_destination() {
    let grid = Grid::new(point(-10, -10), 21, 21, true);
    let mut ecm = ComponentManager::new();
    let player = addict(&mut ecm, pos(0, 0), 1);
    // Three steps away with a pull of 3 - 1 = 2: out of reach.
    let weak = dose(&mut ecm, pos(3, 0), 3);
    dose_system(player, &mut ecm, &grid);
    assert_eq!(ecm.components(player).destination, Some(Destination { x: 0, y: -1 }));
    // Three steps away with a pull of 4 - 1 = 3: it draws.
    let strong = dose(&mut ecm, pos(-3, 3), 4);
    dose_system(player, &mut ecm, &grid);
    assert_eq!(ecm.components(player).destination, Some(Destination { x: -3, y: 3 }));
    // A nearer one that pulls wins; of two equally near the one in the
    // earlier row.
    let near = dose(&mut ecm, pos(1, 1), 3);
    let also = dose(&mut ecm, pos(0, -1), 3);
    dose_system(player, &mut ecm, &grid);
    assert_eq!(ecm.components(player).destination, Some(Destination { x: 0, y: -1 }));
    ecm.remove_entity(also);
    dose_system(player, &mut ecm, &grid);
    assert_eq!(ecm.components(player).destination, Some(Destination { x: 1, y: 1 }));
    // A dose beyond the search radius does not count, whatever its pull.
    ecm.remove_entity(near);
    ecm.remove_entity(strong);
    ecm.remove_entity(weak);
    dose(&mut ecm, pos(4, 0), 100);
    let mut e = ecm.components(player);
    e.destination = Some(Destination { x: 9, y: 9 });
    ecm.set_components(player, e);
    dose_system(player, &mut ecm, &grid);
    assert_eq!(ecm.components(player).destination, Some(Destination { x: 9, y: 9 }));
}

#[test]
fn a_dose_behind_trees_pulls_only_along_the_way() {
    let mut grid = Grid::new(point(-10, -10), 21, 21, true);
    for y in -10..=1 {
        grid.set_walkable(point(1, y), false);
    }
    let mut ecm = ComponentManager::new();
    let player = addict(&mut ecm, pos(0, 0), 0);
    // Two steps as the crow flies, four around the trees.
    let hidden = dose(&mut ecm, pos(2, 0), 3);
    dose_system(player, &mut ecm, &grid);
    assert_eq!(ecm.components(player).destination, Some(Destination { x: 0, y: -1 }));
    let mut e = ecm.components(hidden);
    e.dose = Some(Dose { tolerance_modifier: 2, resist_radius: 4 });
    ecm.set_components(hidden, e);
    dose_system(player, &mut ecm, &grid);
    assert_eq!(ecm.components(player).destination, Some(Destination { x: 2, y: 0 }));
    // Walled in, it pulls nobody.
    for p in [point(2, 1), point(3, 1), point(3, 0), point(3, -1), point(2, -1)] {
        grid.set_walkable(p, false);
    }
    let mut e = ecm.components(player);
    e.destination = Some(Destination { x: 0, y: 5 });
    ecm.set_components(player, e);
    dose_system(player, &mut ecm, &grid);
    assert_eq!(ecm.components(player).destination, Some(Destination { x: 0, y: 5 }));
}

#[test]
fn who_is_not_on_their_way_is_not_drawn_and_forgets_their_path() {
    let grid = Grid::new(point(-10, -10), 21, 21, true);
    let mut ecm = ComponentManager::new();
    let player = addict(&mut ecm, pos(0, 0), 0);
    dose(&mut ecm, pos(1, 0), 3);
    let mut e = ecm.components(player);
    e.destination = None;
    ecm.set_components(player, e);
    ecm.set_path(player, vec![point(1, 0)]);
    dose_system(player, &mut ecm, &grid);
    assert_eq!(ecm.components(player).destination, None);
    assert!(!ecm.has_path(player));
    // Who is no addict is left alone, path and all.
    let sober = monster(&mut ecm, pos(0, 1));
    ecm.set_path(sober, vec![point(1, 1)]);
    dose_system(sober, &mut ecm, &grid);
    dose_system(ID(50), &mut ecm, &grid);
    assert!(ecm.has_path(sober));
    assert_eq!(ecm.components(sober).destination, None);
}

#[test]
fn a_blast_kills_who_decides_for_itself() {
    let mut ecm = ComponentManager::new();
    let player = addict(&mut ecm, pos(0, 0), 0);
    let near = monster(&mut ecm, pos(2, -2));
    let far = monster(&mut ecm, pos(3, 0));
    let thing = dose(&mut ecm, pos(1, 1), 0);
    blast(&mut ecm, pos(0, 0), 2);
    assert_eq!(ecm.components(near).position, None);
    assert_eq!(ecm.components(near).ai, None);
    assert!(ecm.components(near).turn.is_none());
    assert!(ecm.entities_on_pos(pos(2, -2)).is_empty());
    assert_eq!(ecm.components(far).position, Some(pos(3, 0)));
    assert_eq!(ecm.components(player).position, Some(pos(0, 0)));
    assert_eq!(ecm.components(thing).position, Some(pos(1, 1)));
    blast(&mut ecm, pos(0, 0), -1);
    assert_eq!(ecm.components(far).position, Some(pos(3, 0)));
    blast(&mut ecm, pos(3, 0), 0);
    assert_eq!(ecm.components(far).position, None);
    // Who is left on a tile stands there in the order in which they came.
    let first = dose(&mut ecm, pos(5, 5), 0);
    let doomed = monster(&mut ecm, pos(5, 5));
    let second = dose(&mut ecm, pos(5, 5), 0);
    let also = monster(&mut ecm, pos(5, 5));
    let third = dose(&mut ecm, pos(5, 5), 0);
    assert_eq!(ecm.entities_on_pos(pos(5, 5)), vec![first, doomed, second, also, third]);
    blast(&mut ecm, pos(6, 6), 1);
    assert_eq!(ecm.entities_on_pos(pos(5, 5)), vec![first, second, third]);
}

#[test]
fn what_lies_under_the_player_is_used() {
    let mut ecm = ComponentManager::new();
    let player = addict(&mut ecm, pos(0, 0), 2);
    let near = monster(&mut ecm, pos(-2, 1));
    let far = monster(&mut ecm, pos(0, 3));
    let first = dose(&mut ecm, pos(0, 0), 3);
    let mut food = Entity::new();
    food.position = Some(pos(0, 0));
    food.attribute_modifier = Some(AttributeModifier { state_of_mind: 10, will: 1 });
    let food = ecm.add_entity(food);
    let elsewhere = dose(&mut ecm, pos(1, 0), 3);
    interaction_system(player, &mut ecm);
    let after = ecm.components(player);
    // The dose: 50 + 40 - 5, and the tolerance grows by 2. The food: + 10.
    assert_eq!(after.attributes, Some(Attributes { state_of_mind: 95, will: 3 }));
    assert_eq!(after.addiction, Some(Addiction { tolerance: 7, drop_per_turn: 1, last_turn: 0 }));
    assert_eq!(after.position, Some(pos(0, 0)));
    assert_eq!(ecm.components(first).position, None);
    assert_eq!(ecm.components(food).position, None);
    assert_eq!(ecm.components(elsewhere).position, Some(pos(1, 0)));
    assert_eq!(ecm.entities_on_pos(pos(0, 0)), vec![player]);
    // The blast of the dose killed the monster within two steps.
    assert_eq!(ecm.components(near).position, None);
    assert_eq!(ecm.components(far).position, Some(pos(0, 3)));
    // A monster uses nothing.
    let mut e = ecm.components(far);
    e.attributes = Some(Attributes { state_of_mind: 1, will: 1 });
    ecm.set_components(far, e);
    let thing = dose(&mut ecm, pos(0, 3), 3);
    interaction_system(far, &mut ecm);
    interaction_system(ID(77), &mut ecm);
    assert_eq!(ecm.components(thing).position, Some(pos(0, 3)));
    assert_eq!(ecm.components(far).attributes, Some(Attributes { state_of_mind: 1, will: 1 }));
    // What is added stays within what a component can hold.
    let mut e = ecm.components(player);
    e.attributes = Some(Attributes { state_of_mind: i32::MAX - 3, will: i32::MAX });
    e.addiction = None;
    ecm.set_components(player, e);
    let mut more = Entity::new();
    more.position = Some(pos(0, 0));
    more.attribute_modifier = Some(AttributeModifier { state_of_mind: 10, will: 1 });
    ecm.add_entity(more);
    interaction_system(player, &mut ecm);
    assert_eq!(
        ecm.components(player).attributes,
        Some(Attributes { state_of_mind: i32::MAX, will: i32::MAX })
    );
}
