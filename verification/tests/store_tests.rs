use dose_response::ai::{AIState, Behavior};
use dose_response::components::{
    Attributes, Destination, Monster, MonsterKind, PathComponent, Position, Side, Solid, Stunned,
    Panicking, Turn, AI, ID,
};
use dose_response::point::point;
use dose_response::store::{Component, ComponentManager, ComponentType, Entity};

fn pos(x: i32, y: i32) -> Position {
    Position { x, y }
}

/// What the index must hold for `p`, worked out from the components alone.
fn expected_at(ecm: &ComponentManager, p: Position) -> Vec<ID> {
    let mut found: Vec<ID> = ecm
        .iter()
        .into_iter()
        .filter(|id| ecm.get_position(*id) == Some(p))
        .collect();
    found.sort_by_key(|id| id.0);
    found
}

fn index_at(ecm: &ComponentManager, p: Position) -> Vec<ID> {
    let mut found = ecm.entities_on_pos(p);
    found.sort_by_key(|id| id.0);
    found
}

fn assert_index_consistent(ecm: &ComponentManager, places: &[Position]) {
    for p in places {
        assert_eq!(index_at(ecm, *p), expected_at(ecm, *p));
    }
}

#[test]
fn new_store_is_empty() {
    let ecm = ComponentManager::new();
    assert!(ecm.iter().is_empty());
    assert!(!ecm.has_entity(ID(0)));
    assert!(!ecm.has_entity(ID(-1)));
    assert!(ecm.entities_on_pos(pos(0, 0)).is_empty());
}

#[test]
fn new_entities_get_growing_identities_and_no_components() {
    let mut ecm = ComponentManager::new();
    let a = ecm.new_entity();
    let b = ecm.new_entity();
    let c = ecm.new_entity();
    assert_eq!((a, b, c), (ID(0), ID(1), ID(2)));
    assert_eq!(ecm.iter(), vec![a, b, c]);
    for id in [a, b, c] {
        assert!(ecm.has_entity(id));
        assert_eq!(ecm.get_position(id), None);
        assert!(ecm.get_turn(id).is_none());
        assert!(!ecm.has_component(id, ComponentType::Position));
        assert!(!ecm.has_component(id, ComponentType::Path));
    }
    assert!(!ecm.has_entity(ID(3)));
}

#[test]
fn index_follows_every_position_change() {
    let places = [pos(0, 0), pos(1, 0), pos(-5, 7), pos(i32::MAX, i32::MIN), pos(i32::MIN, i32::MAX)];
    let mut ecm = ComponentManager::new();
    let ids: Vec<ID> = (0..6).map(|_| ecm.new_entity()).collect();
    assert_index_consistent(&ecm, &places);
    // A fixed but jumbled run of sets and removes.
    let steps: [(usize, Option<usize>); 18] = [
        (0, Some(0)), (1, Some(0)), (2, Some(1)), (0, Some(1)), (3, Some(2)), (1, None),
        (4, Some(3)), (5, Some(4)), (0, Some(0)), (2, None), (2, None), (3, Some(0)),
        (4, Some(0)), (5, Some(0)), (0, None), (1, Some(4)), (5, Some(3)), (3, Some(2)),
    ];
    for (who, place) in steps {
        match place {
            Some(i) => ecm.set_position(ids[who], places[i]),
            None => ecm.remove_position(ids[who]),
        }
        assert_index_consistent(&ecm, &places);
    }
    assert_eq!(index_at(&ecm, places[0]), vec![ids[4]]);
    assert_eq!(index_at(&ecm, places[2]), vec![ids[3]]);
    assert_eq!(index_at(&ecm, places[3]), vec![ids[5]]);
    assert_eq!(index_at(&ecm, places[4]), vec![ids[1]]);
    assert!(index_at(&ecm, places[1]).is_empty());
}

#[test]
fn setting_a_position_twice_keeps_one_entry() {
    let mut ecm = ComponentManager::new();
    let e = ecm.new_entity();
    ecm.set_position(e, pos(3, 3));
    ecm.set_position(e, pos(3, 3));
    assert_eq!(ecm.entities_on_pos(pos(3, 3)), vec![e]);
    ecm.set_position(e, pos(4, 3));
    assert!(ecm.entities_on_pos(pos(3, 3)).is_empty());
    assert_eq!(ecm.entities_on_pos(pos(4, 3)), vec![e]);
    assert_eq!(ecm.get_position(e), Some(pos(4, 3)));
    assert!(ecm.has_position(e));
}

#[test]
fn several_entities_share_a_position() {
    let mut ecm = ComponentManager::new();
    let a = ecm.new_entity();
    let b = ecm.new_entity();
    ecm.set_position(a, pos(1, 1));
    ecm.set_position(b, pos(1, 1));
    assert_eq!(index_at(&ecm, pos(1, 1)), vec![a, b]);
    ecm.remove_position(a);
    assert_eq!(ecm.entities_on_pos(pos(1, 1)), vec![b]);
}

#[test]
fn add_entity_with_a_position_enters_the_index() {
    let mut ecm = ComponentManager::new();
    let mut bundle = Entity::new();
    bundle.position = Some(pos(2, -2));
    bundle.solid = Some(Solid);
    let id = ecm.add_entity(bundle);
    assert_eq!(ecm.entities_on_pos(pos(2, -2)), vec![id]);
    assert!(ecm.has_component(id, ComponentType::Solid));
    assert_eq!(ecm.components(id).position, Some(pos(2, -2)));
}

#[test]
fn removed_entity_is_gone_and_its_identity_is_not_reused() {
    let mut ecm = ComponentManager::new();
    let a = ecm.new_entity();
    let b = ecm.new_entity();
    ecm.set_position(a, pos(5, 5));
    ecm.set_position(b, pos(5, 5));
    ecm.remove_entity(a);
    assert!(!ecm.has_entity(a));
    assert!(ecm.has_entity(b));
    assert_eq!(ecm.entities_on_pos(pos(5, 5)), vec![b]);
    assert_eq!(ecm.iter(), vec![b]);
    let c = ecm.new_entity();
    assert_eq!(c, ID(2));
    assert!(!ecm.has_entity(a));
}

#[test]
fn take_out_hands_the_components_back() {
    let mut ecm = ComponentManager::new();
    let a = ecm.new_entity();
    ecm.set_position(a, pos(9, 9));
    ecm.set(a, Component::Attributes(Attributes { state_of_mind: 50, will: 2 }));
    ecm.set_path(a, vec![point(1, 1)]);
    let bundle = ecm.take_out(a);
    assert_eq!(bundle.position, Some(pos(9, 9)));
    assert_eq!(bundle.attributes, Some(Attributes { state_of_mind: 50, will: 2 }));
    assert!(!ecm.has_entity(a));
    assert!(ecm.entities_on_pos(pos(9, 9)).is_empty());
}

#[test]
fn remove_all_entities_starts_over_with_new_identities() {
    let mut ecm = ComponentManager::new();
    let a = ecm.new_entity();
    let b = ecm.new_entity();
    ecm.set_position(a, pos(0, 0));
    ecm.remove_all_entities();
    assert!(ecm.iter().is_empty());
    assert!(!ecm.has_entity(a));
    assert!(!ecm.has_entity(b));
    assert!(ecm.entities_on_pos(pos(0, 0)).is_empty());
    let c = ecm.new_entity();
    assert_eq!(c, ID(2));
    assert_eq!(ecm.index(c), 0);
    assert_eq!(ecm.iter(), vec![c]);
}

#[test]
fn generic_set_get_has_remove_work_for_every_kind() {
    let mut ecm = ComponentManager::new();
    let e = ecm.new_entity();
    let turn = Turn::new(Side::Computer, 1, 2);
    let components = vec![
        Component::AI(AI { behaviour: Behavior::PackAttacker, state: AIState::Idle }),
        Component::Destination(Destination { x: 1, y: 2 }),
        Component::Monster(Monster { kind: MonsterKind::Hunger }),
        Component::Stunned(Stunned { turn: 3, duration: 4 }),
        Component::Panicking(Panicking { turn: 5, duration: 6 }),
        Component::Position(Position { x: 7, y: 8 }),
        Component::Turn(turn),
        Component::Path(PathComponent { waypoints: vec![point(1, 2), point(3, 4)] }),
    ];
    let kinds = [
        ComponentType::AI,
        ComponentType::Destination,
        ComponentType::Monster,
        ComponentType::Stunned,
        ComponentType::Panicking,
        ComponentType::Position,
        ComponentType::Turn,
        ComponentType::Path,
    ];
    for c in components {
        ecm.set(e, c);
    }
    for kind in kinds {
        assert!(ecm.has_component(e, kind));
        assert!(ecm.get(e, kind).is_some());
    }
    assert!(!ecm.has_component(e, ComponentType::Solid));
    assert!(ecm.get(e, ComponentType::Solid).is_none());
    assert_eq!(ecm.entities_on_pos(pos(7, 8)), vec![e]);
    match ecm.get(e, ComponentType::Path) {
        Some(Component::Path(p)) => assert_eq!(p.waypoints, vec![point(1, 2), point(3, 4)]),
        other => panic!("no path: {:?}", other),
    }
    match ecm.get(e, ComponentType::Turn) {
        Some(Component::Turn(t)) => assert_eq!(t, turn),
        other => panic!("no turn: {:?}", other),
    }
    for kind in kinds {
        ecm.remove(e, kind);
        assert!(!ecm.has_component(e, kind));
    }
    assert!(ecm.entities_on_pos(pos(7, 8)).is_empty());
}

#[test]
fn a_path_is_walked_one_step_at_a_time() {
    let mut ecm = ComponentManager::new();
    let e = ecm.new_entity();
    assert_eq!(ecm.walk_one_step(e), None);
    ecm.set_path(e, vec![point(1, 0), point(2, 0), point(3, 1)]);
    assert!(ecm.has_path(e));
    assert_eq!(ecm.walk_one_step(e), Some(point(1, 0)));
    assert_eq!(ecm.walk_one_step(e), Some(point(2, 0)));
    assert_eq!(ecm.path(e).unwrap().waypoints, vec![point(3, 1)]);
    assert_eq!(ecm.walk_one_step(e), Some(point(3, 1)));
    assert_eq!(ecm.walk_one_step(e), None);
    assert!(ecm.has_path(e));
    ecm.remove_path(e);
    assert!(!ecm.has_path(e));
}

#[test]
fn set_components_keeps_the_position() {
    let mut ecm = ComponentManager::new();
    let e = ecm.new_entity();
    ecm.set_position(e, pos(1, 2));
    let mut bundle = Entity::new();
    bundle.position = Some(pos(50, 50));
    bundle.solid = Some(Solid);
    ecm.set_components(e, bundle);
    assert_eq!(ecm.get_position(e), Some(pos(1, 2)));
    assert!(ecm.components(e).solid.is_some());
    assert_eq!(ecm.entities_on_pos(pos(1, 2)), vec![e]);
    assert!(ecm.entities_on_pos(pos(50, 50)).is_empty());
}

#[test]
fn who_comes_last_stands_last() {
    let here = pos(2, 3);
    let there = pos(-1, 0);
    let mut ecm = ComponentManager::new();
    let a = ecm.new_entity();
    let b = ecm.new_entity();
    let c = ecm.new_entity();
    ecm.set_position(a, here);
    ecm.set_position(b, here);
    ecm.set(c, Component::Position(here));
    assert_eq!(ecm.entities_on_pos(here), vec![a, b, c]);
    // Who leaves and comes back is the last to have come.
    ecm.set_position(a, there);
    assert_eq!(ecm.entities_on_pos(here), vec![b, c]);
    assert_eq!(ecm.entities_on_pos(there), vec![a]);
    ecm.set_position(a, here);
    assert_eq!(ecm.entities_on_pos(here), vec![b, c, a]);
    // So is who is put where they stand already.
    ecm.set_position(b, here);
    assert_eq!(ecm.entities_on_pos(here), vec![c, a, b]);
    ecm.remove(c, ComponentType::Position);
    assert_eq!(ecm.entities_on_pos(here), vec![a, b]);
    ecm.remove_entity(a);
    assert_eq!(ecm.entities_on_pos(here), vec![b]);
    assert!(ecm.entities_on_pos(there).is_empty());
}
