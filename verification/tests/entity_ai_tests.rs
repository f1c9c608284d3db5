use dose_response::ai::{AIState, Behavior};
use dose_response::components::{
    Bump, Destination, Panicking, Position, Side, Solid, Stunned, Turn, AI, ID,
};
use dose_response::entity_ai::{
    ai_process, follow_path_system, hunting_pack_behaviour, individual_behaviour,
    random_neighbouring_position,
};
use dose_response::pathfinding::Grid;
use dose_response::point::point;
use dose_response::random::Random;
use dose_response::store::{ComponentManager, Entity};

fn pos(x: i32, y: i32) -> Position {
    Position { x, y }
}

fn open_grid() -> Grid {
    Grid::new(point(-20, -20), 41, 41, true)
}

fn thinker(ecm: &mut ComponentManager, behaviour: Behavior, state: AIState, at: Position) -> ID {
    let mut e = Entity::new();
    e.position = Some(at);
    e.turn = Some(Turn::new(Side::Computer, 1, 1));
    e.ai = Some(AI { behaviour, state });
    ecm.add_entity(e)
}

fn state_of(ecm: &ComponentManager, id: ID) -> AIState {
    ecm.components(id).ai.unwrap().state
}

#[test]
fn a_random_neighbour_can_be_walked_on() {
    let mut grid = Grid::new(point(-2, -2), 5, 5, false);
    let mut rng = Random::from_seed(4);
    // Nowhere to go: the entity stays, and no number is drawn.
    assert_eq!(random_neighbouring_position(&mut rng, pos(0, 0), &grid), (0, 0));
    assert_eq!(rng, Random::from_seed(4));
    // One way out: that one, and one number is drawn.
    grid.set_walkable(point(1, -1), true);
    assert_eq!(random_neighbouring_position(&mut rng, pos(0, 0), &grid), (1, -1));
    assert_eq!(rng.drawn, 1);
    // More ways out: each is picked sooner or later, and nothing else.
    grid.set_walkable(point(-1, 0), true);
    grid.set_walkable(point(0, 1), true);
    grid.set_walkable(point(2, 2), true);
    let mut seen = Vec::new();
    for _ in 0..60 {
        let p = random_neighbouring_position(&mut rng, pos(0, 0), &grid);
        assert!([(1, -1), (-1, 0), (0, 1)].contains(&p));
        if !seen.contains(&p) {
            seen.push(p);
        }
    }
    assert_eq!(seen.len(), 3);
    // At the edge of the grid only the tiles inside count.
    let open = Grid::new(point(0, 0), 2, 2, true);
    for _ in 0..20 {
        let p = random_neighbouring_position(&mut rng, pos(0, 0), &open);
        assert!([(1, 0), (0, 1), (1, 1)].contains(&p));
    }
}

#[test]
fn an_entity_on_its_own_turns_on_the_player_and_calms_down() {
    let grid = open_grid();
    let mut rng = Random::from_seed(5);
    let mut ecm = ComponentManager::new();
    let id = thinker(&mut ecm, Behavior::LoneAttacker, AIState::Idle, pos(0, 0));
    // Four steps away: it turns on the player and heads for them.
    let dest = individual_behaviour(id, &mut ecm, &mut rng, &grid, pos(4, -2));
    assert_eq!(dest, Destination { x: 4, y: -2 });
    assert_eq!(state_of(&ecm, id), AIState::Chasing);
    assert_eq!(rng.drawn, 0);
    // Between five and eight steps it stays as it is.
    for far in [5, 8] {
        let dest = individual_behaviour(id, &mut ecm, &mut rng, &grid, pos(far, 0));
        assert_eq!(dest, Destination { x: far, y: 0 });
        assert_eq!(state_of(&ecm, id), AIState::Chasing);
    }
    // Nine steps away it calms down and wanders to a neighbouring tile.
    let dest = individual_behaviour(id, &mut ecm, &mut rng, &grid, pos(9, 0));
    assert_eq!(state_of(&ecm, id), AIState::Idle);
    assert_eq!(pos(dest.x, dest.y).to_point().tile_distance(point(0, 0)), 1);
    assert_eq!(rng.drawn, 1);
    // Five steps away an idle one stays idle.
    individual_behaviour(id, &mut ecm, &mut rng, &grid, pos(5, 5));
    assert_eq!(state_of(&ecm, id), AIState::Idle);
    assert_eq!(ecm.components(id).position, Some(pos(0, 0)));
    assert_eq!(ecm.components(id).destination, None);
}

#[test]
fn the_howl_of_a_pack_entity_sends_the_others_to_the_player() {
    let grid = open_grid();
    let mut rng = Random::from_seed(6);
    let mut ecm = ComponentManager::new();
    let howler = thinker(&mut ecm, Behavior::PackAttacker, AIState::Idle, pos(0, 0));
    let near = thinker(&mut ecm, Behavior::PackAttacker, AIState::Idle, pos(8, -8));
    let far = thinker(&mut ecm, Behavior::PackAttacker, AIState::Idle, pos(9, 0));
    let chasing = thinker(&mut ecm, Behavior::PackAttacker, AIState::Chasing, pos(1, 1));
    let loner = thinker(&mut ecm, Behavior::LoneAttacker, AIState::Idle, pos(2, 2));
    let mut rock = Entity::new();
    rock.position = Some(pos(1, 0));
    rock.solid = Some(Solid);
    let rock = ecm.add_entity(rock);
    // Four steps away the pack entity does not turn on the player yet.
    let dest = hunting_pack_behaviour(howler, &mut ecm, &mut rng, &grid, pos(4, 0));
    assert_eq!(state_of(&ecm, howler), AIState::Idle);
    assert_eq!(pos(dest.x, dest.y).to_point().tile_distance(point(0, 0)), 1);
    assert_eq!(state_of(&ecm, near), AIState::Idle);
    // Three steps away it does, and howls.
    let player = pos(3, 0);
    let dest = hunting_pack_behaviour(howler, &mut ecm, &mut rng, &grid, player);
    assert_eq!(dest, Destination { x: 3, y: 0 });
    assert_eq!(state_of(&ecm, howler), AIState::Chasing);
    assert_eq!(state_of(&ecm, near), AIState::CheckingOut(point(3, 0)));
    assert_eq!(state_of(&ecm, far), AIState::Idle);
    assert_eq!(state_of(&ecm, chasing), AIState::Chasing);
    assert_eq!(state_of(&ecm, loner), AIState::Idle);
    assert_eq!(ecm.components(rock).ai, None);
    // It does not howl again while it chases.
    let mut e = ecm.components(near);
    e.ai = Some(AI { behaviour: Behavior::PackAttacker, state: AIState::Idle });
    ecm.set_components(near, e);
    hunting_pack_behaviour(howler, &mut ecm, &mut rng, &grid, player);
    assert_eq!(state_of(&ecm, near), AIState::Idle);
    // Who was sent to check out a tile heads there.
    let dest = hunting_pack_behaviour(far, &mut ecm, &mut rng, &grid, pos(-10, -10));
    assert_eq!(state_of(&ecm, far), AIState::Idle);
    assert_eq!(pos(dest.x, dest.y).to_point().tile_distance(point(9, 0)), 1);
    let mut e = ecm.components(far);
    e.ai = Some(AI { behaviour: Behavior::PackAttacker, state: AIState::CheckingOut(point(7, 7)) });
    ecm.set_components(far, e);
    let dest = hunting_pack_behaviour(far, &mut ecm, &mut rng, &grid, pos(-10, -10));
    assert_eq!(dest, Destination { x: 7, y: 7 });
}

#[test]
fn what_an_entity_decides_becomes_its_destination() {
    let grid = open_grid();
    let mut rng = Random::from_seed(7);
    let mut ecm = ComponentManager::new();
    let mut p = Entity::new();
    p.position = Some(pos(0, 0));
    let player = ecm.add_entity(p);
    let nowhere = ecm.new_entity();
    let loner = thinker(&mut ecm, Behavior::LoneAttacker, AIState::Idle, pos(3, 3));
    let pack = thinker(&mut ecm, Behavior::PackAttacker, AIState::Idle, pos(-3, 2));
    let other = thinker(&mut ecm, Behavior::PackAttacker, AIState::Idle, pos(-6, 6));
    let friend = thinker(&mut ecm, Behavior::Friendly, AIState::Idle, pos(1, 1));
    // Not on the player's turn, not without a player who stands somewhere,
    // and not for what does not decide.
    ai_process(loner, &mut ecm, &mut rng, &grid, Side::Player, player);
    ai_process(loner, &mut ecm, &mut rng, &grid, Side::Computer, nowhere);
    ai_process(loner, &mut ecm, &mut rng, &grid, Side::Computer, ID(99));
    ai_process(player, &mut ecm, &mut rng, &grid, Side::Computer, player);
    ai_process(friend, &mut ecm, &mut rng, &grid, Side::Computer, player);
    ai_process(ID(-1), &mut ecm, &mut rng, &grid, Side::Computer, player);
    assert_eq!(ecm.components(loner).destination, None);
    assert_eq!(ecm.components(friend).destination, None);
    assert_eq!(state_of(&ecm, loner), AIState::Idle);
    assert_eq!(rng.drawn, 0);
    ai_process(loner, &mut ecm, &mut rng, &grid, Side::Computer, player);
    assert_eq!(ecm.components(loner).destination, Some(Destination { x: 0, y: 0 }));
    assert_eq!(state_of(&ecm, loner), AIState::Chasing);
    ai_process(pack, &mut ecm, &mut rng, &grid, Side::Computer, player);
    assert_eq!(ecm.components(pack).destination, Some(Destination { x: 0, y: 0 }));
    assert_eq!(state_of(&ecm, pack), AIState::Chasing);
    assert_eq!(state_of(&ecm, other), AIState::CheckingOut(point(0, 0)));
    ai_process(other, &mut ecm, &mut rng, &grid, Side::Computer, player);
    assert_eq!(ecm.components(other).destination, Some(Destination { x: 0, y: 0 }));
    assert_eq!(rng.drawn, 0);
}

#[test]
fn a_path_is_taken_step_by_step() {
    let mut grid = open_grid();
    let mut rng = Random::from_seed(8);
    let mut ecm = ComponentManager::new();
    let id = thinker(&mut ecm, Behavior::LoneAttacker, AIState::Idle, pos(0, 0));
    let mut e = ecm.components(id);
    e.turn = Some(Turn::new(Side::Computer, 5, 5));
    ecm.set_components(id, e);
    // Without a path nothing happens.
    follow_path_system(id, &mut ecm, &mut rng, &grid);
    follow_path_system(ID(44), &mut ecm, &mut rng, &grid);
    assert_eq!(ecm.components(id).turn.unwrap().ap(), 5);
    ecm.set_path(id, vec![point(1, 0), point(2, 0), point(3, 0), point(3, 0), point(4, 0)]);
    follow_path_system(id, &mut ecm, &mut rng, &grid);
    assert_eq!(ecm.components(id).position, Some(pos(1, 0)));
    assert_eq!(ecm.components(id).turn.unwrap().ap(), 4);
    assert_eq!(ecm.entities_on_pos(pos(1, 0)), vec![id]);
    assert!(ecm.entities_on_pos(pos(0, 0)).is_empty());
    // A tree is in the way: nothing happens, but the step is off the path.
    grid.set_walkable(point(2, 0), false);
    follow_path_system(id, &mut ecm, &mut rng, &grid);
    assert_eq!(ecm.components(id).position, Some(pos(1, 0)));
    assert_eq!(ecm.components(id).turn.unwrap().ap(), 4);
    assert_eq!(ecm.path(id).unwrap().waypoints, vec![point(3, 0), point(3, 0), point(4, 0)]);
    // Something solid is in the way: a bump, at no cost.
    grid.set_walkable(point(2, 0), true);
    ecm.set_position(id, pos(2, 0));
    let mut rock = Entity::new();
    rock.position = Some(pos(3, 0));
    rock.solid = Some(Solid);
    let rock = ecm.add_entity(rock);
    follow_path_system(id, &mut ecm, &mut rng, &grid);
    assert_eq!(ecm.components(id).bump, Some(Bump(rock)));
    assert_eq!(ecm.components(id).position, Some(pos(2, 0)));
    assert_eq!(ecm.components(id).turn.unwrap().ap(), 4);
    // Stunned, it waits, which costs a point.
    let mut e = ecm.components(id);
    e.bump = None;
    e.stunned = Some(Stunned { turn: 0, duration: 1 });
    ecm.set_components(id, e);
    follow_path_system(id, &mut ecm, &mut rng, &grid);
    assert_eq!(ecm.components(id).position, Some(pos(2, 0)));
    assert_eq!(ecm.components(id).turn.unwrap().ap(), 3);
    assert_eq!(rng.drawn, 0);
    // In panic it goes to a neighbouring tile.
    let mut e = ecm.components(id);
    e.stunned = None;
    e.panicking = Some(Panicking { turn: 0, duration: 1 });
    ecm.set_components(id, e);
    ecm.remove_entity(rock);
    follow_path_system(id, &mut ecm, &mut rng, &grid);
    let now = ecm.components(id).position.unwrap();
    assert_eq!(now.to_point().tile_distance(point(2, 0)), 1);
    assert_eq!(ecm.components(id).turn.unwrap().ap(), 2);
    assert_eq!(rng.drawn, 1);
    assert!(ecm.path(id).unwrap().waypoints.is_empty());
    // The path is at its end: nothing happens any more.
    follow_path_system(id, &mut ecm, &mut rng, &grid);
    assert_eq!(ecm.components(id).turn.unwrap().ap(), 2);
}
