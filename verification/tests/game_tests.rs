use dose_response::ai::Action;
use dose_response::components::Side;
use dose_response::game::{
    apply_player_action, command_action, exploration_radius, explode, kill_monster,
    overruled_action, pick_up_all, player_resist_radius, process_player, process_player_action,
    step, use_dose, use_item, walk, Explosion, GameState,
};
use dose_response::generators::TileKind;
use dose_response::horde::{monster_turn, process_monsters};
use dose_response::item::{Item, Kind, Modifier};
use dose_response::monster::{Kind as MonsterKind, Monster, Walkability};
use dose_response::player::{Mind, Player, SOBRIETY_COUNTER_MAX, WILL_MAX};
use dose_response::point::{point, Point};
use dose_response::random::Random;
use dose_response::ranged_int::RangedInt;
use dose_response::replay::{parse_replay, Command, ReplayError};
use dose_response::ways::{step_towards, walkability_grid};
use dose_response::world::World;
use std::collections::VecDeque;

const HALF: i32 = 1 << 30;

/// A world whose tiles around `centre` are open ground with nothing on them.
fn clearing(seed: u32, centre: Point, half: i32) -> World {
    let mut w = World::new(seed, HALF, point(0, 0));
    for y in centre.y - half..=centre.y + half {
        for x in centre.x - half..=centre.x + half {
            let p = point(x, y);
            w.set_tile(p, TileKind::Empty);
            w.remove_monster(p);
            while w.pickup_item(p).is_some() {}
        }
    }
    w
}

fn strong_willed(pos: Point) -> Player {
    let mut p = Player::new(pos);
    p.will = RangedInt::new(WILL_MAX, 0, WILL_MAX);
    p
}

#[test]
fn how_far_the_player_sees() {
    assert_eq!(exploration_radius(Mind::Withdrawal(RangedInt::new(0, 0, 15))), 4);
    assert_eq!(exploration_radius(Mind::Withdrawal(RangedInt::new(6, 0, 15))), 4);
    assert_eq!(exploration_radius(Mind::Withdrawal(RangedInt::new(7, 0, 15))), 5);
    assert_eq!(exploration_radius(Mind::Sober(RangedInt::new(0, 0, 20))), 6);
    assert_eq!(exploration_radius(Mind::Sober(RangedInt::new(20, 0, 20))), 6);
    assert_eq!(exploration_radius(Mind::High(RangedInt::new(39, 0, 80))), 7);
    assert_eq!(exploration_radius(Mind::High(RangedInt::new(40, 0, 80))), 8);
}

#[test]
fn how_far_a_dose_pulls() {
    assert_eq!(player_resist_radius(4, 1), 3);
    assert_eq!(player_resist_radius(2, 2), 0);
    assert_eq!(player_resist_radius(2, 5), 0);
    assert_eq!(player_resist_radius(0, -3), 3);
    assert_eq!(player_resist_radius(i32::MAX, i32::MIN), i32::MAX);
    assert_eq!(player_resist_radius(i32::MIN, i32::MAX), 0);
}

#[test]
fn commands_become_actions() {
    let at = point(10, 20);
    let steps = [
        (Command::N, (10, 19)), (Command::S, (10, 21)), (Command::W, (9, 20)), (Command::E, (11, 20)),
        (Command::NW, (9, 19)), (Command::NE, (11, 19)), (Command::SW, (9, 21)), (Command::SE, (11, 21)),
    ];
    for (command, (x, y)) in steps {
        assert_eq!(command_action(at, command), Action::Move(point(x, y)));
    }
    assert_eq!(command_action(at, Command::UseFood), Action::Use(Kind::Food));
    assert_eq!(command_action(at, Command::UseDose), Action::Use(Kind::Dose));
    assert_eq!(command_action(at, Command::UseStrongDose), Action::Use(Kind::StrongDose));
    assert_eq!(command_action(point(i32::MAX, 0), Command::E), Action::Move(point(i32::MAX, 0)));
    assert_eq!(command_action(point(0, i32::MIN), Command::NW), Action::Move(point(0, i32::MIN)));
}

#[test]
fn a_blast_kills_within_its_square() {
    let centre = point(50, -50);
    let mut w = clearing(1, centre, 8);
    let inside = [point(50, -50), point(53, -47), point(47, -53), point(50, -47)];
    let outside = [point(54, -50), point(50, -46), point(46, -54)];
    for p in inside.iter().chain(outside.iter()) {
        w.set_monster(Monster::new(MonsterKind::Anxiety, *p));
    }
    w.add_item(point(51, -50), Item::new(Kind::Food));
    assert_eq!(explode(centre, 3, &mut w), Explosion { center: centre, radius: 3 });
    for p in inside {
        assert_eq!(w.monster_on_pos(p), None);
    }
    for p in outside {
        assert!(w.monster_on_pos(p).is_some());
    }
    assert_eq!(w.items(point(51, -50)), vec![Item::new(Kind::Food)]);
    kill_monster(outside[0], &mut w);
    kill_monster(outside[0], &mut w);
    assert_eq!(w.monster_on_pos(outside[0]), None);
    explode(outside[1], 0, &mut w);
    assert_eq!(w.monster_on_pos(outside[1]), None);
    assert!(w.monster_on_pos(outside[2]).is_some());
}

#[test]
fn a_dose_works_on_the_mind_and_clears_the_ground() {
    let at = point(0, 100);
    let mut w = clearing(2, at, 8);
    w.set_monster(Monster::new(MonsterKind::Hunger, point(4, 104)));
    w.set_monster(Monster::new(MonsterKind::Hunger, point(5, 100)));
    w.set_monster(Monster::new(MonsterKind::Hunger, point(6, 106)));
    let mut p = Player::new(at);
    let blast = use_dose(&mut p, &mut w, Item::new(Kind::Dose));
    assert_eq!(blast, Explosion { center: at, radius: 4 });
    assert_eq!(p.mind.level(), 106);
    assert_eq!(w.monster_on_pos(point(4, 104)), None);
    assert!(w.monster_on_pos(point(5, 100)).is_some());
    let mut q = Player::new(at);
    q.tolerance = 100;
    let blast = use_dose(&mut q, &mut w, Item::new(Kind::StrongDose));
    assert_eq!(blast.radius, 6);
    assert_eq!(q.mind.level(), 66);
    assert_eq!(w.monster_on_pos(point(5, 100)), None);
    assert_eq!(w.monster_on_pos(point(6, 106)), None);
}

#[test]
fn walking_onto_open_ground_costs_a_point_and_picks_things_up() {
    let at = point(10, 10);
    let mut w = clearing(3, at, 8);
    w.add_item(point(11, 10), Item::new(Kind::Food));
    w.add_item(point(11, 10), Item::new(Kind::Dose));
    let mut p = strong_willed(at);
    assert_eq!(walk(&mut p, &mut w, point(11, 10)), None);
    assert_eq!((p.pos, p.ap()), (point(11, 10), 0));
    assert_eq!(p.inventory, vec![Item::new(Kind::Dose), Item::new(Kind::Food)]);
    assert!(w.items(point(11, 10)).is_empty());
}

#[test]
fn a_weak_will_takes_a_dose_on_the_spot() {
    let at = point(10, 10);
    let mut w = clearing(3, at, 8);
    w.add_item(point(10, 11), Item::new(Kind::Dose));
    w.add_item(point(10, 11), Item::new(Kind::Food));
    w.set_monster(Monster::new(MonsterKind::Voices, point(12, 13)));
    let mut p = Player::new(at);
    let blast = walk(&mut p, &mut w, point(10, 11));
    assert_eq!(blast, Some(Explosion { center: point(10, 11), radius: 4 }));
    assert_eq!(p.inventory, vec![Item::new(Kind::Food)]);
    assert!(p.mind.is_high());
    assert_eq!(w.monster_on_pos(point(12, 13)), None);
    let mut q = Player::new(at);
    w.add_item(at, Item::new(Kind::Food));
    assert_eq!(pick_up_all(&mut q, &mut w), None);
    assert_eq!(q.inventory.len(), 1);
}

#[test]
fn walking_into_a_tree_costs_nothing_and_into_a_monster_kills_it() {
    let at = point(10, 10);
    let mut w = clearing(4, at, 8);
    w.set_tile(point(9, 10), TileKind::Tree);
    w.set_monster(Monster::new(MonsterKind::Depression, point(10, 9)));
    let mut p = Player::new(at);
    assert_eq!(walk(&mut p, &mut w, point(9, 10)), None);
    assert_eq!((p.pos, p.ap()), (at, 1));
    assert_eq!(walk(&mut p, &mut w, point(10, 9)), None);
    assert_eq!((p.pos, p.ap()), (at, 0));
    assert_eq!(w.monster_on_pos(point(10, 9)), None);
    // The edge of the world stops the player too.
    let mut small = World::new(1, 5, point(0, 0));
    let mut q = Player::new(point(4, 0));
    small.set_tile(point(4, 0), TileKind::Empty);
    assert_eq!(walk(&mut q, &mut small, point(5, 0)), None);
    assert_eq!((q.pos, q.ap()), (point(4, 0), 1));
}

#[test]
fn seven_anxieties_make_the_will_grow() {
    let at = point(10, 10);
    let mut w = clearing(4, at, 3);
    let mut p = Player::new(at);
    for n in 1..=7 {
        w.set_monster(Monster::new(MonsterKind::Anxiety, point(11, 10)));
        p.new_turn();
        walk(&mut p, &mut w, point(11, 10));
        assert_eq!(p.will.value(), if n < 7 { 2 } else { 3 });
        assert_eq!(p.anxiety_counter.value(), if n < 7 { n } else { 0 });
    }
}

#[test]
fn using_what_one_carries() {
    let at = point(-10, -10);
    let mut w = clearing(5, at, 8);
    w.set_monster(Monster::new(MonsterKind::Hunger, point(-8, -12)));
    w.set_monster(Monster::new(MonsterKind::Hunger, point(-7, -10)));
    let mut p = Player::new(at);
    assert_eq!(use_item(&mut p, &mut w, Kind::Food), None);
    assert_eq!(p.ap(), 1);
    p.inventory = vec![Item::new(Kind::Dose), Item::new(Kind::Food), Item::new(Kind::Food)];
    p.mind = Mind::at_level(20);
    assert_eq!(apply_player_action(&mut p, &mut w, Action::Use(Kind::Food)), Some(Explosion { center: at, radius: 2 }));
    assert_eq!(p.inventory, vec![Item::new(Kind::Dose), Item::new(Kind::Food)]);
    assert_eq!((p.ap(), p.mind.level()), (0, 30));
    assert_eq!(w.monster_on_pos(point(-8, -12)), None);
    assert!(w.monster_on_pos(point(-7, -10)).is_some());
    p.new_turn();
    assert_eq!(use_item(&mut p, &mut w, Kind::Dose), Some(Explosion { center: at, radius: 4 }));
    assert_eq!(p.inventory, vec![Item::new(Kind::Food)]);
    assert_eq!(w.monster_on_pos(point(-7, -10)), None);
}

#[test]
fn what_overrules_the_players_wish() {
    let at = point(200, 200);
    let mut w = clearing(6, at, 12);
    let mut rng = Random::from_seed(6);
    let wanted = Action::Move(point(201, 200));
    let mut p = strong_willed(at);
    assert_eq!(overruled_action(&p, wanted, &mut w, &mut rng), wanted);
    p.take_effect(Modifier::Stun(2));
    assert_eq!(overruled_action(&p, wanted, &mut w, &mut rng), Action::Move(at));
    let mut p = strong_willed(at);
    p.take_effect(Modifier::Panic(2));
    match overruled_action(&p, wanted, &mut w, &mut rng) {
        Action::Move(dest) => assert_eq!(dest.tile_distance(at), 1),
        other => panic!("a panicking player does not {:?}", other),
    }
    assert_eq!(rng.drawn, 1);
    // A dose two steps away pulls a will of one, not a will of two.
    w.add_item(point(202, 202), Item::new(Kind::Dose));
    let mut weak = Player::new(at);
    weak.will = RangedInt::new(1, 0, WILL_MAX);
    assert_eq!(overruled_action(&weak, wanted, &mut w, &mut rng), wanted);
    weak.will = RangedInt::new(0, 0, WILL_MAX);
    assert_eq!(overruled_action(&weak, wanted, &mut w, &mut rng), Action::Move(point(201, 201)));
    // Whoever carries a dose and has lost their will takes it, the strong one first.
    weak.inventory = vec![Item::new(Kind::Food), Item::new(Kind::Dose)];
    assert_eq!(overruled_action(&weak, wanted, &mut w, &mut rng), Action::Use(Kind::Dose));
    weak.inventory.push(Item::new(Kind::StrongDose));
    assert_eq!(overruled_action(&weak, wanted, &mut w, &mut rng), Action::Use(Kind::StrongDose));
    let mut strong = strong_willed(at);
    strong.inventory = vec![Item::new(Kind::StrongDose)];
    assert_eq!(overruled_action(&strong, Action::Use(Kind::Food), &mut w, &mut rng), Action::Use(Kind::Food));
}

#[test]
fn a_snapshot_of_the_ground_and_a_step_across_it() {
    let at = point(0, 0);
    let mut w = clearing(7, at, 13);
    for y in -12..=12 {
        if y != 7 {
            w.set_tile(point(3, y), TileKind::Tree);
        }
    }
    w.set_monster(Monster::new(MonsterKind::Anxiety, point(3, 7)));
    let grid = walkability_grid(&mut w, at, 12, Walkability::WalkthroughMonsters);
    assert!(grid.is_walkable(point(3, 7)));
    assert!(!grid.is_walkable(point(3, 6)));
    assert!(grid.is_walkable(point(-12, 12)));
    assert!(!grid.is_walkable(point(13, 0)));
    let blocked = walkability_grid(&mut w, at, 12, Walkability::BlockingMonsters);
    assert!(!blocked.is_walkable(point(3, 7)));
    assert_eq!(step_towards(&mut w, at, point(6, 0), Walkability::BlockingMonsters, 100), None);
    let step = step_towards(&mut w, at, point(6, 0), Walkability::WalkthroughMonsters, 100).unwrap();
    assert_eq!(step.tile_distance(at), 1);
    assert!(step.y >= 0);
    assert_eq!(step_towards(&mut w, at, point(6, 0), Walkability::WalkthroughMonsters, 5), None);
    assert_eq!(step_towards(&mut w, at, at, Walkability::WalkthroughMonsters, 100), None);
    assert_eq!(step_towards(&mut w, at, point(1, 1), Walkability::WalkthroughMonsters, 1), Some(point(1, 1)));
}

#[test]
fn a_command_is_taken_logged_and_carried_out() {
    let at = point(0, 0);
    let mut w = clearing(8, at, 6);
    let mut p = strong_willed(at);
    let mut rng = Random::from_seed(8);
    let mut commands = VecDeque::from(vec![Command::SE, Command::N]);
    let mut log = b"8\n".to_vec();
    assert_eq!(process_player_action(&mut p, &mut commands, &mut w, &mut rng, &mut log), None);
    assert_eq!((p.pos, p.ap()), (point(1, 1), 0));
    assert_eq!(commands, vec![Command::N]);
    assert_eq!(log, b"8\nSE\n".to_vec());
    // Without an action point nothing happens.
    process_player_action(&mut p, &mut commands, &mut w, &mut rng, &mut log);
    assert_eq!((p.pos, commands.len(), log.len()), (point(1, 1), 1, 5));
    p.new_turn();
    process_player_action(&mut p, &mut commands, &mut w, &mut rng, &mut log);
    assert_eq!(p.pos, point(1, 0));
    assert_eq!(log, b"8\nSE\nN\n".to_vec());
    // Without a command nothing happens, and the dead do nothing.
    p.new_turn();
    process_player_action(&mut p, &mut commands, &mut w, &mut rng, &mut log);
    assert_eq!((p.pos, p.ap()), (point(1, 0), 1));
    commands.push_back(Command::S);
    p.take_effect(Modifier::Death);
    process_player_action(&mut p, &mut commands, &mut w, &mut rng, &mut log);
    assert_eq!((p.pos, commands.len(), log.len()), (point(1, 0), 1, 7));
}

#[test]
fn monsters_chase_attack_and_never_stand_on_the_player() {
    let at = point(0, 0);
    let mut w = clearing(9, at, 40);
    let mut p = Player::new(at);
    let mut rng = Random::from_seed(9);
    w.set_monster(Monster::new(MonsterKind::Depression, point(4, 0)));
    w.set_monster(Monster::new(MonsterKind::Anxiety, point(0, 1)));
    process_monsters(&mut w, &mut p, &mut rng);
    // The depression has two points: it is two steps nearer now.
    let around = w.monsters_around(at, 5);
    let depression = around.iter().find(|m| m.kind == MonsterKind::Depression).unwrap();
    assert_eq!(depression.position.tile_distance(at), 2);
    assert_eq!(depression.ap, 0);
    // The anxiety was next to the player: it attacked and stayed.
    assert_eq!(w.monster_on_pos(point(0, 1)).map(|m| m.kind), Some(MonsterKind::Anxiety));
    assert_eq!(p.will.value(), 1);
    assert_eq!(w.monster_on_pos(at), None);
    process_monsters(&mut w, &mut p, &mut rng);
    // Depression arrives next to the player and strikes with its second point.
    assert!(!p.alive());
    let before = w.monsters_around(at, 40);
    let rng_before = rng;
    process_monsters(&mut w, &mut p, &mut rng);
    assert_eq!(w.monsters_around(at, 40), before);
    assert_eq!(rng, rng_before);
}

#[test]
fn what_is_food_by_kind_is_handled_as_food() {
    let at = point(0, 0);
    let mut w = clearing(15, at, 20);
    let mut p = Player::new(at);
    assert!(!p.will.is_max());
    let odd = Item {
        kind: Kind::Food,
        modifier: Modifier::Intoxication { state_of_mind: 70, tolerance_increase: 1 },
        irresistible: 0,
    };
    w.add_item(point(1, 0), odd);
    w.set_monster(Monster::new(MonsterKind::Anxiety, point(4, 0)));
    // It is not taken on the spot, though the will is low.
    assert_eq!(walk(&mut p, &mut w, point(1, 0)), None);
    assert_eq!(p.inventory, vec![odd]);
    assert!(p.mind.is_sober());
    // Used, it works on the mind, and its blast is that of food.
    p.new_turn();
    let blast = use_item(&mut p, &mut w, Kind::Food);
    assert_eq!(blast, Some(Explosion { center: point(1, 0), radius: 2 }));
    assert!(p.inventory.is_empty());
    assert!(p.mind.is_high());
    assert!(w.monster_on_pos(point(4, 0)).is_some());
}

#[test]
fn the_step_towards_a_tile_is_the_first_in_order() {
    let at = point(0, 0);
    let mut w = clearing(14, at, 20);
    let walk = Walkability::BlockingMonsters;
    // East, north-east and south-east all begin a shortest way: east comes first.
    assert_eq!(step_towards(&mut w, at, point(2, 0), walk, 10), Some(point(1, 0)));
    // South comes before west and east.
    assert_eq!(step_towards(&mut w, at, point(0, 2), walk, 10), Some(point(0, 1)));
    assert_eq!(step_towards(&mut w, at, point(0, -2), walk, 10), Some(point(0, -1)));
    // Only the diagonal begins a shortest way to the corner.
    assert_eq!(step_towards(&mut w, at, point(2, 2), walk, 10), Some(point(1, 1)));
    // East and south-east both do: east comes first.
    assert_eq!(step_towards(&mut w, at, point(2, 1), walk, 10), Some(point(1, 0)));
    // North-west and west both do: west comes first.
    assert_eq!(step_towards(&mut w, at, point(-3, -1), walk, 10), Some(point(-1, 0)));
    // No step where the way is too long, and none to the tile itself.
    assert_eq!(step_towards(&mut w, at, point(5, 0), walk, 4), None);
    assert_eq!(step_towards(&mut w, at, at, walk, 10), None);
    // A tree in the way: the step goes around it.
    w.set_tile(point(1, 0), TileKind::Tree);
    assert_eq!(step_towards(&mut w, at, point(2, 0), walk, 10), Some(point(1, -1)));
}

#[test]
fn the_last_in_line_still_gets_all_its_actions() {
    let at = point(0, 0);
    let mut w = clearing(12, at, 40);
    let mut p = Player::new(at);
    let mut rng = Random::from_seed(12);
    // The anxiety stands in an earlier row, so it is first in line.
    w.set_monster(Monster::new(MonsterKind::Anxiety, point(0, -1)));
    w.set_monster(Monster::new(MonsterKind::Depression, point(4, 0)));
    process_monsters(&mut w, &mut p, &mut rng);
    let around = w.monsters_around(at, 5);
    let depression = around.iter().find(|m| m.kind == MonsterKind::Depression).unwrap();
    assert_eq!(depression.position.tile_distance(at), 2);
    assert_eq!(depression.ap, 0);
    let anxiety = around.iter().find(|m| m.kind == MonsterKind::Anxiety).unwrap();
    assert_eq!((anxiety.position, anxiety.ap), (point(0, -1), 0));
    assert_eq!(p.will.value(), 1);
}

#[test]
fn one_action_of_a_monster() {
    let at = point(0, 0);
    let mut w = clearing(13, at, 40);
    let mut p = Player::new(at);
    let mut rng = Random::from_seed(13);
    let mut depression = Monster::new(MonsterKind::Depression, point(4, 0));
    depression.new_turn();
    w.set_monster(depression);
    let moved = monster_turn(&mut w, &mut p, &mut rng, point(4, 0)).unwrap();
    assert_eq!(moved.position.tile_distance(point(4, 0)), 1);
    assert_eq!(moved.position.tile_distance(at), 3);
    assert_eq!(moved.ap, 1);
    assert_eq!(w.monster_on_pos(moved.position), Some(moved));
    assert_eq!(w.monster_on_pos(point(4, 0)), None);
    assert_eq!(rng, Random::from_seed(13));
    // Next to the player it strikes and stays.
    let mut anxiety = Monster::new(MonsterKind::Anxiety, point(1, 1));
    anxiety.new_turn();
    w.set_monster(anxiety);
    let stayed = monster_turn(&mut w, &mut p, &mut rng, point(1, 1)).unwrap();
    assert_eq!((stayed.position, stayed.ap), (point(1, 1), 0));
    assert_eq!(p.will.value(), 1);
}

#[test]
fn a_monster_that_dies_with_its_attack_is_gone() {
    let at = point(0, 0);
    let mut w = clearing(10, at, 40);
    let mut p = Player::new(at);
    let mut rng = Random::from_seed(10);
    w.set_monster(Monster::new(MonsterKind::Voices, point(-1, -1)));
    process_monsters(&mut w, &mut p, &mut rng);
    assert_eq!(p.stun.value(), 4);
    assert!(w.monsters_around(at, 40).is_empty());
}

#[test]
fn a_run_of_good_turns_wins_the_game() {
    let mut state = GameState::new(11, HALF, VecDeque::new(), false);
    state.world = clearing(11, point(0, 0), 6);
    state.player.will = RangedInt::new(WILL_MAX, 0, WILL_MAX);
    state.player.sobriety_counter = RangedInt::new(SOBRIETY_COUNTER_MAX - 2, 0, SOBRIETY_COUNTER_MAX);
    state.commands = VecDeque::from(vec![Command::E, Command::W, Command::E]);
    process_player(&mut state);
    assert_eq!(state.player.sobriety_counter.value(), SOBRIETY_COUNTER_MAX - 1);
    assert!(!state.scheduler.victory);
    // A turn without an action does not count, and does not break the run.
    process_player(&mut state);
    assert_eq!(state.player.sobriety_counter.value(), SOBRIETY_COUNTER_MAX - 1);
    state.player.new_turn();
    process_player(&mut state);
    assert!(state.scheduler.victory);
    assert_eq!(state.scheduler.side, Side::Player);
    let pos = state.player.pos;
    state.player.new_turn();
    step(&mut state);
    assert_eq!((state.player.pos, state.commands.len(), state.scheduler.turn), (pos, 1, 0));
}

#[test]
fn a_turn_that_is_not_good_breaks_the_run() {
    let mut state = GameState::new(11, HALF, VecDeque::from(vec![Command::E]), false);
    state.world = clearing(11, point(0, 0), 6);
    state.player.sobriety_counter = RangedInt::new(50, 0, SOBRIETY_COUNTER_MAX);
    process_player(&mut state);
    assert_eq!(state.player.pos, point(1, 0));
    assert_eq!(state.player.sobriety_counter.value(), 0);
    assert!(state.world.explored(point(1, 0)));
    assert!(state.world.explored(point(6, 0)));
    assert!(!state.world.explored(point(7, 0)));
}

/// What a game shows at the end of a step.
fn trace(state: &mut GameState) -> (Point, i32, i32, bool, bool, Vec<(Point, MonsterKind, i32)>, Random) {
    let monsters = state
        .world
        .monsters_around(state.player.pos, 20)
        .iter()
        .map(|m| (m.position, m.kind, m.ap))
        .collect();
    (
        state.player.pos,
        state.scheduler.turn,
        state.player.mind.level(),
        state.player.dead,
        state.scheduler.victory,
        monsters,
        state.rng,
    )
}

#[test]
fn a_game_begins_from_its_log_or_not_at_all() {
    let state = GameState::replay_game(&b"77\nN\nUseFood\nSE\n".to_vec(), HALF).unwrap();
    assert!(state.replay);
    assert_eq!(state.commands, vec![Command::N, Command::UseFood, Command::SE]);
    assert_eq!(state.world.seed(), 77);
    assert_eq!(state.rng, Random::from_seed(77));
    assert_eq!((state.scheduler.side, state.scheduler.turn), (Side::Player, 0));
    assert_eq!(state.player.pos, point(0, 0));
    assert_eq!(state.log, b"77\n".to_vec());
    let fresh = GameState::new(77, HALF, VecDeque::new(), false);
    assert_eq!(state.player.mind, fresh.player.mind);
    assert_eq!(state.world.spawn(), fresh.world.spawn());
    assert!(matches!(GameState::replay_game(&Vec::new(), HALF), Err(ReplayError::Empty)));
    assert!(matches!(
        GameState::replay_game(&b"seven\nN\n".to_vec(), HALF),
        Err(ReplayError::MalformedSeed)
    ));
    assert!(matches!(
        GameState::replay_game(&b"7\nN\nUp\n".to_vec(), HALF),
        Err(ReplayError::UnknownCommand(_))
    ));
}

#[test]
fn a_recorded_game_replays_step_for_step() {
    let commands = vec![
        Command::E, Command::E, Command::SE, Command::S, Command::UseFood, Command::W, Command::NW,
        Command::N, Command::N, Command::NE, Command::E, Command::UseDose, Command::SW, Command::S,
        Command::S, Command::E, Command::E, Command::E, Command::N, Command::UseStrongDose,
        Command::W, Command::W, Command::SW, Command::SE, Command::E, Command::NE, Command::N,
    ];
    for seed in [1u32, 77, 4096] {
        let mut first = GameState::new(seed, HALF, commands.clone().into(), false);
        let mut recorded = Vec::new();
        for _ in 0..commands.len() + 3 {
            step(&mut first);
            recorded.push(trace(&mut first));
        }
        assert!(first.commands.is_empty() || first.player.dead || first.scheduler.victory);
        assert!(recorded.last().unwrap().1 > 0);
        let replay = parse_replay(&first.log).expect("the log of a game is a replay");
        assert_eq!(replay.seed, seed);
        assert_eq!(replay.commands[..], commands[..replay.commands.len()]);
        let mut second = GameState::new(replay.seed, HALF, replay.commands.into(), true);
        for (n, expected) in recorded.iter().enumerate() {
            if second.commands.is_empty() && first.commands.len() > 0 {
                break;
            }
            step(&mut second);
            assert_eq!(&trace(&mut second), expected, "seed {} step {}", seed, n);
        }
    }
}

#[test]
fn a_new_game_starts_at_the_entry_with_the_seed_logged() {
    let state = GameState::new(123, 1000, VecDeque::from(vec![Command::N]), true);
    assert_eq!(state.log, b"123\n".to_vec());
    assert_eq!(state.player.pos, point(0, 0));
    assert_eq!(state.rng, Random { seed: 123, drawn: 0 });
    assert_eq!(state.commands, vec![Command::N]);
    assert_eq!((state.scheduler.side, state.scheduler.turn, state.scheduler.victory), (Side::Player, 0, false));
    assert_eq!(state.explosion, None);
    assert!(state.replay);
    assert_eq!(state.world.seed(), 123);
}
