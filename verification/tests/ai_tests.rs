use dose_response::ai::{
    chasing_action, decide, friendly_act, howl, idle_destination, lone_attacker_act, noop_act,
    noop_action, pack_attacker_act, AIState, Action, Behavior, PlayerInfo, Update,
    CHASING_DISTANCE, ESTRANGED_NPC_MAX_AP, HOWLING_DISTANCE,
};
use dose_response::generators::TileKind;
use dose_response::monster::{Damage, Kind, Monster, Walkability};
use dose_response::point::{point, Point};
use dose_response::random::Random;
use dose_response::world::World;

/// A world whose tiles around `centre` are open ground without monsters.
fn clearing(seed: u32, centre: Point, half: i32) -> World {
    let mut w = World::new(seed, 1 << 30, point(0, 0));
    for y in centre.y - half..=centre.y + half {
        for x in centre.x - half..=centre.x + half {
            w.set_tile(point(x, y), TileKind::Empty);
            w.remove_monster(point(x, y));
        }
    }
    w
}

fn info(pos: Point) -> PlayerInfo {
    PlayerInfo { pos, high: false, max_ap: 1 }
}

fn place(w: &mut World, kind: Kind, at: Point, state: AIState) -> Monster {
    let mut m = Monster::new(kind, at);
    m.ai_state = state;
    w.set_monster(m);
    m
}

#[test]
fn doing_nothing_is_moving_to_where_one_stands() {
    let mut m = Monster::new(Kind::Signpost, point(3, 4));
    m.max_ap = 5;
    assert_eq!(
        noop_action(&m),
        (Update { ai_state: AIState::NoOp, max_ap: 5 }, Action::Move(point(3, 4)))
    );
    let mut w = clearing(1, point(0, 0), 2);
    let mut rng = Random::from_seed(1);
    assert_eq!(noop_act(&m, info(point(0, 0)), &mut w, &mut rng), noop_action(&m));
    assert_eq!(decide(&m, info(point(3, 5)), &mut w, &mut rng), noop_action(&m));
    // A lone attacker that was told to do nothing does nothing, even next to the player.
    let mut stone = Monster::new(Kind::Anxiety, point(3, 4));
    stone.ai_state = AIState::NoOp;
    assert_eq!(lone_attacker_act(&stone, info(point(3, 5)), &mut w, &mut rng), noop_action(&stone));
    assert_eq!(pack_attacker_act(&stone, info(point(3, 5)), &mut w, &mut rng), noop_action(&stone));
    assert_eq!(friendly_act(&stone, info(point(3, 5)), &mut w, &mut rng), noop_action(&stone));
    assert_eq!(rng, Random::from_seed(1));
}

#[test]
fn an_adjacent_actor_attacks_and_a_distant_one_moves() {
    let m = Monster::new(Kind::Voices, point(10, 10));
    for target in [point(11, 11), point(9, 10), point(10, 9), point(11, 9)] {
        assert_eq!(chasing_action(&m, target), Action::Attack(target, Damage::Stun(4)));
    }
    assert_eq!(chasing_action(&m, point(12, 10)), Action::Move(point(12, 10)));
    assert_eq!(chasing_action(&m, point(10, 10)), Action::Move(point(10, 10)));
}

#[test]
fn a_lone_attacker_chases_within_range_and_idles_beyond() {
    let home = point(50, 50);
    let mut w = clearing(3, home, 12);
    let mut rng = Random::from_seed(3);
    let m = place(&mut w, Kind::Depression, home, AIState::Idle);
    let near = point(50 + CHASING_DISTANCE as i32, 50);
    let (update, action) = lone_attacker_act(&m, info(near), &mut w, &mut rng);
    assert_eq!(update, Update { ai_state: AIState::Chasing, max_ap: 2 });
    assert_eq!(action, Action::Move(near));
    assert_eq!(rng.drawn, 0);
    let next = point(51, 51);
    let (update, action) = lone_attacker_act(&m, info(next), &mut w, &mut rng);
    assert_eq!(update.ai_state, AIState::Chasing);
    assert_eq!(action, Action::Attack(next, Damage::Death));
    let far = point(50 + CHASING_DISTANCE as i32 + 1, 50);
    let (update, action) = lone_attacker_act(&m, info(far), &mut w, &mut rng);
    assert_eq!(update.ai_state, AIState::Idle);
    match action {
        Action::Move(dest) => {
            let d = dest.tile_distance(home);
            assert!((1..=8).contains(&d), "went {} steps", d);
            assert!(w.walkable(dest, Walkability::BlockingMonsters));
            assert_ne!(dest, far);
        }
        other => panic!("an idle monster does not {:?}", other),
    }
    assert!(rng.drawn >= 2);
}

#[test]
fn an_idle_actor_keeps_heading_where_it_was_heading() {
    let home = point(0, 50);
    let mut w = clearing(3, home, 3);
    let mut rng = Random::from_seed(3);
    let mut m = Monster::new(Kind::Anxiety, home);
    m.destination = Some(point(7, 77));
    assert_eq!(idle_destination(&m, &mut w, &mut rng, point(100, 100)), point(7, 77));
    assert_eq!(rng.drawn, 0);
    // The same decision made twice from the same stream is the same decision.
    m.destination = None;
    let mut again = rng;
    let first = idle_destination(&m, &mut w, &mut rng, point(100, 100));
    let second = idle_destination(&m, &mut w, &mut again, point(100, 100));
    assert_eq!((first, rng), (second, again));
}

#[test]
fn a_walled_in_idle_actor_stays_put() {
    let home = point(-20, -20);
    let mut w = World::new(9, 1 << 30, point(0, 0));
    for y in -30..=-10 {
        for x in -30..=-10 {
            w.set_tile(point(x, y), TileKind::Tree);
        }
    }
    let m = Monster::new(Kind::Anxiety, home);
    let mut rng = Random::from_seed(9);
    assert_eq!(idle_destination(&m, &mut w, &mut rng, point(100, 100)), home);
    // Ten tries of two draws each, and no draw for a neighbour that does not exist.
    assert_eq!(rng.drawn, 20);
}

#[test]
fn a_howl_alerts_the_pack_and_no_one_else() {
    let home = point(100, 100);
    let player = point(103, 100);
    let mut w = clearing(5, home, 12);
    let howler = place(&mut w, Kind::Hunger, home, AIState::Idle);
    let idle_mate = place(&mut w, Kind::Hunger, point(100 + HOWLING_DISTANCE, 100 - HOWLING_DISTANCE), AIState::Idle);
    let curious_mate = place(&mut w, Kind::Hunger, point(98, 101), AIState::CheckingOut(point(1, 1)));
    let chasing_mate = place(&mut w, Kind::Hunger, point(101, 104), AIState::Chasing);
    let far_mate = place(&mut w, Kind::Hunger, point(100 + HOWLING_DISTANCE + 1, 100), AIState::Idle);
    let loner = place(&mut w, Kind::Anxiety, point(99, 99), AIState::Idle);
    let mut rng = Random::from_seed(5);
    let (update, action) = pack_attacker_act(&howler, info(player), &mut w, &mut rng);
    assert_eq!(update, Update { ai_state: AIState::Chasing, max_ap: 1 });
    assert_eq!(action, Action::Move(player));
    let state = |w: &mut World, m: &Monster| w.monster_on_pos(m.position).unwrap().ai_state;
    assert_eq!(state(&mut w, &idle_mate), AIState::CheckingOut(player));
    assert_eq!(state(&mut w, &curious_mate), AIState::CheckingOut(player));
    assert_eq!(state(&mut w, &chasing_mate), AIState::Chasing);
    assert_eq!(state(&mut w, &far_mate), AIState::Idle);
    assert_eq!(state(&mut w, &loner), AIState::Idle);
    // The howler itself is changed by whoever commits its update, not by the howl.
    assert_eq!(w.monster_on_pos(home), Some(howler));
    // Nothing but states has changed.
    let after = w.monster_on_pos(idle_mate.position).unwrap();
    assert_eq!(Monster { ai_state: AIState::Idle, ..after }, idle_mate);
}

#[test]
fn a_pack_attacker_howls_only_when_it_starts_to_chase() {
    let home = point(100, 100);
    let player = point(102, 100);
    let mut w = clearing(5, home, 12);
    let mate_at = point(104, 104);
    let already = place(&mut w, Kind::Hunger, home, AIState::Chasing);
    place(&mut w, Kind::Hunger, mate_at, AIState::Idle);
    let mut rng = Random::from_seed(5);
    let (update, _) = pack_attacker_act(&already, info(player), &mut w, &mut rng);
    assert_eq!(update.ai_state, AIState::Chasing);
    assert_eq!(w.monster_on_pos(mate_at).unwrap().ai_state, AIState::Idle);
    // Out of range, no howl either.
    let idle = place(&mut w, Kind::Hunger, home, AIState::Idle);
    pack_attacker_act(&idle, info(point(100, 120)), &mut w, &mut rng);
    assert_eq!(w.monster_on_pos(mate_at).unwrap().ai_state, AIState::Idle);
    howl(&idle, player, &mut w);
    assert_eq!(w.monster_on_pos(mate_at).unwrap().ai_state, AIState::CheckingOut(player));
}

#[test]
fn a_pack_attacker_out_of_range_checks_out_gives_up_or_idles() {
    let home = point(-100, 100);
    let far = point(-100, 130);
    let mut w = clearing(6, home, 10);
    let mut rng = Random::from_seed(6);
    let curious = place(&mut w, Kind::Hunger, home, AIState::CheckingOut(point(-90, 100)));
    let (update, action) = pack_attacker_act(&curious, info(far), &mut w, &mut rng);
    assert_eq!(update.ai_state, AIState::CheckingOut(point(-90, 100)));
    assert_eq!(action, Action::Move(point(-90, 100)));
    assert_eq!(rng.drawn, 0);
    let lost = place(&mut w, Kind::Hunger, home, AIState::Chasing);
    let (update, action) = pack_attacker_act(&lost, info(far), &mut w, &mut rng);
    assert_eq!(update.ai_state, AIState::Idle);
    assert!(matches!(action, Action::Move(_)));
    let idle = place(&mut w, Kind::Hunger, home, AIState::Idle);
    let (update, _) = decide(&idle, info(far), &mut w, &mut rng);
    assert_eq!(update.ai_state, AIState::Idle);
}

#[test]
fn a_friendly_creature_never_attacks() {
    let home = point(0, -100);
    let mut w = clearing(7, home, 12);
    let mut rng = Random::from_seed(7);
    let mut npc = place(&mut w, Kind::Npc, home, AIState::Idle);
    assert_eq!(npc.behavior, Behavior::Friendly);
    // The player is next to it and sober: it holds still.
    let sober = PlayerInfo { pos: point(1, -100), high: false, max_ap: 3 };
    let (update, action) = friendly_act(&npc, sober, &mut w, &mut rng);
    assert_eq!(update, Update { ai_state: AIState::Idle, max_ap: 3 });
    assert_eq!(action, Action::Move(home));
    assert_eq!(rng.drawn, 0);
    // Six steps along the straight line is still near, a diagonal of five is not.
    let (_, action) = friendly_act(&npc, PlayerInfo { pos: point(6, -100), ..sober }, &mut w, &mut rng);
    assert_eq!(action, Action::Move(home));
    let (_, action) = friendly_act(&npc, PlayerInfo { pos: point(5, -95), ..sober }, &mut w, &mut rng);
    assert!(matches!(action, Action::Move(_)));
    assert!(rng.drawn > 0);
    // The player is high: it wanders, and it is slowed down.
    let high = PlayerInfo { high: true, ..sober };
    let (update, action) = decide(&npc, high, &mut w, &mut rng);
    assert_eq!(update.max_ap, ESTRANGED_NPC_MAX_AP);
    assert_eq!(update.max_ap, 1);
    assert!(update.max_ap < sober.max_ap);
    assert!(matches!(action, Action::Move(_)));
    // It accompanies the player: it goes to a tile near them.
    npc.accompanying_player = true;
    let leader = PlayerInfo { pos: point(4, -104), high: false, max_ap: 1 };
    for _ in 0..20 {
        match friendly_act(&npc, leader, &mut w, &mut rng).1 {
            Action::Move(dest) => assert!(dest.tile_distance(leader.pos) <= 3),
            other => panic!("a friendly creature does not {:?}", other),
        }
    }
}
