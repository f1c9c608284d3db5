use dose_response::ai::{AIState, Behavior};
use dose_response::components::{Panicking, Side, Stunned, Turn, AI, ID};
use dose_response::scheduler::Scheduler;
use dose_response::store::ComponentManager;
use dose_response::systems::{idle_ai_system, spend_ap, turn_tick_counter_system};

fn with_turn(ecm: &mut ComponentManager, side: Side, ap: i32, max_ap: i32) -> ID {
    let id = ecm.new_entity();
    ecm.set_turn(id, Turn::new(side, ap, max_ap));
    id
}

fn ap(ecm: &ComponentManager, id: ID) -> i32 {
    ecm.get_turn(id).unwrap().ap()
}

#[test]
fn side_next_and_is_last() {
    assert_eq!(Side::Player.next(), Side::Computer);
    assert_eq!(Side::Computer.next(), Side::Player);
    assert!(!Side::Player.is_last());
    assert!(Side::Computer.is_last());
}

#[test]
fn spending_moves_points_from_the_ledger_to_the_tick() {
    let t = Turn::new(Side::Player, 3, 5);
    assert_eq!((t.ap(), t.max_ap(), t.spent_this_tick()), (3, 5, 0));
    let t = t.spend_ap(2);
    assert_eq!((t.ap(), t.max_ap(), t.spent_this_tick()), (1, 5, 2));
    let t = t.spend_ap(1);
    assert_eq!((t.ap(), t.spent_this_tick()), (0, 3));
    let t = t.spend_ap(0);
    assert_eq!((t.ap(), t.spent_this_tick()), (0, 3));
    assert_eq!(t.side(), Side::Player);
    let fresh = t.refreshed();
    assert_eq!((fresh.ap(), fresh.spent_this_tick()), (5, 0));
    let tick = Turn::new(Side::Player, 3, 5).spend_ap(2).new_tick();
    assert_eq!((tick.ap(), tick.spent_this_tick()), (1, 0));
}

#[test]
fn ap_stays_between_zero_and_max_over_a_run_of_spends() {
    let mut t = Turn::new(Side::Computer, 7, 7);
    for spend in [1, 0, 2, 1, 3] {
        assert!(spend <= t.ap());
        t = t.spend_ap(spend);
        assert!(0 <= t.ap() && t.ap() <= t.max_ap());
        assert_eq!(t.ap() + t.spent_this_tick(), 7);
    }
    assert_eq!(t.ap(), 0);
}

#[test]
fn a_lower_ceiling_cuts_the_ledger() {
    let t = Turn::new(Side::Computer, 4, 6).spend_ap(1);
    let cut = t.with_max_ap(2);
    assert_eq!((cut.ap(), cut.max_ap(), cut.spent_this_tick()), (2, 2, 0));
    let same = t.with_max_ap(10);
    assert_eq!((same.ap(), same.max_ap(), same.spent_this_tick()), (3, 10, 1));
    let some = t.with_max_ap(3);
    assert_eq!((some.ap(), some.max_ap(), some.spent_this_tick()), (3, 3, 0));
}

#[test]
fn control_stays_while_the_active_side_has_points() {
    let mut ecm = ComponentManager::new();
    let player = with_turn(&mut ecm, Side::Player, 1, 1);
    let monster = with_turn(&mut ecm, Side::Computer, 0, 2);
    let mut s = Scheduler::new();
    assert_eq!(s.side, Side::Player);
    assert!(!s.active_side_exhausted(&ecm));
    assert!(!s.advance_if_exhausted(&mut ecm));
    assert_eq!((s.side, s.turn), (Side::Player, 0));
    assert_eq!((ap(&ecm, player), ap(&ecm, monster)), (1, 0));
}

#[test]
fn sides_alternate_and_a_round_is_counted_once() {
    let mut ecm = ComponentManager::new();
    let player = with_turn(&mut ecm, Side::Player, 1, 1);
    let slow = with_turn(&mut ecm, Side::Computer, 0, 1);
    let fast = with_turn(&mut ecm, Side::Computer, 0, 2);
    let bystander = ecm.new_entity();
    let mut s = Scheduler::new();
    let mut visited = Vec::new();
    for round in 0..5 {
        assert_eq!((s.side, s.turn), (Side::Player, round));
        visited.push(s.side);
        assert!(!s.advance_if_exhausted(&mut ecm));
        spend_ap(&mut ecm, player, 1);
        assert!(s.active_side_exhausted(&ecm));
        assert!(s.advance_if_exhausted(&mut ecm));
        assert_eq!((s.side, s.turn), (Side::Computer, round));
        visited.push(s.side);
        // The computer's entities got their points back; the player did not.
        assert_eq!((ap(&ecm, player), ap(&ecm, slow), ap(&ecm, fast)), (0, 1, 2));
        spend_ap(&mut ecm, slow, 1);
        assert!(!s.advance_if_exhausted(&mut ecm));
        spend_ap(&mut ecm, fast, 1);
        assert!(!s.advance_if_exhausted(&mut ecm));
        spend_ap(&mut ecm, fast, 1);
        assert!(s.advance_if_exhausted(&mut ecm));
        assert_eq!((ap(&ecm, player), ap(&ecm, slow), ap(&ecm, fast)), (1, 0, 0));
    }
    assert_eq!((s.side, s.turn), (Side::Player, 5));
    assert_eq!(visited.iter().filter(|s| **s == Side::Player).count(), 5);
    assert_eq!(visited.iter().filter(|s| **s == Side::Computer).count(), 5);
    assert!(ecm.get_turn(bystander).is_none());
}

#[test]
fn a_side_without_entities_is_passed_at_once() {
    let mut ecm = ComponentManager::new();
    let monster = with_turn(&mut ecm, Side::Computer, 0, 3);
    let mut s = Scheduler::new();
    assert!(s.advance_if_exhausted(&mut ecm));
    assert_eq!((s.side, s.turn), (Side::Computer, 0));
    assert_eq!(ap(&ecm, monster), 3);
    assert!(!s.advance_if_exhausted(&mut ecm));
}

#[test]
fn nothing_moves_after_a_victory() {
    let mut ecm = ComponentManager::new();
    let player = with_turn(&mut ecm, Side::Player, 0, 1);
    let monster = with_turn(&mut ecm, Side::Computer, 0, 1);
    let mut s = Scheduler::new();
    s.declare_victory();
    assert!(s.victory);
    assert!(!s.advance_if_exhausted(&mut ecm));
    assert_eq!((s.side, s.turn), (Side::Player, 0));
    assert_eq!((ap(&ecm, player), ap(&ecm, monster)), (0, 0));
}

#[test]
fn a_new_tick_forgets_what_the_active_side_spent() {
    let mut ecm = ComponentManager::new();
    let player = with_turn(&mut ecm, Side::Player, 2, 2);
    let monster = with_turn(&mut ecm, Side::Computer, 2, 2);
    spend_ap(&mut ecm, player, 1);
    spend_ap(&mut ecm, monster, 1);
    turn_tick_counter_system(player, &mut ecm, Side::Player);
    turn_tick_counter_system(monster, &mut ecm, Side::Player);
    turn_tick_counter_system(ID(99), &mut ecm, Side::Player);
    assert_eq!(ecm.get_turn(player).unwrap().spent_this_tick(), 0);
    assert_eq!(ecm.get_turn(player).unwrap().ap(), 1);
    assert_eq!(ecm.get_turn(monster).unwrap().spent_this_tick(), 1);
}

#[test]
fn an_idle_monster_spends_a_point_on_nothing() {
    let mut ecm = ComponentManager::new();
    let monster = with_turn(&mut ecm, Side::Computer, 2, 2);
    ecm.set(
        monster,
        dose_response::store::Component::AI(AI { behaviour: Behavior::LoneAttacker, state: AIState::Idle }),
    );
    let rock = with_turn(&mut ecm, Side::Computer, 2, 2);
    idle_ai_system(monster, &mut ecm, Side::Player);
    assert_eq!(ap(&ecm, monster), 2);
    idle_ai_system(monster, &mut ecm, Side::Computer);
    assert_eq!(ap(&ecm, monster), 1);
    // It has spent something in this tick now, so it is idle no more.
    idle_ai_system(monster, &mut ecm, Side::Computer);
    assert_eq!(ap(&ecm, monster), 1);
    idle_ai_system(rock, &mut ecm, Side::Computer);
    assert_eq!(ap(&ecm, rock), 2);
}

#[test]
fn effects_run_out() {
    let stun = Stunned { turn: 10, duration: 3 };
    assert_eq!(stun.remaining(10), 3);
    assert_eq!(stun.remaining(12), 1);
    assert_eq!(stun.remaining(13), 0);
    assert_eq!(stun.remaining(500), 0);
    let panic = Panicking { turn: i32::MAX, duration: i32::MAX };
    assert_eq!(panic.remaining(i32::MIN), i32::MAX);
    assert_eq!(panic.remaining(i32::MAX), i32::MAX);
    assert_eq!(Panicking { turn: 1, duration: -5 }.remaining(0), 0);
}
