use dose_response::item::{Item, Kind, Modifier};
use dose_response::monster::Damage;
use dose_response::player::{
    damage_effect, Mind, Player, EFFECT_MAX, LEVEL_MAX, PLAYER_MAX_AP, WILL_MAX, WILL_START,
};
use dose_response::point::point;
use dose_response::ranged_int::RangedInt;

#[test]
fn a_new_player_is_sober_and_ready() {
    let p = Player::new(point(3, 4));
    assert_eq!(p.pos, point(3, 4));
    assert!(p.alive());
    assert!(p.mind.is_sober());
    assert!(!p.mind.is_high());
    assert!(!p.mind.is_withdrawal());
    assert_eq!(p.will.value(), WILL_START);
    assert_eq!((p.ap(), p.max_ap), (PLAYER_MAX_AP, PLAYER_MAX_AP));
    assert!(p.has_ap(1));
    assert!(!p.has_ap(2));
    assert!(p.inventory.is_empty());
    assert_eq!(p.mind.level(), 36);
}

#[test]
fn minds_lie_end_to_end() {
    assert_eq!(Mind::at_level(0), Mind::Withdrawal(RangedInt::new(0, 0, 15)));
    assert_eq!(Mind::at_level(15), Mind::Withdrawal(RangedInt::new(15, 0, 15)));
    assert_eq!(Mind::at_level(16), Mind::Sober(RangedInt::new(0, 0, 20)));
    assert_eq!(Mind::at_level(36), Mind::Sober(RangedInt::new(20, 0, 20)));
    assert_eq!(Mind::at_level(37), Mind::High(RangedInt::new(0, 0, 80)));
    assert_eq!(Mind::at_level(LEVEL_MAX), Mind::High(RangedInt::new(80, 0, 80)));
    for level in 0..=LEVEL_MAX {
        assert_eq!(Mind::at_level(level).level(), level);
    }
    assert_eq!(Mind::at_level(20).shifted(-100).level(), 0);
    assert_eq!(Mind::at_level(20).shifted(i32::MAX).level(), LEVEL_MAX);
    assert_eq!(Mind::at_level(20).shifted(i32::MIN).level(), 0);
    assert_eq!(Mind::at_level(20).shifted(17), Mind::High(RangedInt::new(0, 0, 80)));
}

#[test]
fn effects_change_what_they_name() {
    let mut p = Player::new(point(0, 0));
    p.take_effect(Modifier::Stun(3));
    p.take_effect(Modifier::Panic(30));
    assert_eq!((p.stun.value(), p.panic.value()), (3, EFFECT_MAX));
    p.take_effect(Modifier::Attribute { will: 1, state_of_mind: -10 });
    assert_eq!((p.will.value(), p.mind.level()), (3, 26));
    p.take_effect(Modifier::Attribute { will: 10, state_of_mind: 0 });
    assert_eq!(p.will.value(), WILL_MAX);
    assert!(p.alive());
    p.take_effect(Item::new(Kind::Dose).modifier);
    assert_eq!((p.mind.level(), p.tolerance), (96, 1));
    assert!(p.mind.is_high());
    p.take_effect(Modifier::Intoxication { state_of_mind: 1, tolerance_increase: 2 });
    assert_eq!((p.mind.level(), p.tolerance), (96, 3));
    p.take_effect(Modifier::Intoxication { state_of_mind: 5, tolerance_increase: 0 });
    assert_eq!(p.mind.level(), 98);
    assert!(p.alive());
    assert_eq!((p.pos, p.ap()), (point(0, 0), 1));
}

#[test]
fn the_ways_to_die() {
    let mut p = Player::new(point(0, 0));
    p.take_effect(Modifier::Death);
    assert!(!p.alive());
    let mut p = Player::new(point(0, 0));
    p.take_effect(Modifier::Attribute { will: -1, state_of_mind: 0 });
    assert!(p.alive());
    p.take_effect(Modifier::Attribute { will: -1, state_of_mind: 0 });
    assert!(!p.alive());
    let mut p = Player::new(point(0, 0));
    p.take_effect(Modifier::Attribute { will: 0, state_of_mind: -35 });
    assert!(p.alive());
    p.take_effect(Modifier::Attribute { will: 0, state_of_mind: -1 });
    assert!(!p.alive());
    let mut p = Player::new(point(0, 0));
    p.take_effect(Item::new(Kind::StrongDose).modifier);
    assert_eq!(p.mind.level(), LEVEL_MAX);
    assert!(!p.alive());
    let mut p = Player::new(point(0, 0));
    p.take_effect(Item::new(Kind::Dose).modifier);
    p.take_effect(Item::new(Kind::Food).modifier);
    assert!(p.alive());
    p.take_effect(Item::new(Kind::Dose).modifier);
    assert!(!p.alive());
}

#[test]
fn a_new_turn_brings_the_points_back_and_wears_effects_off() {
    let mut p = Player::new(point(0, 0));
    p.take_effect(Modifier::Stun(2));
    p.spend_ap(1);
    assert!(!p.has_ap(1));
    p.new_turn();
    assert_eq!((p.ap(), p.stun.value(), p.panic.value()), (1, 1, 0));
    p.new_turn();
    p.new_turn();
    assert_eq!(p.stun.value(), 0);
    p.move_to(point(9, 9));
    assert_eq!(p.pos, point(9, 9));
}

#[test]
fn the_first_item_of_a_kind_is_found() {
    let mut p = Player::new(point(0, 0));
    assert_eq!(p.find_item(Kind::Food), None);
    p.inventory = vec![Item::new(Kind::Dose), Item::new(Kind::Food), Item::new(Kind::Dose)];
    assert_eq!(p.find_item(Kind::Dose), Some(0));
    assert_eq!(p.find_item(Kind::Food), Some(1));
    assert_eq!(p.find_item(Kind::StrongDose), None);
}

#[test]
fn damage_is_a_loss() {
    assert_eq!(damage_effect(Damage::Death), Modifier::Death);
    assert_eq!(damage_effect(Damage::Panic(4)), Modifier::Panic(4));
    assert_eq!(damage_effect(Damage::Stun(4)), Modifier::Stun(4));
    assert_eq!(
        damage_effect(Damage::AttributeLoss { will: 1, state_of_mind: 20 }),
        Modifier::Attribute { will: -1, state_of_mind: -20 }
    );
    assert_eq!(
        damage_effect(Damage::AttributeLoss { will: i32::MIN, state_of_mind: -3 }),
        Modifier::Attribute { will: i32::MAX, state_of_mind: 3 }
    );
}
