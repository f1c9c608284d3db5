//! One turn of the game: what a command of the player does to the player
//! and the world, and what the monsters do in answer.

use crate::ai::Action;
use crate::generators::TileKind;
use crate::horde::{is_rested, line_up, monsters_ran, process_monsters, ACTIVE_RADIUS};
use crate::item::{Item, Kind, Modifier};
use crate::monster::{Monster, Walkability};
use crate::player::{after_effect, held, Mind, Player, PlayerView, SOBRIETY_COUNTER_MAX, WILL_MAX};
use crate::point::{
    lemma_square_points_contains, square_points, tile_distance_spec, Point, SquareArea,
};
use crate::random::Random;
use crate::replay::{log_command, parse_replay, replay_of, Command, ReplayError, NEWLINE};
use crate::scheduler::Scheduler;
use crate::ways::{lemma_same_ground_same_step, same_ground, step_towards, towards};
use crate::world::{CellView, World};
use std::collections::VecDeque;
use vstd::prelude::*;

verus! {

/// How far around the player a dose is looked for.
pub const DOSE_SEARCH_RADIUS: i32 = 5;

/// The blast of food.
pub const FOOD_EXPLOSION_RADIUS: i32 = 2;

/// A blast that kills the monsters around its centre.
#[derive(Clone, Copy, Debug, PartialEq, Eq, Structural)]
pub struct Explosion {
    pub center: Point,
    pub radius: i32,
}

/// The world after the monster on `pos`, if there is one, was killed.
pub open spec fn without_monster(world: World, pos: Point, p: Point) -> CellView {
    if p == pos && world.within_bounds_spec(pos) {
        CellView { monster: None, ..world.cell_at(p) }
    } else {
        world.cell_at(p)
    }
}

/// Kills the monster that stands on `monster_position`, if there is one.
pub fn kill_monster(monster_position: Point, world: &mut World)
    requires
        old(world).wf(),
    ensures
        final(world).wf(),
        final(world).settings() == old(world).settings(),
        final(world).first_dose() == old(world).first_dose(),
        forall|p: Point|
            #![trigger final(world).cell_at(p)]
            final(world).cell_at(p) == without_monster(*old(world), monster_position, p),
{
    world.remove_monster(monster_position);
}

/// What the tile `p` holds after a blast of `radius` steps around `center`:
/// no monster, if the tile lies within the world and the blast.
pub open spec fn after_blast(world: World, center: Point, radius: int, p: Point) -> CellView {
    if world.within_bounds_spec(p) && tile_distance_spec(p, center) <= radius {
        CellView { monster: None, ..world.cell_at(p) }
    } else {
        world.cell_at(p)
    }
}

/// Kills every monster that stands no more than `radius` steps from
/// `center`.
pub fn explode(center: Point, radius: i32, world: &mut World) -> (explosion: Explosion)
    requires
        old(world).wf(),
        radius >= 0,
        i32::MIN <= center.x - radius,
        center.x + radius <= i32::MAX,
        i32::MIN <= center.y - radius,
        center.y + radius <= i32::MAX,
    ensures
        final(world).wf(),
        final(world).settings() == old(world).settings(),
        final(world).first_dose() == old(world).first_dose(),
        explosion == (Explosion { center, radius }),
        forall|p: Point|
            #![trigger final(world).cell_at(p)]
            final(world).cell_at(p) == after_blast(*old(world), center, radius as int, p),
{
    let mut area = SquareArea::new(center, radius);
    let ghost all = square_points(center, radius as int);
    let ghost mut seen: Seq<Point> = Seq::empty();
    proof {
        assert(seen + area.remaining() == all);
    }
    loop
        invariant
            world.wf(),
            world.settings() == old(world).settings(),
            world.first_dose() == old(world).first_dose(),
            seen + area.remaining() == all,
            forall|p: Point|
                #![trigger world.cell_at(p)]
                world.cell_at(p) == if old(world).within_bounds_spec(p) && seen.contains(p) {
                    CellView { monster: None, ..old(world).cell_at(p) }
                } else {
                    old(world).cell_at(p)
                },
        ensures
            seen == all,
        decreases area.remaining().len(),
    {
        let ghost before = *world;
        let ghost seen_before = seen;
        match area.next() {
            None => {
                proof {
                    assert(seen + Seq::<Point>::empty() == seen);
                }
                break ;
            },
            Some(pos) => {
                kill_monster(pos, world);
                proof {
                    seen = seen.push(pos);
                    assert(seen_before.push(pos) + area.remaining() == seen_before + (seq![pos]
                        + area.remaining()));
                    assert(seen[seen_before.len() as int] == pos);
                    assert forall|q: Point|
                        #![trigger world.cell_at(q)]
                        world.cell_at(q) == if old(world).within_bounds_spec(q) && seen.contains(
                            q,
                        ) {
                            CellView { monster: None, ..old(world).cell_at(q) }
                        } else {
                            old(world).cell_at(q)
                        } by {
                        assert(before.cell_at(q) == if old(world).within_bounds_spec(q)
                            && seen_before.contains(q) {
                            CellView { monster: None, ..old(world).cell_at(q) }
                        } else {
                            old(world).cell_at(q)
                        });
                        if q != pos {
                            if seen.contains(q) {
                                let a = choose|a: int| 0 <= a < seen.len() && seen[a] == q;
                                assert(seen_before[a] == q);
                            }
                            if seen_before.contains(q) {
                                let a = choose|a: int|
                                    0 <= a < seen_before.len() && seen_before[a] == q;
                                assert(seen[a] == q);
                            }
                        }
                    }
                }
            },
        }
    }
    proof {
        assert forall|p: Point|
            #![trigger world.cell_at(p)]
            world.cell_at(p) == after_blast(*old(world), center, radius as int, p) by {
            lemma_square_points_contains(center, radius, p);
        }
    }
    Explosion { center, radius }
}

/// How far the blast of a dose reaches.
pub open spec fn dose_radius(state_of_mind: int) -> int {
    if state_of_mind <= 100 {
        4
    } else {
        6
    }
}

/// The player takes the dose `item`: it works on their mind, and its blast
/// kills the monsters around them. The item must be a dose.
pub fn use_dose(player: &mut Player, world: &mut World, item: Item) -> (explosion: Explosion)
    requires
        old(player).wf(),
        old(world).wf(),
        old(world).within_bounds_spec(old(player).pos),
        item.modifier is Intoxication,
    ensures
        final(player).wf(),
        final(world).wf(),
        final(world).settings() == old(world).settings(),
        no_new_monsters(*final(world), *old(world)),
        final(world).first_dose() == old(world).first_dose(),
        final(player)@ == after_effect(old(player)@, item.modifier),
        final(player).pos == old(player).pos,
        final(player).inventory == old(player).inventory,
        final(player).ap == old(player).ap,
        final(player).max_ap == old(player).max_ap,
        final(player).anxiety_counter == old(player).anxiety_counter,
        final(player).sobriety_counter == old(player).sobriety_counter,
        explosion.center == old(player).pos,
        explosion.radius == dose_radius(item.modifier->Intoxication_state_of_mind as int),
        forall|p: Point|
            #![trigger final(world).cell_at(p)]
            final(world).cell_at(p) == after_blast(
                *old(world),
                old(player).pos,
                explosion.radius as int,
                p,
            ),
{
    let radius: i32 = match item.modifier {
        Modifier::Intoxication { state_of_mind, .. } => if state_of_mind <= 100 {
            4
        } else {
            6
        },
        _ => 4,
    };
    player.take_effect(item.modifier);
    proof {
        world.lemma_extent();
    }
    explode(player.pos, radius, world)
}

/// How far the player sees, by the state of their mind.
pub open spec fn exploration_radius_spec(mind: Mind) -> int {
    match mind {
        Mind::Withdrawal(value) => if value.value_spec() >= crate::ranged_int::half_towards_zero(
            value.min_spec() + value.max_spec(),
        ) {
            5
        } else {
            4
        },
        Mind::Sober(_) => 6,
        Mind::High(value) => if value.value_spec() >= crate::ranged_int::half_towards_zero(
            value.min_spec() + value.max_spec(),
        ) {
            8
        } else {
            7
        },
    }
}

pub fn exploration_radius(mental_state: Mind) -> (radius: i32)
    ensures
        radius == exploration_radius_spec(mental_state),
        4 <= radius <= 8,
{
    match mental_state {
        Mind::Withdrawal(value) => {
            if value.value() >= value.middle() {
                5
            } else {
                4
            }
        },
        Mind::Sober(_) => 6,
        Mind::High(value) => {
            if value.value() >= value.middle() {
                8
            } else {
                7
            }
        },
    }
}

/// How far the pull of a dose reaches against the will of the player:
/// never less than nothing.
pub open spec fn resist_radius_spec(dose_irresistible_value: int, will: int) -> int {
    if dose_irresistible_value - will < 0 {
        0
    } else if dose_irresistible_value - will > i32::MAX {
        i32::MAX as int
    } else {
        dose_irresistible_value - will
    }
}

pub fn player_resist_radius(dose_irresistible_value: i32, will: i32) -> (radius: i32)
    ensures
        radius == resist_radius_spec(dose_irresistible_value as int, will as int),
{
    let difference: i64 = dose_irresistible_value as i64 - will as i64;
    if difference < 0 {
        0
    } else if difference > i32::MAX as i64 {
        i32::MAX
    } else {
        difference as i32
    }
}

/// The step that the command `command` asks for.
pub open spec fn command_step(command: Command) -> Option<(int, int)> {
    match command {
        Command::N => Some((0, -1)),
        Command::S => Some((0, 1)),
        Command::W => Some((-1, 0)),
        Command::E => Some((1, 0)),
        Command::NW => Some((-1, -1)),
        Command::NE => Some((1, -1)),
        Command::SW => Some((-1, 1)),
        Command::SE => Some((1, 1)),
        _ => None,
    }
}

/// What the player at `pos` wants to do when they give the command
/// `command`: step to a neighbouring tile, or use something. A step off
/// the edge of what can be written down is a step on the spot.
pub open spec fn command_action_spec(pos: Point, command: Command) -> Action {
    match command {
        Command::UseFood => Action::Use(Kind::Food),
        Command::UseDose => Action::Use(Kind::Dose),
        Command::UseStrongDose => Action::Use(Kind::StrongDose),
        _ => {
            let (dx, dy) = command_step(command)->0;
            if i32::MIN <= pos.x + dx <= i32::MAX && i32::MIN <= pos.y + dy <= i32::MAX {
                Action::Move(Point { x: (pos.x + dx) as i32, y: (pos.y + dy) as i32 })
            } else {
                Action::Move(pos)
            }
        },
    }
}

pub fn command_action(pos: Point, command: Command) -> (action: Action)
    ensures
        action == command_action_spec(pos, command),
{
    let step: (i32, i32) = match command {
        Command::UseFood => {
            return Action::Use(Kind::Food);
        },
        Command::UseDose => {
            return Action::Use(Kind::Dose);
        },
        Command::UseStrongDose => {
            return Action::Use(Kind::StrongDose);
        },
        Command::N => (0, -1),
        Command::S => (0, 1),
        Command::W => (-1, 0),
        Command::E => (1, 0),
        Command::NW => (-1, -1),
        Command::NE => (1, -1),
        Command::SW => (-1, 1),
        Command::SE => (1, 1),
    };
    match pos.offset(step.0, step.1) {
        Some(p) => Action::Move(p),
        None => Action::Move(pos),
    }
}

/// Whether the tiles `a` and `b` are the same.
pub fn same_point(a: Point, b: Point) -> (same: bool)
    ensures
        same == (a == b),
{
    a.x == b.x && a.y == b.y
}

/// The dose that a player whose will is not at its height cannot help but
/// take: a strong one if they carry one, else a dose if they carry one.
pub open spec fn must_use(player: Player) -> Option<Kind> {
    if player.will.value_spec() == player.will.max_spec() {
        None
    } else if exists|i: int|
        0 <= i < player.inventory@.len() && player.inventory@[i].kind == Kind::StrongDose {
        Some(Kind::StrongDose)
    } else if exists|i: int|
        0 <= i < player.inventory@.len() && player.inventory@[i].kind == Kind::Dose {
        Some(Kind::Dose)
    } else {
        None
    }
}

/// Where the dose lies whose pull reaches the player, and how far its pull
/// reaches: the nearest dose within the search radius, if it is no farther
/// away than its pull reaches against the will of the player.
pub open spec fn pulling_dose(world: World, player: Player) -> Option<(Point, int)> {
    match crate::world::nearest_dose_among(
        world,
        player.pos,
        square_points(player.pos, DOSE_SEARCH_RADIUS as int),
    ) {
        Some((at, dose)) => {
            let reach = resist_radius_spec(dose.irresistible as int, player.will.value_spec());
            if tile_distance_spec(player.pos, at) <= reach {
                Some((at, reach))
            } else {
                None
            }
        },
        None => None,
    }
}

/// The stream of random numbers after the player has found out what they
/// do: a panicking player who is not stunned and has somewhere to go has
/// drawn one number.
pub open spec fn rng_after_impulse(player: Player, world: World, rng: Random) -> Random {
    if player.stun.value_spec() == 0 && player.panic.value_spec() > 0 && crate::world::open_among(
        world,
        crate::world::neighbours(player.pos),
        Walkability::WalkthroughMonsters,
        player.pos,
    ).len() > 0 {
        rng.advanced()
    } else {
        rng
    }
}

/// The step that the pull of a dose makes the player take: the step
/// towards the dose that pulls them, if there is a way there that is no
/// longer than its pull reaches.
pub open spec fn pull_step(world: World, player: Player) -> Option<Point> {
    match pulling_dose(world, player) {
        Some((at, reach)) => towards(world, Walkability::WalkthroughMonsters, player.pos, at, reach),
        None => None,
    }
}

/// What the player does in place of `wanted`. A dose they carry comes
/// before everything while their will is not at its height. Else they do
/// nothing while stunned, step to a random neighbouring tile while
/// panicking, and step towards a dose that pulls them. Only a player whom
/// none of this holds does what they wanted.
pub open spec fn overruling(player: Player, wanted: Action, world: World, rng: Random) -> Action {
    match must_use(player) {
        Some(kind) => Action::Use(kind),
        None => if player.stun.value_spec() > 0 {
            Action::Move(player.pos)
        } else if player.panic.value_spec() > 0 {
            Action::Move(
                crate::world::random_neighbour_spec(
                    world,
                    rng,
                    player.pos,
                    Walkability::WalkthroughMonsters,
                    player.pos,
                ),
            )
        } else {
            match pull_step(world, player) {
                Some(dest) => Action::Move(dest),
                None => wanted,
            }
        },
    }
}

/// What the player does in place of `wanted`: nothing while stunned; a
/// step to a random neighbouring tile while panicking; a step towards a
/// dose whose pull reaches them; and a dose they carry, the strong one
/// first, while their will is not at its height.
pub fn overruled_action(player: &Player, wanted: Action, world: &mut World, rng: &mut Random) -> (action:
    Action)
    requires
        player.wf(),
        old(world).wf(),
        old(world).within_bounds_spec(player.pos),
    ensures
        final(world).wf(),
        final(world).same_as(old(world)),
        action == overruling(*player, wanted, *old(world), *old(rng)),
        action is Attack ==> wanted == action,
        action matches Action::Move(dest) ==> dest == player.pos || wanted == action || (
        tile_distance_spec(player.pos, dest) == 1 && old(world).walkable_spec(
            dest,
            Walkability::WalkthroughMonsters,
        )),
        *final(rng) == rng_after_impulse(*player, *old(world), *old(rng)),
{
    let mut action = wanted;
    if player.stun.value() > 0 {
        action = Action::Move(player.pos);
    } else if player.panic.value() > 0 {
        let new_pos = world.random_neighbour_position(
            rng,
            player.pos,
            Walkability::WalkthroughMonsters,
            player.pos,
        );
        action = Action::Move(new_pos);
    } else {
        proof {
            world.lemma_extent();
        }
        match world.nearest_dose(player.pos, DOSE_SEARCH_RADIUS) {
            Some((dose_pos, dose)) => {
                let resist_radius = player_resist_radius(dose.irresistible, player.will.value());
                if player.pos.tile_distance(dose_pos) <= resist_radius as u32 {
                    proof {
                        let seen = *world;
                        assert(same_ground(seen, *old(world), Walkability::WalkthroughMonsters)) by {
                            assert forall|p: Point| #[trigger]
                                seen.walkable_spec(p, Walkability::WalkthroughMonsters) == old(
                                    world,
                                ).walkable_spec(p, Walkability::WalkthroughMonsters) by {
                                assert(seen.cell_at(p) == old(world).cell_at(p));
                            }
                        }
                        lemma_same_ground_same_step(
                            seen,
                            *old(world),
                            Walkability::WalkthroughMonsters,
                            player.pos,
                            dose_pos,
                            resist_radius as int,
                            0,
                        );
                    }
                    match step_towards(
                        world,
                        player.pos,
                        dose_pos,
                        Walkability::WalkthroughMonsters,
                        resist_radius as usize,
                    ) {
                        Some(new_pos) => {
                            action = Action::Move(new_pos);
                        },
                        None => {},
                    }
                }
            },
            None => {},
        }
    }
    if !player.will.is_max() {
        match player.find_item(Kind::StrongDose) {
            Some(_) => {
                action = Action::Use(Kind::StrongDose);
            },
            None => {
                match player.find_item(Kind::Dose) {
                    Some(_) => {
                        action = Action::Use(Kind::Dose);
                    },
                    None => {},
                }
            },
        }
    }
    action
}

/// Whether the item works as a dose: it is one of the two doses, and what
/// it does is to intoxicate.
pub open spec fn works_as_dose(item: Item) -> bool {
    (item.kind == Kind::Dose || item.kind == Kind::StrongDose) && item.modifier is Intoxication
}

/// How far the blast of an item reaches when it is used: that of a dose
/// as far as the dose is strong, that of anything else as far as that of
/// food.
pub open spec fn blast_radius(item: Item) -> int {
    if works_as_dose(item) {
        dose_radius(item.modifier->Intoxication_state_of_mind as int)
    } else {
        FOOD_EXPLOSION_RADIUS as int
    }
}

/// What a player has become and holds while they gather what lies at their
/// feet: their values, what is in their hands, the reach of the last blast
/// they set off, and the reach of the widest.
pub struct Haul {
    pub player: PlayerView,
    pub inventory: Seq<Item>,
    pub blast: Option<int>,
    pub widest: int,
}

/// The player before they have gathered anything.
pub open spec fn empty_handed(player: Player) -> Haul {
    Haul { player: player@, inventory: player.inventory@, blast: None, widest: -1 }
}

/// Whether the player takes `item` on the spot: it is a dose, and their
/// will is not at its height.
pub open spec fn taken_on_the_spot(player: PlayerView, item: Item) -> bool {
    works_as_dose(item) && player.will != WILL_MAX
}

/// The player picks up `item`: a dose that they cannot resist works on
/// them and sets off its blast; anything else goes into their hands.
pub open spec fn gather_one(h: Haul, item: Item) -> Haul {
    if taken_on_the_spot(h.player, item) {
        Haul {
            player: after_effect(h.player, item.modifier),
            inventory: h.inventory,
            blast: Some(blast_radius(item)),
            widest: if blast_radius(item) > h.widest {
                blast_radius(item)
            } else {
                h.widest
            },
        }
    } else {
        Haul { inventory: h.inventory.push(item), ..h }
    }
}

/// The player picks up all of `items`, from the top of the pile down.
pub open spec fn gather(h: Haul, items: Seq<Item>) -> Haul
    decreases items.len(),
{
    if items.len() == 0 {
        h
    } else {
        gather(gather_one(h, items.last()), items.drop_last())
    }
}

/// What the tile `p` holds after the player on `pos` has gathered what lay
/// there and the widest blast they set off reached `widest` steps.
pub open spec fn after_gathering(world: World, pos: Point, widest: int, p: Point) -> CellView {
    if p == pos {
        CellView { items: Seq::empty(), ..after_blast(world, pos, widest, p) }
    } else {
        after_blast(world, pos, widest, p)
    }
}

/// The blast around `center` that reaches `radius` steps, if there is one.
pub open spec fn blast_at(center: Point, radius: Option<int>) -> Option<Explosion> {
    match radius {
        Some(r) => Some(Explosion { center, radius: r as i32 }),
        None => None,
    }
}

/// The player picks up everything that lies on the tile they stand on,
/// from the top of the pile down. Food goes into their hands. So does a
/// dose while their will is at its height; any other dose is taken on the
/// spot. The blast that comes back is the last that was set off.
#[verifier::rlimit(40)]
pub fn pick_up_all(player: &mut Player, world: &mut World) -> (explosion: Option<Explosion>)
    requires
        old(player).wf(),
        old(world).wf(),
        old(world).within_bounds_spec(old(player).pos),
    ensures
        final(player).wf(),
        final(world).wf(),
        final(world).settings() == old(world).settings(),
        final(world).first_dose() == old(world).first_dose(),
        no_new_monsters(*final(world), *old(world)),
        final(player).pos == old(player).pos,
        final(player).ap == old(player).ap,
        final(player).max_ap == old(player).max_ap,
        final(player).sobriety_counter == old(player).sobriety_counter,
        final(player).anxiety_counter == old(player).anxiety_counter,
        ({
            let h = gather(empty_handed(*old(player)), old(world).cell_at(old(player).pos).items);
            &&& final(player)@ == h.player
            &&& final(player).inventory@ == h.inventory
            &&& explosion == blast_at(old(player).pos, h.blast)
            &&& forall|p: Point|
                #![trigger final(world).cell_at(p)]
                final(world).cell_at(p) == after_gathering(
                    *old(world),
                    old(player).pos,
                    h.widest,
                    p,
                )
        }),
{
    let mut explosion: Option<Explosion> = None;
    let pos = player.pos;
    let ghost all = old(world).cell_at(pos).items;
    let ghost mut blast: Option<int> = None;
    let ghost mut widest: int = -1;
    loop
        invariant
            player.wf(),
            world.wf(),
            world.settings() == old(world).settings(),
            world.first_dose() == old(world).first_dose(),
            world.within_bounds_spec(pos),
            player.pos == pos,
            pos == old(player).pos,
            player.ap == old(player).ap,
            player.max_ap == old(player).max_ap,
            player.sobriety_counter == old(player).sobriety_counter,
            player.anxiety_counter == old(player).anxiety_counter,
            all == old(world).cell_at(pos).items,
            widest >= -1,
            blast matches Some(r) ==> 0 <= r <= 6,
            explosion == blast_at(pos, blast),
            gather(empty_handed(*old(player)), all) == gather(
                (Haul { player: player@, inventory: player.inventory@, blast, widest }),
                world.cell_at(pos).items,
            ),
            forall|p: Point|
                #![trigger world.cell_at(p)]
                world.cell_at(p) == if p == pos {
                    CellView {
                        items: world.cell_at(pos).items,
                        ..after_blast(*old(world), pos, widest, p)
                    }
                } else {
                    after_blast(*old(world), pos, widest, p)
                },
        ensures
            world.cell_at(pos).items.len() == 0,
        decreases world.cell_at(pos).items.len(),
    {
        let ghost before = *world;
        let ghost held_before = Haul { player: player@, inventory: player.inventory@, blast, widest };
        match world.pickup_item(pos) {
            Some(item) => {
                let ghost picked = *world;
                proof {
                    assert(picked.cell_at(pos).items == before.cell_at(pos).items.drop_last());
                    assert forall|p: Point|
                        #![trigger picked.cell_at(p)]
                        picked.cell_at(p) == if p == pos {
                            CellView {
                                items: picked.cell_at(pos).items,
                                ..after_blast(*old(world), pos, widest, p)
                            }
                        } else {
                            after_blast(*old(world), pos, widest, p)
                        } by {
                        assert(before.cell_at(p) == if p == pos {
                            CellView {
                                items: before.cell_at(pos).items,
                                ..after_blast(*old(world), pos, widest, p)
                            }
                        } else {
                            after_blast(*old(world), pos, widest, p)
                        });
                    }
                }
                let take = match item.modifier {
                    Modifier::Intoxication { .. } => item.is_dose() && !player.will.is_max(),
                    _ => false,
                };
                assert(take == taken_on_the_spot(player@, item));
                if take {
                    let blown = use_dose(player, world, item);
                    explosion = Some(blown);
                    proof {
                        let r = blast_radius(item);
                        let wider = if r > widest {
                            r
                        } else {
                            widest
                        };
                        assert forall|p: Point|
                            #![trigger world.cell_at(p)]
                            world.cell_at(p) == if p == pos {
                                CellView {
                                    items: world.cell_at(pos).items,
                                    ..after_blast(*old(world), pos, wider, p)
                                }
                            } else {
                                after_blast(*old(world), pos, wider, p)
                            } by {
                            assert(world.cell_at(p) == after_blast(picked, pos, r, p));
                            assert(world.cell_at(pos) == after_blast(picked, pos, r, pos));
                            assert(picked.cell_at(p) == if p == pos {
                                CellView {
                                    items: picked.cell_at(pos).items,
                                    ..after_blast(*old(world), pos, widest, p)
                                }
                            } else {
                                after_blast(*old(world), pos, widest, p)
                            });
                        }
                        blast = Some(r);
                        widest = wider;
                    }
                } else {
                    player.inventory.push(item);
                }
                proof {
                    assert(Haul { player: player@, inventory: player.inventory@, blast, widest }
                        == gather_one(held_before, item));
                }
            },
            None => {
                proof {
                    assert forall|p: Point|
                        #![trigger world.cell_at(p)]
                        world.cell_at(p) == if p == pos {
                            CellView {
                                items: world.cell_at(pos).items,
                                ..after_blast(*old(world), pos, widest, p)
                            }
                        } else {
                            after_blast(*old(world), pos, widest, p)
                        } by {
                        assert(world.cell_at(p) == before.cell_at(p));
                        assert(world.cell_at(pos) == before.cell_at(pos));
                    }
                }
                break ;
            },
        }
    }
    proof {
        assert(world.cell_at(pos).items =~= Seq::<Item>::empty());
        assert forall|p: Point|
            #![trigger world.cell_at(p)]
            world.cell_at(p).monster is Some implies world.cell_at(p).monster == old(world).cell_at(
            p,
        ).monster by {}
    }
    explosion
}

/// The item at place `i` is the first of the kind `kind` among `items`.
pub open spec fn first_of_kind(items: Seq<Item>, kind: Kind, i: int) -> bool {
    &&& 0 <= i < items.len()
    &&& items[i].kind == kind
    &&& forall|j: int| 0 <= j < i ==> items[j].kind != kind
}

/// What using the first item of the kind `kind` that they carry makes of
/// the player `before` in the world `world`: the item leaves their hands,
/// works on them and costs an action point, and its blast kills the
/// monsters around them. Without such an item nothing happens.
pub open spec fn used(
    before: Player,
    world: World,
    kind: Kind,
    after: Player,
    now: World,
    explosion: Option<Explosion>,
) -> bool {
    &&& now.settings() == world.settings()
    &&& now.first_dose() == world.first_dose()
    &&& forall|i: int|
        #![trigger first_of_kind(before.inventory@, kind, i)]
        first_of_kind(before.inventory@, kind, i) ==> {
            let item = before.inventory@[i];
            &&& after.wf()
            &&& explosion == Some(
                Explosion { center: before.pos, radius: blast_radius(item) as i32 },
            )
            &&& after.inventory@ == before.inventory@.remove(i)
            &&& after@ == after_effect(before@, item.modifier)
            &&& after.pos == before.pos
            &&& after.ap == before.ap - 1
            &&& after.max_ap == before.max_ap
            &&& after.anxiety_counter == before.anxiety_counter
            &&& after.sobriety_counter == before.sobriety_counter
            &&& forall|p: Point|
                #![trigger now.cell_at(p)]
                now.cell_at(p) == after_blast(world, before.pos, blast_radius(item), p)
        }
    &&& (forall|i: int| !#[trigger] first_of_kind(before.inventory@, kind, i)) ==> {
        &&& after == before
        &&& explosion is None
        &&& forall|p: Point| #![trigger now.cell_at(p)] now.cell_at(p) == world.cell_at(p)
    }
}

/// The player uses the first item of the kind `kind` that they carry, if
/// they carry one: it costs an action point, works on them, and its blast
/// kills the monsters around them.
pub fn use_item(player: &mut Player, world: &mut World, kind: Kind) -> (explosion: Option<Explosion>)
    requires
        old(player).wf(),
        old(world).wf(),
        old(world).within_bounds_spec(old(player).pos),
        old(player).ap >= 1,
    ensures
        final(player).wf(),
        final(world).wf(),
        final(world).settings() == old(world).settings(),
        final(world).first_dose() == old(world).first_dose(),
        used(*old(player), *old(world), kind, *final(player), *final(world), explosion),
        explosion is Some <==> (exists|i: int|
            0 <= i < old(player).inventory@.len() && old(player).inventory@[i].kind == kind),
        no_new_monsters(*final(world), *old(world)),
        final(player).pos == old(player).pos,
        final(player).max_ap == old(player).max_ap,
        final(player).sobriety_counter == old(player).sobriety_counter,
        old(player).ap - 1 <= final(player).ap <= old(player).ap,
        forall|p: Point|
            #![trigger final(world).cell_at(p)]
            final(world).cell_at(p).tile == old(world).cell_at(p).tile,
{
    match player.find_item(kind) {
        Some(index) => {
            proof {
                assert(first_of_kind(old(player).inventory@, kind, index as int));
                assert forall|i: int| first_of_kind(old(player).inventory@, kind, i) implies i
                    == index by {
                    if i < index {
                        assert(old(player).inventory@[i].kind != kind);
                    }
                    if index < i {
                        assert(old(player).inventory@[index as int].kind != kind);
                    }
                }
            }
            player.spend_ap(1);
            let item = player.inventory.remove(index);
            let as_dose = match item.modifier {
                Modifier::Intoxication { .. } => item.is_dose(),
                _ => false,
            };
            if as_dose {
                let blast = use_dose(player, world, item);
                Some(blast)
            } else {
                player.take_effect(item.modifier);
                proof {
                    world.lemma_extent();
                }
                let blast = explode(player.pos, FOOD_EXPLOSION_RADIUS, world);
                Some(blast)
            }
        },
        None => {
            proof {
                assert forall|i: int| !first_of_kind(old(player).inventory@, kind, i) by {}
            }
            None
        },
    }
}

/// What killing the monster `m` by walking into it makes of the player
/// `before`: it costs an action point, and every seventh anxiety that dies
/// so adds to their will.
pub open spec fn after_kill(before: Player, m: Monster, after: Player) -> bool {
    let counted = before.anxiety_counter.value_spec() + 1;
    &&& after.wf()
    &&& after.pos == before.pos
    &&& after.ap == before.ap - 1
    &&& after.max_ap == before.max_ap
    &&& after.inventory == before.inventory
    &&& after.mind == before.mind
    &&& after.tolerance == before.tolerance
    &&& after.stun == before.stun
    &&& after.panic == before.panic
    &&& after.sobriety_counter == before.sobriety_counter
    &&& after.dead == before.dead
    &&& if m.kind != crate::monster::Kind::Anxiety {
        after.anxiety_counter == before.anxiety_counter && after.will == before.will
    } else if counted < crate::player::ANXIETIES_PER_WILL {
        after.anxiety_counter.value_spec() == counted && after.will == before.will
    } else {
        after.anxiety_counter.value_spec() == 0 && after.will.value_spec() == held(
            before.will.value_spec() + 1,
            0,
            WILL_MAX as int,
        )
    }
}

/// What walking to the tile `dest` makes of the player `before` in the
/// world `world`. A monster that stands there dies, and the player stays
/// where they are. Onto open ground they step, and gather what lies there.
/// Both cost an action point. Anything else stops them at no cost.
pub open spec fn walked(
    before: Player,
    world: World,
    dest: Point,
    after: Player,
    now: World,
    explosion: Option<Explosion>,
) -> bool {
    &&& now.settings() == world.settings()
    &&& now.first_dose() == world.first_dose()
    &&& match world.monster_at(dest) {
        Some(m) => {
            &&& after_kill(before, m, after)
            &&& explosion is None
            &&& forall|p: Point|
                #![trigger now.cell_at(p)]
                now.cell_at(p) == without_monster(world, dest, p)
        },
        None => if world.walkable_spec(dest, Walkability::BlockingMonsters) {
            let h = gather(empty_handed(before), world.cell_at(dest).items);
            &&& after.wf()
            &&& after.pos == dest
            &&& after.ap == before.ap - 1
            &&& after.max_ap == before.max_ap
            &&& after.anxiety_counter == before.anxiety_counter
            &&& after.sobriety_counter == before.sobriety_counter
            &&& after@ == h.player
            &&& after.inventory@ == h.inventory
            &&& explosion == blast_at(dest, h.blast)
            &&& forall|p: Point|
                #![trigger now.cell_at(p)]
                now.cell_at(p) == after_gathering(world, dest, h.widest, p)
        } else {
            &&& after == before
            &&& explosion is None
            &&& forall|p: Point| #![trigger now.cell_at(p)] now.cell_at(p) == world.cell_at(p)
        },
    }
}

/// The player walks to the tile `dest`, if it lies within the world: into
/// a monster that stands there, which dies of it; or onto open ground,
/// where they pick up what lies there. Both cost an action point. A tree
/// stops them at no cost.
#[verifier::rlimit(40)]
pub fn walk(player: &mut Player, world: &mut World, dest: Point) -> (explosion: Option<Explosion>)
    requires
        old(player).wf(),
        old(world).wf(),
        old(world).within_bounds_spec(old(player).pos),
        old(player).ap >= 1,
    ensures
        final(player).wf(),
        final(world).wf(),
        final(world).settings() == old(world).settings(),
        final(world).first_dose() == old(world).first_dose(),
        walked(*old(player), *old(world), dest, *final(player), *final(world), explosion),
        old(world).cell_at(old(player).pos).monster is None ==>
            final(world).cell_at(final(player).pos).monster is None,
        no_new_monsters(*final(world), *old(world)),
        final(world).within_bounds_spec(final(player).pos),
        final(player).max_ap == old(player).max_ap,
        final(player).sobriety_counter == old(player).sobriety_counter,
        old(player).ap - 1 <= final(player).ap <= old(player).ap,
        forall|p: Point|
            #![trigger final(world).cell_at(p)]
            final(world).cell_at(p).tile == old(world).cell_at(p).tile,
{
    if !world.within_bounds(dest) {
        return None;
    }
    let dest_walkable = world.walkable(dest, Walkability::BlockingMonsters);
    let ghost w1 = *world;
    match world.monster_on_pos(dest) {
        Some(monster) => {
            let ghost w2 = *world;
            player.spend_ap(1);
            match monster.kind {
                crate::monster::Kind::Anxiety => {
                    let defeated = player.anxiety_counter.value() + 1;
                    if defeated >= crate::player::ANXIETIES_PER_WILL {
                        player.will = player.will.plus(1);
                        player.anxiety_counter.set_to_min();
                    } else {
                        player.anxiety_counter.set(defeated);
                    }
                },
                _ => {},
            }
            kill_monster(dest, world);
            proof {
                assert forall|p: Point|
                    #![trigger world.cell_at(p)]
                    world.cell_at(p).tile == old(world).cell_at(p).tile by {
                    assert(w2.cell_at(p) == w1.cell_at(p));
                    assert(w1.cell_at(p) == old(world).cell_at(p));
                }
            }
            None
        },
        None => {
            let ghost w2 = *world;
            proof {
                assert(w2.cell_at(dest) == old(world).cell_at(dest));
                assert(w1.cell_at(dest) == old(world).cell_at(dest));
            }
            if dest_walkable {
                player.spend_ap(1);
                player.move_to(dest);
                let ghost w3 = *world;
                let explosion = pick_up_all(player, world);
                proof {
                    assert forall|p: Point|
                        #![trigger world.cell_at(p)]
                        world.cell_at(p).tile == old(world).cell_at(p).tile by {
                        assert(w3.cell_at(p) == w1.cell_at(p));
                        assert(w1.cell_at(p) == old(world).cell_at(p));
                    }
                }
                explosion
            } else {
                proof {
                    assert forall|p: Point|
                        #![trigger world.cell_at(p)]
                        world.cell_at(p).tile == old(world).cell_at(p).tile by {
                        assert(w2.cell_at(p) == w1.cell_at(p));
                        assert(w1.cell_at(p) == old(world).cell_at(p));
                    }
                }
                None
            }
        },
    }
}

/// What carrying out `action` makes of the player `before` in the world
/// `world`.
pub open spec fn carried_out(
    before: Player,
    world: World,
    action: Action,
    after: Player,
    now: World,
    explosion: Option<Explosion>,
) -> bool {
    match action {
        Action::Move(dest) => walked(before, world, dest, after, now, explosion),
        Action::Use(kind) => used(before, world, kind, after, now, explosion),
        Action::Attack(_, _) => {
            &&& after == before
            &&& explosion is None
            &&& now.same_as(&world)
        },
    }
}

/// Carries out what the player does: a step or the use of an item.
pub fn apply_player_action(player: &mut Player, world: &mut World, action: Action) -> (explosion:
    Option<Explosion>)
    requires
        old(player).wf(),
        old(world).wf(),
        old(world).within_bounds_spec(old(player).pos),
        old(player).ap >= 1,
        !(action is Attack),
    ensures
        final(player).wf(),
        final(world).wf(),
        final(world).settings() == old(world).settings(),
        final(world).first_dose() == old(world).first_dose(),
        carried_out(*old(player), *old(world), action, *final(player), *final(world), explosion),
        old(world).cell_at(old(player).pos).monster is None ==>
            final(world).cell_at(final(player).pos).monster is None,
        no_new_monsters(*final(world), *old(world)),
        final(world).within_bounds_spec(final(player).pos),
        final(player).max_ap == old(player).max_ap,
        final(player).sobriety_counter == old(player).sobriety_counter,
        old(player).ap - 1 <= final(player).ap <= old(player).ap,
        forall|p: Point|
            #![trigger final(world).cell_at(p)]
            final(world).cell_at(p).tile == old(world).cell_at(p).tile,
{
    match action {
        Action::Move(dest) => walk(player, world, dest),
        Action::Use(kind) => use_item(player, world, kind),
        Action::Attack(_, _) => None,
    }
}

/// What is carried out in one world is carried out in every world that
/// holds the same on every tile.
proof fn lemma_same_world_same_outcome(
    before: Player,
    a: World,
    b: World,
    action: Action,
    after: Player,
    now: World,
    explosion: Option<Explosion>,
)
    requires
        a.same_as(&b),
        carried_out(before, a, action, after, now, explosion),
    ensures
        carried_out(before, b, action, after, now, explosion),
{
    assert forall|p: Point| a.cell_at(p) == b.cell_at(p) by {}
    match action {
        Action::Move(dest) => {
            assert(a.cell_at(dest) == b.cell_at(dest));
            assert(a.monster_at(dest) == b.monster_at(dest));
            assert(a.walkable_spec(dest, Walkability::BlockingMonsters) == b.walkable_spec(
                dest,
                Walkability::BlockingMonsters,
            ));
            let h = gather(empty_handed(before), a.cell_at(dest).items);
            assert forall|p: Point| without_monster(a, dest, p) == without_monster(b, dest, p) by {
                assert(a.cell_at(p) == b.cell_at(p));
            }
            assert forall|p: Point|
                after_gathering(a, dest, h.widest, p) == after_gathering(b, dest, h.widest, p) by {
                assert(a.cell_at(p) == b.cell_at(p));
            }
        },
        Action::Use(kind) => {
            assert forall|p: Point, r: int|
                after_blast(a, before.pos, r, p) == after_blast(b, before.pos, r, p) by {
                assert(a.cell_at(p) == b.cell_at(p));
            }
        },
        Action::Attack(_, _) => {},
    }
}

/// Whether the player can take a command: they are alive, they have an
/// action point, and a command waits.
pub open spec fn takes_command(player: Player, commands: Seq<Command>) -> bool {
    !player.dead && player.ap >= 1 && commands.len() > 0
}

/// What one command makes of the player, the world, the commands that
/// wait, the stream of random numbers and the log. A player who can take a
/// command takes the first: it is written to the log, what the player does
/// in place of what it asks for is found out, and that is carried out.
/// Else nothing happens.
pub open spec fn commanded(
    player: Player,
    commands: Seq<Command>,
    world: World,
    rng: Random,
    log: Seq<u8>,
    after: Player,
    waiting: Seq<Command>,
    now: World,
    rng_after: Random,
    log_after: Seq<u8>,
    explosion: Option<Explosion>,
) -> bool {
    if takes_command(player, commands) {
        &&& waiting == commands.drop_first()
        &&& log_after == log + commands[0].token() + seq![NEWLINE]
        &&& rng_after == rng_after_impulse(player, world, rng)
        &&& carried_out(
            player,
            world,
            overruling(player, command_action_spec(player.pos, commands[0]), world, rng),
            after,
            now,
            explosion,
        )
    } else {
        &&& after == player
        &&& waiting == commands
        &&& rng_after == rng
        &&& log_after == log
        &&& explosion is None
        &&& now.same_as(&world)
    }
}

/// One command of the player: the next command, if the player is alive and
/// has an action point, is taken off `commands`, written to `log`, turned
/// into what the player does, and carried out. Without a command, or
/// without a player who can act, nothing happens.
pub fn process_player_action(
    player: &mut Player,
    commands: &mut VecDeque<Command>,
    world: &mut World,
    rng: &mut Random,
    log: &mut Vec<u8>,
) -> (explosion: Option<Explosion>)
    requires
        old(player).wf(),
        old(world).wf(),
        old(world).within_bounds_spec(old(player).pos),
    ensures
        final(player).wf(),
        final(world).wf(),
        final(world).settings() == old(world).settings(),
        final(world).first_dose() == old(world).first_dose(),
        commanded(
            *old(player),
            old(commands)@,
            *old(world),
            *old(rng),
            old(log)@,
            *final(player),
            final(commands)@,
            *final(world),
            *final(rng),
            final(log)@,
            explosion,
        ),
        old(world).cell_at(old(player).pos).monster is None ==>
            final(world).cell_at(final(player).pos).monster is None,
        no_new_monsters(*final(world), *old(world)),
        final(world).within_bounds_spec(final(player).pos),
        final(player).max_ap == old(player).max_ap,
        final(player).sobriety_counter == old(player).sobriety_counter,
        old(player).ap - 1 <= final(player).ap <= old(player).ap,
        forall|p: Point|
            #![trigger final(world).cell_at(p)]
            final(world).cell_at(p).tile == old(world).cell_at(p).tile,
{
    if !player.alive() || !player.has_ap(1) {
        return None;
    }
    let command = match commands.pop_front() {
        Some(command) => command,
        None => {
            return None;
        },
    };
    proof {
        assert(commands@ =~= old(commands)@.drop_first());
    }
    log_command(log, command);
    let wanted = command_action(player.pos, command);
    let action = overruled_action(player, wanted, world, rng);
    let ghost seen = *world;
    let explosion = apply_player_action(player, world, action);
    proof {
        lemma_same_world_same_outcome(
            *old(player),
            seen,
            *old(world),
            action,
            *player,
            *world,
            explosion,
        );
        assert forall|p: Point|
            #![trigger world.cell_at(p)]
            world.cell_at(p).tile == old(world).cell_at(p).tile by {
            assert(seen.cell_at(p) == old(world).cell_at(p));
        }
    }
    explosion
}

/// No monster stands in `after` where none stood in `before`, and those
/// that still stand are as they were.
pub open spec fn no_new_monsters(after: World, before: World) -> bool {
    forall|p: Point|
        #![trigger after.cell_at(p)]
        after.cell_at(p).monster is Some ==> after.cell_at(p).monster == before.cell_at(p).monster
}

/// Between the two worlds nothing but monsters has changed: the tiles,
/// what lies on them and what was seen of them are the same.
pub open spec fn only_monsters_differ(a: World, b: World) -> bool {
    &&& a.settings() == b.settings()
    &&& a.first_dose() == b.first_dose()
    &&& forall|p: Point|
        #![trigger a.cell_at(p)]
        a.cell_at(p).tile == b.cell_at(p).tile && a.cell_at(p).items == b.cell_at(p).items
            && a.cell_at(p).explored == b.cell_at(p).explored
}

/// Every monster stands on open ground within the world, and none stands
/// where the player stands.
pub open spec fn monsters_placed_well(world: World, player: Point) -> bool {
    &&& world.cell_at(player).monster is None
    &&& forall|p: Point|
        #![trigger world.cell_at(p)]
        world.cell_at(p).monster is Some ==> world.cell_at(p).tile == TileKind::Empty
}

/// A game: the player, the world, the stream of random numbers, the
/// commands that wait to be carried out, the log of the commands that
/// were, and whose turn it is.
pub struct GameState {
    pub player: Player,
    pub world: World,
    pub rng: Random,
    pub commands: VecDeque<Command>,
    pub log: Vec<u8>,
    pub scheduler: Scheduler,
    pub explosion: Option<Explosion>,
    pub replay: bool,
}

/// `state` is a game as it begins: a sober player stands in the middle of
/// the world of seed `seed`, which nothing has changed yet; `commands`
/// wait; the log holds the seed and nothing else; and no turn has passed.
pub open spec fn is_new_game(
    state: GameState,
    seed: u32,
    max_half_size: i32,
    commands: Seq<Command>,
) -> bool {
    let spawn = Point { x: 0, y: 0 };
    &&& state.world.settings() == (crate::world::WorldSettings { seed, max_half_size, spawn })
    &&& state.world.first_dose() == crate::generators::first_dose_spec(seed, spawn)
    &&& state.world.pristine()
    &&& state.player.wf()
    &&& state.player.pos == spawn
    &&& !state.player.dead
    &&& state.player.inventory@.len() == 0
    &&& state.player.ap == crate::player::PLAYER_MAX_AP
    &&& state.player.max_ap == crate::player::PLAYER_MAX_AP
    &&& state.player.mind is Sober
    &&& state.player.mind->Sober_0.value_spec() == crate::player::SOBER_MAX
    &&& state.player.will.value_spec() == crate::player::WILL_START
    &&& state.player.tolerance == 0
    &&& state.player.stun.value_spec() == 0
    &&& state.player.panic.value_spec() == 0
    &&& state.player.anxiety_counter.value_spec() == 0
    &&& state.player.sobriety_counter.value_spec() == 0
    &&& state.rng == (Random { seed, drawn: 0 })
    &&& state.commands@ == commands
    &&& state.log@ == crate::replay::log_text(seed, Seq::empty())
    &&& state.scheduler == (Scheduler {
        side: crate::components::Side::Player,
        turn: 0,
        victory: false,
    })
    &&& state.explosion is None
}

impl GameState {
    pub open spec fn wf(&self) -> bool {
        &&& self.player.wf()
        &&& self.world.wf()
        &&& self.world.within_bounds_spec(self.player.pos)
        &&& monsters_placed_well(self.world, self.player.pos)
        &&& 0 <= self.scheduler.turn
    }

    /// A game in the world of seed `seed`. The player enters the world in
    /// its middle. The log starts with the seed.
    pub fn new(seed: u32, max_half_size: i32, commands: VecDeque<Command>, replay: bool) -> (state:
        GameState)
        requires
            0 < max_half_size <= crate::generators::WORLD_LIMIT,
        ensures
            state.wf(),
            is_new_game(state, seed, max_half_size, commands@),
            state.commands == commands,
            state.replay == replay,
    {
        let spawn = Point { x: 0, y: 0 };
        let world = World::new(seed, max_half_size, spawn);
        let mut log: Vec<u8> = Vec::new();
        crate::replay::log_seed(&mut log, seed);
        proof {
            crate::generators::lemma_generation_is_safe(seed, spawn, world.first_dose(), spawn);
            assert(world.cell_at(spawn) == crate::world::generated_cell(
                seed,
                spawn,
                world.first_dose(),
                spawn,
            ));
            assert forall|p: Point|
                #![trigger world.cell_at(p)]
                world.cell_at(p).monster is Some implies world.cell_at(p).tile
                == TileKind::Empty by {
                crate::generators::lemma_generation_is_safe(seed, spawn, world.first_dose(), p);
                assert(world.cell_at(p) == crate::world::generated_cell(
                    seed,
                    spawn,
                    world.first_dose(),
                    p,
                ));
            }
            assert(log@ =~= crate::replay::log_text(seed, Seq::empty()));
        }
        GameState {
            player: Player::new(spawn),
            world,
            rng: Random::from_seed(seed),
            commands,
            log,
            scheduler: Scheduler::new(),
            explosion: None,
            replay,
        }
    }

    /// The game that the log `text` records, as it begins: what a game that
    /// is played again starts from. A log that cannot be read is refused, and
    /// no game begins.
    pub fn replay_game(text: &Vec<u8>, max_half_size: i32) -> (game: Result<GameState, ReplayError>)
        requires
            0 < max_half_size <= crate::generators::WORLD_LIMIT,
        ensures
            match game {
                Ok(state) => replay_of(text@) matches Ok(read) && is_new_game(
                    state,
                    read.0,
                    max_half_size,
                    read.1,
                ) && state.wf() && state.replay,
                Err(e) => replay_of(text@) == Err::<(u32, Seq<Command>), ReplayError>(e),
            },
    {
        match parse_replay(text) {
            Ok(replay) => {
                let mut commands: VecDeque<Command> = VecDeque::new();
                let mut i: usize = 0;
                while i < replay.commands.len()
                    invariant
                        i <= replay.commands@.len(),
                        commands@ == replay.commands@.take(i as int),
                    decreases replay.commands@.len() - i,
                {
                    commands.push_back(replay.commands[i]);
                    proof {
                        assert(replay.commands@.take(i + 1) =~= replay.commands@.take(i as int).push(
                            replay.commands@[i as int],
                        ));
                    }
                    i = i + 1;
                }
                proof {
                    assert(replay.commands@.take(i as int) =~= replay.commands@);
                }
                Ok(GameState::new(replay.seed, max_half_size, commands, true))
            },
            Err(e) => Err(e),
        }
    }
}

/// Whether the player behaved themself this turn: they did something, are
/// not high, and their will is at its height.
pub open spec fn behaved(spent_ap: bool, player: &Player) -> bool {
    spent_ap && !(player.mind is High) && player.will.value_spec() == player.will.max_spec()
}

/// The run of turns in which the player behaved themself, after a turn
/// that made `acted` of the player `before`: it grows by a turn in which
/// they behaved, ends with a turn in which they did something else, and
/// stays as it is when they did nothing. Nothing else about `acted`
/// changes.
pub open spec fn counted(before: Player, acted: Player, after: Player) -> bool {
    &&& after.wf()
    &&& after.pos == acted.pos
    &&& after.mind == acted.mind
    &&& after.will == acted.will
    &&& after.tolerance == acted.tolerance
    &&& after.stun == acted.stun
    &&& after.panic == acted.panic
    &&& after.anxiety_counter == acted.anxiety_counter
    &&& after.inventory == acted.inventory
    &&& after.dead == acted.dead
    &&& after.max_ap == acted.max_ap
    &&& after.ap == acted.ap
    &&& if acted.ap < before.ap {
        after.sobriety_counter.value_spec() == if behaved(true, &acted) {
            held(acted.sobriety_counter.value_spec() + 1, 0, SOBRIETY_COUNTER_MAX as int)
        } else {
            0
        }
    } else {
        after.sobriety_counter == acted.sobriety_counter
    }
}

/// What the tile `p` holds after the player on `pos` has looked around.
pub open spec fn looked_at(world: World, pos: Point, mind: Mind, p: Point) -> CellView {
    if world.within_bounds_spec(p) && crate::point::closer_than(
        pos,
        exploration_radius_spec(mind),
    )(p) {
        CellView { explored: true, ..world.cell_at(p) }
    } else {
        world.cell_at(p)
    }
}

/// What the turn of the player makes of the game: their next command is
/// carried out, their run of turns in which they behaved themself grows or
/// ends, the game is won when the run is long enough, and they look
/// around.
pub open spec fn player_turned(before: GameState, after: GameState) -> bool {
    &&& after.replay == before.replay
    &&& after.world.settings() == before.world.settings()
    &&& after.world.first_dose() == before.world.first_dose()
    &&& after.scheduler == (Scheduler {
        victory: before.scheduler.victory || after.player.sobriety_counter.value_spec()
            == SOBRIETY_COUNTER_MAX,
        ..before.scheduler
    })
    &&& exists|acted: Player, seen: World, blast: Option<Explosion>|
        #![trigger commanded(before.player, before.commands@, before.world, before.rng, before.log@, acted, after.commands@, seen, after.rng, after.log@, blast)]
        commanded(
            before.player,
            before.commands@,
            before.world,
            before.rng,
            before.log@,
            acted,
            after.commands@,
            seen,
            after.rng,
            after.log@,
            blast,
        ) && counted(before.player, acted, after.player) && after.explosion == (if blast is Some {
            blast
        } else {
            before.explosion
        }) && (forall|p: Point|
            #![trigger after.world.cell_at(p)]
            after.world.cell_at(p) == looked_at(seen, acted.pos, acted.mind, p))
}

/// The turn of the player: their next command is carried out, their run of
/// turns in which they behaved themself grows or ends, the game is won
/// when the run is long enough, and they look around.
pub fn process_player(state: &mut GameState)
    requires
        old(state).player.wf(),
        old(state).world.wf(),
        old(state).world.within_bounds_spec(old(state).player.pos),
    ensures
        final(state).player.wf(),
        final(state).world.wf(),
        player_turned(*old(state), *final(state)),
        no_new_monsters(final(state).world, old(state).world),
        old(state).world.cell_at(old(state).player.pos).monster is None ==>
            final(state).world.cell_at(final(state).player.pos).monster is None,
        final(state).world.within_bounds_spec(final(state).player.pos),
        old(state).player.ap - 1 <= final(state).player.ap <= old(state).player.ap,
        forall|p: Point|
            #![trigger final(state).world.cell_at(p)]
            final(state).world.cell_at(p).tile == old(state).world.cell_at(p).tile,
{
    let previous_action_points = state.player.ap();
    let explosion = process_player_action(
        &mut state.player,
        &mut state.commands,
        &mut state.world,
        &mut state.rng,
        &mut state.log,
    );
    let ghost acted = state.player;
    let ghost seen = state.world;
    match explosion {
        Some(blast) => {
            state.explosion = Some(blast);
        },
        None => {},
    }
    let spent_ap_this_turn = previous_action_points > state.player.ap();
    if spent_ap_this_turn {
        if !state.player.mind.is_high() && state.player.will.is_max() {
            state.player.sobriety_counter = state.player.sobriety_counter.plus(1);
        } else {
            state.player.sobriety_counter.set_to_min();
        }
    }
    if state.player.sobriety_counter.is_max() {
        state.scheduler.declare_victory();
    }
    let radius = exploration_radius(state.player.mind);
    proof {
        state.world.lemma_extent();
    }
    state.world.explore(state.player.pos, radius);
    proof {
        assert(counted(old(state).player, acted, state.player));
        assert forall|p: Point|
            #![trigger state.world.cell_at(p)]
            state.world.cell_at(p) == looked_at(seen, acted.pos, acted.mind, p) by {}
        assert forall|p: Point|
            #![trigger state.world.cell_at(p)]
            state.world.cell_at(p).tile == old(state).world.cell_at(p).tile by {
            assert(seen.cell_at(p).tile == old(state).world.cell_at(p).tile);
        }
        assert(commanded(
            old(state).player,
            old(state).commands@,
            old(state).world,
            old(state).rng,
            old(state).log@,
            acted,
            state.commands@,
            seen,
            state.rng,
            state.log@,
            explosion,
        ));
    }
}

/// The player as their next turn begins: the action points are back, and
/// a stun and a panic have one turn less to go.
pub open spec fn next_turn(before: Player, after: Player) -> bool {
    &&& after.wf()
    &&& after.ap == before.max_ap
    &&& after.stun.value_spec() == held(before.stun.value_spec() - 1, 0, crate::player::EFFECT_MAX as int)
    &&& after.panic.value_spec() == held(
        before.panic.value_spec() - 1,
        0,
        crate::player::EFFECT_MAX as int,
    )
    &&& after.pos == before.pos
    &&& after.mind == before.mind
    &&& after.will == before.will
    &&& after.dead == before.dead
    &&& after.inventory == before.inventory
    &&& after.max_ap == before.max_ap
    &&& after.tolerance == before.tolerance
    &&& after.anxiety_counter == before.anxiety_counter
    &&& after.sobriety_counter == before.sobriety_counter
}

/// What the turn of the monsters makes of the game once the player has no
/// action point left: the monsters around the player get their action
/// points back and act in turn until none can any more; then a new round
/// begins, in which the player can act again.
pub open spec fn monsters_turned(before: GameState, after: GameState) -> bool {
    &&& after.replay == before.replay
    &&& after.commands == before.commands
    &&& after.log == before.log
    &&& after.explosion == before.explosion
    &&& after.scheduler == (Scheduler { turn: (before.scheduler.turn + 1) as i32, ..before.scheduler })
    &&& if before.player.dead {
        &&& next_turn(before.player, after.player)
        &&& after.rng == before.rng
        &&& after.world.same_as(&before.world)
    } else {
        exists|rested: World, turns: nat, hurt: Player|
            #![trigger monsters_ran(rested, before.player, before.rng, line_up(crate::world::monsters_among(before.world, square_points(before.player.pos, ACTIVE_RADIUS as int))), turns, after.world, hurt, after.rng)]
            is_rested(rested, before.world, before.player.pos) && monsters_ran(
                rested,
                before.player,
                before.rng,
                line_up(
                    crate::world::monsters_among(
                        before.world,
                        square_points(before.player.pos, ACTIVE_RADIUS as int),
                    ),
                ),
                turns,
                after.world,
                hurt,
                after.rng,
            ) && next_turn(hurt, after.player)
    }
}

/// What one step makes of the game: the turn of the player and, once the
/// player has no action point left, the turn of the monsters. After a
/// victory nothing happens.
#[verifier::opaque]
pub open spec fn game_stepped(before: GameState, after: GameState) -> bool {
    if before.scheduler.victory {
        &&& after.scheduler == before.scheduler
        &&& after.player == before.player
        &&& after.commands == before.commands
        &&& after.log == before.log
        &&& after.rng == before.rng
        &&& after.explosion == before.explosion
        &&& after.replay == before.replay
        &&& after.world.same_as(&before.world)
    } else {
        exists|mid: GameState|
            #![trigger player_turned(before, mid)]
            player_turned(before, mid) && if mid.player.ap <= 0 {
                monsters_turned(mid, after)
            } else {
                after == mid
            }
    }
}

/// One step of the game: the turn of the player and, once the player has
/// no action point left, the turn of the monsters, after which a new round
/// begins. After a victory nothing happens.
pub fn step(state: &mut GameState)
    requires
        old(state).wf(),
        old(state).scheduler.turn < i32::MAX,
    ensures
        final(state).wf(),
        game_stepped(*old(state), *final(state)),
        final(state).world.settings() == old(state).world.settings(),
        final(state).scheduler.side == old(state).scheduler.side,
        old(state).scheduler.turn <= final(state).scheduler.turn <= old(state).scheduler.turn + 1,
        forall|p: Point|
            #![trigger final(state).world.cell_at(p)]
            final(state).world.cell_at(p).tile == old(state).world.cell_at(p).tile,
{
    proof {
        reveal(game_stepped);
    }
    if state.scheduler.victory {
        return ;
    }
    process_player(state);
    let ghost mid = *state;
    proof {
        assert forall|p: Point|
            #![trigger mid.world.cell_at(p)]
            mid.world.cell_at(p).monster is Some implies mid.world.cell_at(p).tile
            == TileKind::Empty by {
            assert(mid.world.cell_at(p).tile == old(state).world.cell_at(p).tile);
        }
    }
    if state.player.ap() <= 0 {
        process_monsters(&mut state.world, &mut state.player, &mut state.rng);
        let ghost hurt = state.player;
        let ghost fought = *state;
        state.player.new_turn();
        state.scheduler.turn = state.scheduler.turn + 1;
        proof {
            assert(next_turn(hurt, state.player));
            assert(state.world == fought.world && state.rng == fought.rng);
            if !mid.player.dead {
                let line = line_up(
                    crate::world::monsters_among(
                        mid.world,
                        square_points(mid.player.pos, ACTIVE_RADIUS as int),
                    ),
                );
                let (rested, turns) = choose|rested: World, turns: nat|
                    #![trigger monsters_ran(rested, mid.player, mid.rng, line, turns, fought.world, fought.player, fought.rng)]
                    is_rested(rested, mid.world, mid.player.pos) && monsters_ran(
                        rested,
                        mid.player,
                        mid.rng,
                        line,
                        turns,
                        fought.world,
                        fought.player,
                        fought.rng,
                    );
                assert(monsters_ran(
                    rested,
                    mid.player,
                    mid.rng,
                    line,
                    turns,
                    state.world,
                    hurt,
                    state.rng,
                ));
            }
            assert(state.commands == mid.commands);
            assert(state.log == mid.log);
            assert(state.explosion == mid.explosion);
            assert(state.replay == mid.replay);
            assert(state.scheduler == (Scheduler {
                turn: (mid.scheduler.turn + 1) as i32,
                ..mid.scheduler
            }));
            assert(monsters_turned(mid, *state));
            assert forall|p: Point|
                #![trigger state.world.cell_at(p)]
                state.world.cell_at(p).tile == old(state).world.cell_at(p).tile by {
                assert(mid.world.cell_at(p).tile == old(state).world.cell_at(p).tile);
            }
        }
    }
}

} // verus!
