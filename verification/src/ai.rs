//! The decisions of computer-controlled entities.
//!
//! A decision reads the one who acts, what is known of the player, the
//! world and the stream of random numbers, and gives back what the actor
//! wants to change about itself and what it wants to do. It changes nothing
//! about the actor: to commit the update and to carry out the action is up
//! to the caller. The one thing a decision does to the world is the howl of
//! a pack attacker, which alerts the rest of the pack.
//!
//! Who is next to whom and who is in chasing range is measured in tile
//! steps. How near the player is to a friendly creature is measured along
//! the straight line.

use crate::generators::well_inside;
use crate::item;
use crate::monster::{damage_of, Damage, Monster, Walkability};
use crate::point::{distance_squared_spec, tile_distance_spec, Point};
use crate::random::Random;
use crate::world::{position_in_range_spec, random_neighbour_spec, CellView, World};
use vstd::prelude::*;

verus! {

/// A monster chases the player from this many steps away.
pub const CHASING_DISTANCE: u32 = 5;

/// A howl is heard this many steps away.
pub const HOWLING_DISTANCE: i32 = 8;

/// A friendly creature stands still while the player is no farther than
/// this.
pub const FRIENDLY_NPC_FREEZE_RADIUS: i32 = 6;

/// The action points of a friendly creature while the player is high: it
/// is slowed down to one action a turn.
pub const ESTRANGED_NPC_MAX_AP: i32 = 1;

/// The policy an entity follows. It is fixed when the entity is created.
#[derive(Copy, Clone, Debug, PartialEq, Eq, Structural)]
pub enum Behavior {
    LoneAttacker,
    PackAttacker,
    Friendly,
    Immobile,
}

/// What an entity is doing. It changes with every decision.
#[derive(Copy, Clone, Debug, PartialEq, Eq, Structural)]
pub enum AIState {
    Idle,
    Chasing,
    CheckingOut(Point),
    NoOp,
}

/// Values the AI can update about itself before performing the action it
/// decided to make.
#[derive(Copy, Clone, Debug, PartialEq, Eq, Structural)]
pub struct Update {
    pub ai_state: AIState,
    pub max_ap: i32,
}

/// What an entity wants to do.
#[derive(Copy, Clone, Debug, PartialEq, Eq, Structural)]
pub enum Action {
    Move(Point),
    Attack(Point, Damage),
    Use(item::Kind),
}

/// What a decision knows of the player.
#[derive(Copy, Clone, Debug, PartialEq, Eq, Structural)]
pub struct PlayerInfo {
    pub pos: Point,
    /// Whether the player is high.
    pub high: bool,
    pub max_ap: i32,
}

/// What a decision gives back: the update, the action and the stream of
/// random numbers after the decision.
pub struct Decision {
    pub update: Update,
    pub action: Action,
    pub rng: Random,
}

/// Doing nothing: the actor stays what it is and where it is.
pub open spec fn noop_spec(actor: Monster) -> (Update, Action) {
    (Update { ai_state: actor.ai_state, max_ap: actor.max_ap }, Action::Move(actor.position))
}

/// An actor next to its target attacks it; any other actor moves towards
/// it.
pub open spec fn chasing_spec(actor: Monster, target: Point) -> Action {
    if tile_distance_spec(actor.position, target) == 1 {
        Action::Attack(target, damage_of(actor.kind))
    } else {
        Action::Move(target)
    }
}

/// Where an idle actor goes, and the stream of random numbers after the
/// choice: on to where it was heading; else to a tile it can step on
/// between 2 and 8 steps away; else to a neighbouring tile it can step on;
/// else nowhere.
pub open spec fn idle_destination_spec(
    actor: Monster,
    world: World,
    rng: Random,
    player: Point,
) -> (Point, Random) {
    match actor.destination {
        Some(destination) => (destination, rng),
        None => {
            let (found, after) = position_in_range_spec(
                world,
                rng,
                actor.position,
                2,
                8,
                10,
                actor.blockers,
                player,
            );
            match found {
                Some(p) => (p, after),
                None => (
                    random_neighbour_spec(world, after, actor.position, actor.blockers, player),
                    if crate::world::open_among(
                        world,
                        crate::world::neighbours(actor.position),
                        actor.blockers,
                        player,
                    ).len() == 0 {
                        after
                    } else {
                        after.advanced()
                    },
                ),
            }
        },
    }
}

/// The state a lone attacker is in after looking for the player.
pub open spec fn lone_state(actor: Monster, player: Point) -> AIState {
    if tile_distance_spec(actor.position, player) <= CHASING_DISTANCE {
        AIState::Chasing
    } else {
        AIState::Idle
    }
}

/// The state a pack attacker is in after looking for the player: chasing
/// when the player is in range; idle when it has lost the player; else what
/// it was.
pub open spec fn pack_state(actor: Monster, player: Point) -> AIState {
    if tile_distance_spec(actor.position, player) <= CHASING_DISTANCE {
        AIState::Chasing
    } else if actor.ai_state == AIState::Chasing {
        AIState::Idle
    } else {
        actor.ai_state
    }
}

/// What an actor in the state `state` does.
pub open spec fn act_in_state(
    actor: Monster,
    state: AIState,
    world: World,
    rng: Random,
    player: Point,
) -> Decision {
    let update = Update { ai_state: state, max_ap: actor.max_ap };
    match state {
        AIState::Chasing => Decision { update, action: chasing_spec(actor, player), rng },
        AIState::Idle => {
            let (destination, after) = idle_destination_spec(actor, world, rng, player);
            Decision { update, action: Action::Move(destination), rng: after }
        },
        AIState::CheckingOut(destination) => Decision {
            update,
            action: Action::Move(destination),
            rng,
        },
        AIState::NoOp => Decision { update, action: Action::Move(actor.position), rng },
    }
}

/// The decision of a lone attacker.
pub open spec fn lone_attacker_spec(
    actor: Monster,
    info: PlayerInfo,
    world: World,
    rng: Random,
) -> Decision {
    if actor.ai_state == AIState::NoOp {
        Decision { update: noop_spec(actor).0, action: noop_spec(actor).1, rng }
    } else {
        act_in_state(actor, lone_state(actor, info.pos), world, rng, info.pos)
    }
}

/// The decision of a pack attacker.
pub open spec fn pack_attacker_spec(
    actor: Monster,
    info: PlayerInfo,
    world: World,
    rng: Random,
) -> Decision {
    if actor.ai_state == AIState::NoOp {
        Decision { update: noop_spec(actor).0, action: noop_spec(actor).1, rng }
    } else {
        act_in_state(actor, pack_state(actor, info.pos), world, rng, info.pos)
    }
}

/// Whether the actor howls: it is a pack attacker that was not chasing and
/// now is.
pub open spec fn howls(actor: Monster, player: Point) -> bool {
    actor.ai_state != AIState::NoOp && actor.ai_state != AIState::Chasing && pack_state(
        actor,
        player,
    ) == AIState::Chasing
}

/// Whether the monster `m` hears the howl of `actor`: it is another pack
/// attacker within earshot that is not chasing yet.
pub open spec fn hears_howl(actor: Monster, m: Monster) -> bool {
    &&& m.position != actor.position
    &&& tile_distance_spec(m.position, actor.position) <= HOWLING_DISTANCE
    &&& m.behavior == Behavior::PackAttacker
    &&& m.ai_state != AIState::Chasing
}

/// What the tile `p` holds after the howl of `actor`: a monster that hears
/// it goes to check out where the player is.
pub open spec fn after_howl(world: World, actor: Monster, player: Point, p: Point) -> CellView {
    match world.monster_at(p) {
        Some(m) => if hears_howl(actor, m) {
            CellView {
                monster: Some(Monster { ai_state: AIState::CheckingOut(player), ..m }),
                ..world.cell_at(p)
            }
        } else {
            world.cell_at(p)
        },
        None => world.cell_at(p),
    }
}

/// Where a friendly creature goes, and the stream of random numbers after
/// the choice: to a tile near the player when it accompanies them; nowhere
/// when the player is near and not high; else where an idle actor goes.
pub open spec fn friendly_destination_spec(
    actor: Monster,
    info: PlayerInfo,
    world: World,
    rng: Random,
) -> (Point, Random) {
    if actor.accompanying_player {
        let (found, after) = position_in_range_spec(
            world,
            rng,
            info.pos,
            1,
            3,
            10,
            actor.blockers,
            info.pos,
        );
        match found {
            Some(p) => (p, after),
            None => (info.pos, after),
        }
    } else if distance_squared_spec(info.pos, actor.position) <= FRIENDLY_NPC_FREEZE_RADIUS
        * FRIENDLY_NPC_FREEZE_RADIUS && !info.high {
        (actor.position, rng)
    } else {
        idle_destination_spec(actor, world, rng, info.pos)
    }
}

/// The decision of a friendly creature. It never attacks. It is as quick
/// as the player, and slowed down while the player is high.
pub open spec fn friendly_spec(actor: Monster, info: PlayerInfo, world: World, rng: Random) -> Decision {
    if actor.ai_state == AIState::NoOp {
        Decision { update: noop_spec(actor).0, action: noop_spec(actor).1, rng }
    } else {
        let (destination, after) = friendly_destination_spec(actor, info, world, rng);
        Decision {
            update: Update {
                ai_state: actor.ai_state,
                max_ap: if info.high {
                    ESTRANGED_NPC_MAX_AP
                } else {
                    info.max_ap
                },
            },
            action: Action::Move(destination),
            rng: after,
        }
    }
}

/// The decision of an actor, by its behaviour.
pub open spec fn decision_spec(actor: Monster, info: PlayerInfo, world: World, rng: Random) -> Decision {
    match actor.behavior {
        Behavior::LoneAttacker => lone_attacker_spec(actor, info, world, rng),
        Behavior::PackAttacker => pack_attacker_spec(actor, info, world, rng),
        Behavior::Friendly => friendly_spec(actor, info, world, rng),
        Behavior::Immobile => Decision {
            update: noop_spec(actor).0,
            action: noop_spec(actor).1,
            rng,
        },
    }
}

pub fn noop_action(actor: &Monster) -> (r: (Update, Action))
    ensures
        r == noop_spec(*actor),
{
    let update = Update { ai_state: actor.ai_state, max_ap: actor.max_ap };
    let action = Action::Move(actor.position);
    (update, action)
}

pub fn chasing_action(actor: &Monster, target_position: Point) -> (action: Action)
    ensures
        action == chasing_spec(*actor, target_position),
{
    if actor.position.tile_distance(target_position) == 1 {
        Action::Attack(target_position, actor.attack_damage())
    } else {
        Action::Move(target_position)
    }
}

pub fn idle_destination(
    actor: &Monster,
    world: &mut World,
    rng: &mut Random,
    player_position: Point,
) -> (destination: Point)
    requires
        old(world).wf(),
    ensures
        final(world).wf(),
        final(world).same_as(old(world)),
        destination == idle_destination_spec(*actor, *old(world), *old(rng), player_position).0,
        *final(rng) == idle_destination_spec(*actor, *old(world), *old(rng), player_position).1,
{
    match actor.destination {
        Some(destination) => destination,
        None => {
            let found = world.random_position_in_range(
                rng,
                actor.position,
                2,
                8,
                10,
                actor.blockers,
                player_position,
            );
            let ghost mid = *world;
            let ghost after = *rng;
            match found {
                Some(p) => p,
                None => {
                    let p = world.random_neighbour_position(
                        rng,
                        actor.position,
                        actor.blockers,
                        player_position,
                    );
                    proof {
                        lemma_same_world_same_choices(
                            mid,
                            *old(world),
                            after,
                            actor.position,
                            actor.blockers,
                            player_position,
                        );
                    }
                    p
                },
            }
        },
    }
}

/// Worlds that hold the same give the same choice of neighbours.
pub proof fn lemma_same_world_same_choices(
    a: World,
    b: World,
    rng: Random,
    pos: Point,
    walkability: Walkability,
    player: Point,
)
    requires
        a.same_as(&b),
    ensures
        crate::world::open_among(a, crate::world::neighbours(pos), walkability, player)
            == crate::world::open_among(b, crate::world::neighbours(pos), walkability, player),
        random_neighbour_spec(a, rng, pos, walkability, player) == random_neighbour_spec(
            b,
            rng,
            pos,
            walkability,
            player,
        ),
{
    lemma_same_open_among(a, b, crate::world::neighbours(pos), walkability, player);
}

/// Worlds that hold the same give the same tile within a range.
proof fn lemma_same_position_in_range(
    a: World,
    b: World,
    rng: Random,
    start: Point,
    nearest: i32,
    farthest: i32,
    tries: nat,
    walkability: Walkability,
    player: Point,
)
    requires
        a.same_as(&b),
    ensures
        position_in_range_spec(a, rng, start, nearest, farthest, tries, walkability, player)
            == position_in_range_spec(b, rng, start, nearest, farthest, tries, walkability, player),
    decreases tries,
{
    if tries > 0 {
        let dx = rng.peek_range((-farthest) as i32, (farthest + 1) as i32);
        let dy = rng.advanced().peek_range((-farthest) as i32, (farthest + 1) as i32);
        let after = rng.advanced().advanced();
        assert(crate::world::try_fits(a, start, dx, dy, nearest, walkability, player)
            == crate::world::try_fits(b, start, dx, dy, nearest, walkability, player)) by {
            if i32::MIN <= start.x + dx <= i32::MAX && i32::MIN <= start.y + dy <= i32::MAX {
                let p = Point { x: (start.x + dx) as i32, y: (start.y + dy) as i32 };
                assert(a.cell_at(p) == b.cell_at(p));
            }
        }
        lemma_same_position_in_range(
            a,
            b,
            after,
            start,
            nearest,
            farthest,
            (tries - 1) as nat,
            walkability,
            player,
        );
    }
}

/// Worlds that hold the same lead an actor to the same decision.
pub proof fn lemma_same_world_same_decision(
    a: World,
    b: World,
    actor: Monster,
    info: PlayerInfo,
    rng: Random,
)
    requires
        a.same_as(&b),
    ensures
        decision_spec(actor, info, a, rng) == decision_spec(actor, info, b, rng),
{
    lemma_same_position_in_range(a, b, rng, actor.position, 2, 8, 10, actor.blockers, info.pos);
    lemma_same_position_in_range(a, b, rng, info.pos, 1, 3, 10, actor.blockers, info.pos);
    let after = position_in_range_spec(
        a,
        rng,
        actor.position,
        2,
        8,
        10,
        actor.blockers,
        info.pos,
    ).1;
    lemma_same_world_same_choices(a, b, after, actor.position, actor.blockers, info.pos);
}

proof fn lemma_same_open_among(
    a: World,
    b: World,
    points: Seq<Option<Point>>,
    walkability: Walkability,
    player: Point,
)
    requires
        a.same_as(&b),
    ensures
        crate::world::open_among(a, points, walkability, player) == crate::world::open_among(
            b,
            points,
            walkability,
            player,
        ),
    decreases points.len(),
{
    if points.len() > 0 {
        lemma_same_open_among(a, b, points.drop_last(), walkability, player);
        match points.last() {
            Some(p) => {
                assert(a.cell_at(p) == b.cell_at(p));
            },
            None => {},
        }
    }
}

fn same_state(a: AIState, b: AIState) -> (r: bool)
    ensures
        r == (a == b),
{
    match (a, b) {
        (AIState::Idle, AIState::Idle) => true,
        (AIState::Chasing, AIState::Chasing) => true,
        (AIState::NoOp, AIState::NoOp) => true,
        (AIState::CheckingOut(p), AIState::CheckingOut(q)) => p.x == q.x && p.y == q.y,
        _ => false,
    }
}

fn act_on_state(
    actor: &Monster,
    state: AIState,
    world: &mut World,
    rng: &mut Random,
    player: Point,
) -> (r: (Update, Action))
    requires
        old(world).wf(),
    ensures
        final(world).wf(),
        final(world).same_as(old(world)),
        r.0 == act_in_state(*actor, state, *old(world), *old(rng), player).update,
        r.1 == act_in_state(*actor, state, *old(world), *old(rng), player).action,
        *final(rng) == act_in_state(*actor, state, *old(world), *old(rng), player).rng,
{
    let update = Update { ai_state: state, max_ap: actor.max_ap };
    let action = match state {
        AIState::Chasing => chasing_action(actor, player),
        AIState::Idle => {
            let destination = idle_destination(actor, world, rng, player);
            Action::Move(destination)
        },
        AIState::CheckingOut(destination) => Action::Move(destination),
        AIState::NoOp => Action::Move(actor.position),
    };
    (update, action)
}

pub fn lone_attacker_act(
    actor: &Monster,
    player_info: PlayerInfo,
    world: &mut World,
    rng: &mut Random,
) -> (r: (Update, Action))
    requires
        old(world).wf(),
    ensures
        final(world).wf(),
        final(world).same_as(old(world)),
        r.0 == lone_attacker_spec(*actor, player_info, *old(world), *old(rng)).update,
        r.1 == lone_attacker_spec(*actor, player_info, *old(world), *old(rng)).action,
        *final(rng) == lone_attacker_spec(*actor, player_info, *old(world), *old(rng)).rng,
{
    if same_state(actor.ai_state, AIState::NoOp) {
        return noop_action(actor);
    }
    let distance = actor.position.tile_distance(player_info.pos);
    let ai_state = if distance <= CHASING_DISTANCE {
        AIState::Chasing
    } else {
        AIState::Idle
    };
    act_on_state(actor, ai_state, world, rng, player_info.pos)
}

/// Alerts the pack: every other pack attacker within earshot of `actor`
/// that is not chasing yet goes to check out where the player is.
pub fn howl(actor: &Monster, player: Point, world: &mut World)
    requires
        old(world).wf(),
        well_inside(actor.position),
    ensures
        final(world).wf(),
        final(world).settings() == old(world).settings(),
        final(world).first_dose() == old(world).first_dose(),
        forall|p: Point|
            #![trigger final(world).cell_at(p)]
            final(world).cell_at(p) == after_howl(*old(world), *actor, player, p),
{
    let pack = world.monsters_around(actor.position, HOWLING_DISTANCE);
    let ghost start = *world;
    let mut i: usize = 0;
    while i < pack.len()
        invariant
            world.wf(),
            start.wf(),
            start.same_as(old(world)),
            world.settings() == old(world).settings(),
            world.first_dose() == old(world).first_dose(),
            i <= pack@.len(),
            forall|k: int|
                0 <= k < pack@.len() ==> (#[trigger] pack@[k]).wf() && old(world).monster_at(
                    pack@[k].position,
                ) == Some(pack@[k]) && tile_distance_spec(pack@[k].position, actor.position)
                    <= HOWLING_DISTANCE,
            forall|p: Point|
                #![trigger world.cell_at(p)]
                world.cell_at(p) == if exists|k: int|
                    0 <= k < i && (#[trigger] pack@[k]).position == p && hears_howl(*actor, pack@[k]) {
                    after_howl(*old(world), *actor, player, p)
                } else {
                    old(world).cell_at(p)
                },
        decreases pack@.len() - i,
    {
        let m = pack[i];
        let ghost before = *world;
        let other = !(m.position.x == actor.position.x && m.position.y == actor.position.y);
        let is_pack = match m.behavior {
            Behavior::PackAttacker => true,
            _ => false,
        };
        if other && is_pack && !same_state(m.ai_state, AIState::Chasing) {
            let mut alerted = m;
            alerted.ai_state = AIState::CheckingOut(player);
            world.set_monster(alerted);
            proof {
                assert(old(world).within_bounds_spec(m.position));
            }
        }
        proof {
            assert forall|p: Point|
                #![trigger world.cell_at(p)]
                world.cell_at(p) == if exists|k: int|
                    0 <= k < i + 1 && (#[trigger] pack@[k]).position == p && hears_howl(
                        *actor,
                        pack@[k],
                    ) {
                    after_howl(*old(world), *actor, player, p)
                } else {
                    old(world).cell_at(p)
                } by {
                let was = exists|k: int|
                    0 <= k < i && (#[trigger] pack@[k]).position == p && hears_howl(*actor, pack@[k]);
                let is = exists|k: int|
                    0 <= k < i + 1 && (#[trigger] pack@[k]).position == p && hears_howl(
                        *actor,
                        pack@[k],
                    );
                assert(before.cell_at(p) == if was {
                    after_howl(*old(world), *actor, player, p)
                } else {
                    old(world).cell_at(p)
                });
                if p == m.position && hears_howl(*actor, m) {
                    assert(pack@[i as int].position == p && hears_howl(*actor, pack@[i as int]));
                    assert(is);
                    assert(old(world).monster_at(p) == Some(m));
                    if was {
                        let k = choose|k: int|
                            0 <= k < i && (#[trigger] pack@[k]).position == p && hears_howl(
                                *actor,
                                pack@[k],
                            );
                        assert(old(world).monster_at(pack@[k].position) == Some(pack@[k]));
                    }
                } else {
                    if is {
                        let k = choose|k: int|
                            0 <= k < i + 1 && (#[trigger] pack@[k]).position == p && hears_howl(
                                *actor,
                                pack@[k],
                            );
                        assert(k < i);
                        assert(was);
                    }
                    if was {
                        let k = choose|k: int|
                            0 <= k < i && (#[trigger] pack@[k]).position == p && hears_howl(
                                *actor,
                                pack@[k],
                            );
                        assert(is);
                    }
                }
            }
        }
        i = i + 1;
    }
    proof {
        assert forall|p: Point|
            #![trigger world.cell_at(p)]
            world.cell_at(p) == after_howl(*old(world), *actor, player, p) by {
            let heard = exists|k: int|
                0 <= k < pack@.len() && (#[trigger] pack@[k]).position == p && hears_howl(
                    *actor,
                    pack@[k],
                );
            if !heard {
                match old(world).monster_at(p) {
                    Some(m) => {
                        old(world).lemma_monsters_know_their_place(p);
                        if hears_howl(*actor, m) {
                            assert(pack@.contains(m));
                            let k = choose|k: int| 0 <= k < pack@.len() && pack@[k] == m;
                            assert(pack@[k].position == p && hears_howl(*actor, pack@[k]));
                        }
                    },
                    None => {},
                }
            } else {
                let k = choose|k: int|
                    0 <= k < pack@.len() && (#[trigger] pack@[k]).position == p && hears_howl(
                        *actor,
                        pack@[k],
                    );
                assert(old(world).monster_at(pack@[k].position) == Some(pack@[k]));
            }
        }
    }
}

pub fn pack_attacker_act(
    actor: &Monster,
    player_info: PlayerInfo,
    world: &mut World,
    rng: &mut Random,
) -> (r: (Update, Action))
    requires
        old(world).wf(),
        well_inside(actor.position),
    ensures
        final(world).wf(),
        final(world).settings() == old(world).settings(),
        final(world).first_dose() == old(world).first_dose(),
        forall|p: Point|
            #![trigger final(world).cell_at(p)]
            final(world).cell_at(p) == if howls(*actor, player_info.pos) {
                after_howl(*old(world), *actor, player_info.pos, p)
            } else {
                old(world).cell_at(p)
            },
        r.0 == pack_attacker_spec(*actor, player_info, *old(world), *old(rng)).update,
        r.1 == pack_attacker_spec(*actor, player_info, *old(world), *old(rng)).action,
        *final(rng) == pack_attacker_spec(*actor, player_info, *old(world), *old(rng)).rng,
{
    if same_state(actor.ai_state, AIState::NoOp) {
        return noop_action(actor);
    }
    let player_distance = actor.position.tile_distance(player_info.pos);
    let was_chasing = same_state(actor.ai_state, AIState::Chasing);
    let ai_state = if player_distance <= CHASING_DISTANCE {
        AIState::Chasing
    } else if was_chasing {
        AIState::Idle
    } else {
        actor.ai_state
    };
    match ai_state {
        AIState::Chasing => {
            if !was_chasing {
                howl(actor, player_info.pos, world);
            }
            let update = Update { ai_state, max_ap: actor.max_ap };
            (update, chasing_action(actor, player_info.pos))
        },
        _ => act_on_state(actor, ai_state, world, rng, player_info.pos),
    }
}

pub fn friendly_act(
    actor: &Monster,
    player_info: PlayerInfo,
    world: &mut World,
    rng: &mut Random,
) -> (r: (Update, Action))
    requires
        old(world).wf(),
    ensures
        final(world).wf(),
        final(world).same_as(old(world)),
        r.0 == friendly_spec(*actor, player_info, *old(world), *old(rng)).update,
        r.1 == friendly_spec(*actor, player_info, *old(world), *old(rng)).action,
        *final(rng) == friendly_spec(*actor, player_info, *old(world), *old(rng)).rng,
        r.1 is Move,
{
    if same_state(actor.ai_state, AIState::NoOp) {
        return noop_action(actor);
    }
    let player_is_nearby = player_info.pos.within_reach(actor.position, FRIENDLY_NPC_FREEZE_RADIUS);
    let destination = if actor.accompanying_player {
        match world.random_position_in_range(
            rng,
            player_info.pos,
            1,
            3,
            10,
            actor.blockers,
            player_info.pos,
        ) {
            Some(p) => p,
            None => player_info.pos,
        }
    } else if player_is_nearby && !player_info.high {
        actor.position
    } else {
        idle_destination(actor, world, rng, player_info.pos)
    };
    let update = Update {
        ai_state: actor.ai_state,
        max_ap: if player_info.high {
            ESTRANGED_NPC_MAX_AP
        } else {
            player_info.max_ap
        },
    };
    (update, Action::Move(destination))
}

pub fn noop_act(
    actor: &Monster,
    _player_info: PlayerInfo,
    _world: &mut World,
    _rng: &mut Random,
) -> (r: (Update, Action))
    ensures
        r == noop_spec(*actor),
        *final(_world) == *old(_world),
        *final(_rng) == *old(_rng),
{
    noop_action(actor)
}

/// The decision of `actor`, by its behaviour.
pub fn decide(actor: &Monster, player_info: PlayerInfo, world: &mut World, rng: &mut Random) -> (r: (
    Update,
    Action,
))
    requires
        old(world).wf(),
        well_inside(actor.position),
    ensures
        final(world).wf(),
        final(world).settings() == old(world).settings(),
        final(world).first_dose() == old(world).first_dose(),
        forall|p: Point|
            #![trigger final(world).cell_at(p)]
            final(world).cell_at(p) == if actor.behavior == Behavior::PackAttacker && howls(
                *actor,
                player_info.pos,
            ) {
                after_howl(*old(world), *actor, player_info.pos, p)
            } else {
                old(world).cell_at(p)
            },
        r.0 == decision_spec(*actor, player_info, *old(world), *old(rng)).update,
        r.1 == decision_spec(*actor, player_info, *old(world), *old(rng)).action,
        *final(rng) == decision_spec(*actor, player_info, *old(world), *old(rng)).rng,
{
    match actor.behavior {
        Behavior::LoneAttacker => lone_attacker_act(actor, player_info, world, rng),
        Behavior::PackAttacker => pack_attacker_act(actor, player_info, world, rng),
        Behavior::Friendly => friendly_act(actor, player_info, world, rng),
        Behavior::Immobile => noop_act(actor, player_info, world, rng),
    }
}

/// A monster that hears a howl checks out where the player is; a monster
/// that is chasing already, and every other monster, stays as it is.
pub proof fn lemma_howl_alerts_the_pack(world: World, actor: Monster, player: Point, p: Point)
    requires
        world.wf(),
    ensures
        world.monster_at(p) matches Some(m) ==> (if hears_howl(actor, m) {
            after_howl(world, actor, player, p).monster == Some(
                Monster { ai_state: AIState::CheckingOut(player), ..m },
            )
        } else {
            after_howl(world, actor, player, p).monster == Some(m)
        }),
        world.monster_at(p) matches Some(m) ==> m.ai_state == AIState::Chasing ==> after_howl(
            world,
            actor,
            player,
            p,
        ) == world.cell_at(p),
        after_howl(world, actor, player, p).tile == world.cell_at(p).tile,
        after_howl(world, actor, player, p).items == world.cell_at(p).items,
        after_howl(world, actor, player, p).explored == world.cell_at(p).explored,
{
}

/// An actor next to the player attacks, whatever else its state would have
/// it do, unless it is friendly or does nothing at all.
pub proof fn lemma_adjacent_actor_attacks(
    actor: Monster,
    info: PlayerInfo,
    world: World,
    rng: Random,
)
    requires
        tile_distance_spec(actor.position, info.pos) == 1,
        actor.ai_state != AIState::NoOp,
        actor.behavior == Behavior::LoneAttacker || actor.behavior == Behavior::PackAttacker,
    ensures
        decision_spec(actor, info, world, rng).action == Action::Attack(
            info.pos,
            damage_of(actor.kind),
        ),
        decision_spec(actor, info, world, rng).update.ai_state == AIState::Chasing,
{
}

/// A friendly creature and one that does nothing never attack.
pub proof fn lemma_friendly_never_attacks(
    actor: Monster,
    info: PlayerInfo,
    world: World,
    rng: Random,
)
    requires
        actor.behavior == Behavior::Friendly || actor.behavior == Behavior::Immobile
            || actor.ai_state == AIState::NoOp,
    ensures
        decision_spec(actor, info, world, rng).action is Move,
        actor.behavior == Behavior::Immobile || actor.ai_state == AIState::NoOp ==> decision_spec(
            actor,
            info,
            world,
            rng,
        ).action == Action::Move(actor.position),
{
}

} // verus!
