//! The systems: each looks at one entity of the component store and does
//! one thing to it. An entity that lacks a component that a system needs
//! is left alone.
//!
//! An entity never acts on another one directly. It leaves a note of what
//! it means to do, a bump or an attack target, and a later system settles
//! it.

use crate::components::{
    Addiction, AnxietyKillCounter, AttackTarget, AttackType, Attributes, Bump, Destination,
    MonsterKind, Panicking, Position, Side, Stunned, ID,
};
use crate::pathfinding::{first_step, shortest_path, valid_path, Grid, Path};
use crate::point::{tile_distance_spec, Point};
use crate::replay::{log_command, Command, NEWLINE};
use crate::store::{ComponentManager, Entity};
use std::collections::VecDeque;
use vstd::prelude::*;

verus! {

/// The number of tile steps between two positions.
pub fn distance(p1: &Position, p2: &Position) -> (d: u32)
    ensures
        d == tile_distance_spec(p1.point(), p2.point()),
{
    p1.to_point().tile_distance(p2.to_point())
}

fn same_side(a: Side, b: Side) -> (r: bool)
    ensures
        r == (a == b),
{
    match (a, b) {
        (Side::Player, Side::Player) => true,
        (Side::Computer, Side::Computer) => true,
        _ => false,
    }
}

/// The entity that `e` has walked into.
pub open spec fn bumped_into(e: Entity) -> ID {
    match e.bump {
        Some(Bump(id)) => id,
        None => ID(0),
    }
}

/// The entity that `e` means to attack.
pub open spec fn target_of(e: Entity) -> ID {
    match e.attack_target {
        Some(AttackTarget(id)) => id,
        None => ID(0),
    }
}

/// Everything about the store but the components of the entity `id` is as
/// it was.
pub open spec fn only_entity_changed(before: &ComponentManager, after: &ComponentManager, id: ID) -> bool {
    &&& after@.dom() == before@.dom()
    &&& forall|other: ID|
        #![trigger after@[other]]
        other != id && before@.contains_key(other) ==> after@[other] == before@[other]
    &&& after.paths() == before.paths()
    &&& after.first_id() == before.first_id()
    &&& after.next_id() == before.next_id()
}

/// The entity after it has spent `spend` action points.
pub open spec fn after_spending(e: Entity, spend: int) -> Entity {
    Entity { turn: Some(e.turn->0.spend_spec(spend)), ..e }
}

/// The entity `id` spends `spend` action points. It must take turns and
/// have the points.
pub fn spend_ap(ecm: &mut ComponentManager, id: ID, spend: i32)
    requires
        old(ecm).wf(),
        old(ecm)@.contains_key(id),
        old(ecm)@[id].turn is Some,
        0 <= spend <= old(ecm)@[id].turn->0@.ap,
    ensures
        final(ecm).wf(),
        final(ecm)@ == old(ecm)@.insert(id, after_spending(old(ecm)@[id], spend as int)),
        final(ecm).paths() == old(ecm).paths(),
        final(ecm).first_id() == old(ecm).first_id(),
        final(ecm).next_id() == old(ecm).next_id(),
        forall|pos: Position| #[trigger] final(ecm).occupants(pos) == old(ecm).occupants(pos),
{
    match ecm.get_turn(id) {
        Some(turn) => {
            ecm.set_turn(id, turn.spend_ap(spend));
        },
        None => {},
    }
}

/// What the start of a tick does to an entity: one that takes turns for
/// the side whose turn it is forgets what it has spent.
pub open spec fn new_tick(e: Entity, current_side: Side) -> Entity {
    if e.turn is Some && e.turn->0@.side == current_side {
        Entity { turn: Some(e.turn->0.new_tick_spec()), ..e }
    } else {
        e
    }
}

pub fn turn_tick_counter_system(id: ID, ecm: &mut ComponentManager, current_side: Side)
    requires
        old(ecm).wf(),
    ensures
        final(ecm).wf(),
        !old(ecm)@.contains_key(id) ==> final(ecm)@ == old(ecm)@,
        old(ecm)@.contains_key(id) ==> final(ecm)@ == old(ecm)@.insert(
            id,
            new_tick(old(ecm)@[id], current_side),
        ),
        final(ecm).paths() == old(ecm).paths(),
        final(ecm).first_id() == old(ecm).first_id(),
        final(ecm).next_id() == old(ecm).next_id(),
        forall|pos: Position| #[trigger] final(ecm).occupants(pos) == old(ecm).occupants(pos),
{
    if !ecm.has_entity(id) {
        return ;
    }
    match ecm.get_turn(id) {
        Some(turn) => {
            if same_side(turn.side(), current_side) {
                ecm.set_turn(id, turn.new_tick());
            } else {
                proof {
                    assert(ecm@ =~= old(ecm)@.insert(id, old(ecm)@[id]));
                }
            }
        },
        None => {
            proof {
                assert(ecm@ =~= old(ecm)@.insert(id, old(ecm)@[id]));
            }
        },
    }
}

/// The tile that the command `command` leads to from `pos`, if the command
/// is a step.
pub open spec fn destination_of(pos: Position, command: Command) -> Option<Destination> {
    match crate::game::command_step(command) {
        Some((dx, dy)) => if i32::MIN <= pos.x + dx <= i32::MAX && i32::MIN <= pos.y + dy
            <= i32::MAX {
            Some(Destination { x: (pos.x + dx) as i32, y: (pos.y + dy) as i32 })
        } else {
            None
        },
        None => None,
    }
}

/// Whether the input system has anything to do with the entity: it is
/// steered by the player, stands somewhere, and it is the player's turn.
pub open spec fn takes_input(e: Entity, current_side: Side) -> bool {
    e.accepts_user_input is Some && e.position is Some && current_side == Side::Player
}

/// Hands the next command to the entity that the player steers: the
/// command is taken off `commands`, written to `log`, and becomes the
/// destination of the entity, if it is a step.
pub fn input_system(
    id: ID,
    ecm: &mut ComponentManager,
    commands: &mut VecDeque<Command>,
    log: &mut Vec<u8>,
    current_side: Side,
)
    requires
        old(ecm).wf(),
    ensures
        final(ecm).wf(),
        final(ecm).paths() == old(ecm).paths(),
        final(ecm).first_id() == old(ecm).first_id(),
        final(ecm).next_id() == old(ecm).next_id(),
        forall|pos: Position| #[trigger] final(ecm).occupants(pos) == old(ecm).occupants(pos),
        (old(ecm)@.contains_key(id) && takes_input(old(ecm)@[id], current_side) && old(commands)@.len() > 0) ==>
            {
            let command = old(commands)@[0];
            let e = old(ecm)@[id];
            &&& final(commands)@ == old(commands)@.drop_first()
            &&& final(log)@ == old(log)@ + command.token() + seq![NEWLINE]
            &&& final(ecm)@ == old(ecm)@.insert(
                id,
                match destination_of(e.position->0, command) {
                    Some(dest) => Entity { destination: Some(dest), ..e },
                    None => e,
                },
            )
        },
        !(old(ecm)@.contains_key(id) && takes_input(old(ecm)@[id], current_side) && old(commands)@.len() > 0) ==>
            final(ecm)@ == old(ecm)@ && *final(commands) == *old(commands)
            && *final(log) == *old(log),
{
    if !ecm.has_entity(id) {
        return ;
    }
    let e = ecm.components(id);
    if e.accepts_user_input.is_none() {
        return ;
    }
    let pos = match e.position {
        Some(pos) => pos,
        None => {
            return ;
        },
    };
    match current_side {
        Side::Player => {},
        Side::Computer => {
            return ;
        },
    }
    if commands.len() == 0 {
        return ;
    }
    let command = match commands.pop_front() {
        Some(command) => command,
        None => {
            return ;
        },
    };
    proof {
        assert(commands@ =~= old(commands)@.drop_first());
    }
    log_command(log, command);
    let step: Option<(i32, i32)> = match command {
        Command::N => Some((0, -1)),
        Command::S => Some((0, 1)),
        Command::W => Some((-1, 0)),
        Command::E => Some((1, 0)),
        Command::NW => Some((-1, -1)),
        Command::NE => Some((1, -1)),
        Command::SW => Some((-1, 1)),
        Command::SE => Some((1, 1)),
        _ => None,
    };
    let mut updated = e;
    match step {
        Some((dx, dy)) => {
            match pos.to_point().offset(dx, dy) {
                Some(p) => {
                    updated.destination = Some(Destination { x: p.x, y: p.y });
                },
                None => {},
            }
        },
        None => {},
    }
    ecm.set_components(id, updated);
}

/// What killing does to an entity: it stops deciding, stands nowhere, is
/// steered by no one and takes no more turns.
pub open spec fn killed(e: Entity) -> Entity {
    Entity { ai: None, position: None, accepts_user_input: None, turn: None, ..e }
}

/// Kills the entity `id`, if it is alive: see [`killed`]. The entity leaves
/// the index of positions with its position.
pub fn kill_entity(id: ID, ecm: &mut ComponentManager)
    requires
        old(ecm).wf(),
    ensures
        final(ecm).wf(),
        !old(ecm)@.contains_key(id) ==> final(ecm)@ == old(ecm)@,
        old(ecm)@.contains_key(id) ==> final(ecm)@ == old(ecm)@.insert(id, killed(old(ecm)@[id])),
        final(ecm).paths() == old(ecm).paths(),
        final(ecm).first_id() == old(ecm).first_id(),
        final(ecm).next_id() == old(ecm).next_id(),
        forall|p: Position| #[trigger]
            final(ecm).occupants(p) == if old(ecm)@.contains_key(id) {
                old(ecm).occupants_after(id, None, p)
            } else {
                old(ecm).occupants(p)
            },
{
    if !ecm.has_entity(id) {
        return ;
    }
    ecm.remove_position(id);
    let ghost gone = *ecm;
    let mut e = ecm.components(id);
    e.ai = None;
    e.accepts_user_input = None;
    e.turn = None;
    ecm.set_components(id, e);
    proof {
        assert(ecm@ =~= old(ecm)@.insert(id, killed(old(ecm)@[id])));
        assert forall|p: Position| #[trigger]
            ecm.occupants(p) == old(ecm).occupants_after(id, None, p) by {
            assert(gone.occupants(p) == old(ecm).occupants_after(id, None, p));
        }
    }
}

/// What the bump system does to an entity that has walked into the
/// entity `other`, whose identity is `bumpee`: if the two take turns for
/// different sides, the entity means to attack the other. The bump is
/// settled either way.
pub open spec fn after_bump(e: Entity, bumpee: ID, other: Entity) -> Entity {
    if other.turn is Some && e.turn is Some && other.turn->0@.side != e.turn->0@.side {
        Entity { attack_target: Some(AttackTarget(bumpee)), bump: None, ..e }
    } else {
        Entity { bump: None, ..e }
    }
}

/// Settles the bump of the entity `entity_id`, if it has walked into
/// another. Both must be live entities of the store.
pub fn bump_system(entity_id: ID, ecm: &mut ComponentManager)
    requires
        old(ecm).wf(),
        old(ecm)@.contains_key(entity_id),
        old(ecm)@[entity_id].bump is Some ==> old(ecm)@.contains_key(
            bumped_into(old(ecm)@[entity_id]),
        ),
    ensures
        final(ecm).wf(),
        final(ecm).paths() == old(ecm).paths(),
        final(ecm).first_id() == old(ecm).first_id(),
        final(ecm).next_id() == old(ecm).next_id(),
        forall|pos: Position| #[trigger] final(ecm).occupants(pos) == old(ecm).occupants(pos),
        final(ecm)@ == if old(ecm)@[entity_id].bump is Some {
            let e = old(ecm)@[entity_id];
            old(ecm)@.insert(entity_id, after_bump(e, bumped_into(e), old(ecm)@[bumped_into(e)]))
        } else {
            old(ecm)@
        },
{
    let mut e = ecm.components(entity_id);
    let bumpee_id = match e.bump {
        Some(bump) => bump.0,
        None => {
            return ;
        },
    };
    let bumpee_turn = ecm.components(bumpee_id).turn;
    let opposed = match (bumpee_turn, e.turn) {
        (Some(theirs), Some(ours)) => !same_side(theirs.side(), ours.side()),
        _ => false,
    };
    if opposed {
        e.attack_target = Some(AttackTarget(bumpee_id));
    }
    e.bump = None;
    ecm.set_components(entity_id, e);
}

/// What the end of effects does to an entity at `current_turn`: a stun and
/// a panic that have run out are gone.
pub open spec fn effects_at(e: Entity, current_turn: i32) -> Entity {
    Entity {
        stunned: match e.stunned {
            Some(s) => if crate::components::remaining_spec(
                s.turn as int,
                s.duration as int,
                current_turn as int,
            ) == 0 {
                None
            } else {
                Some(s)
            },
            None => None,
        },
        panicking: match e.panicking {
            Some(p) => if crate::components::remaining_spec(
                p.turn as int,
                p.duration as int,
                current_turn as int,
            ) == 0 {
                None
            } else {
                Some(p)
            },
            None => None,
        },
        ..e
    }
}

pub fn effect_duration_system(id: ID, ecm: &mut ComponentManager, current_turn: i32)
    requires
        old(ecm).wf(),
    ensures
        final(ecm).wf(),
        !old(ecm)@.contains_key(id) ==> final(ecm)@ == old(ecm)@,
        old(ecm)@.contains_key(id) ==> final(ecm)@ == old(ecm)@.insert(
            id,
            effects_at(old(ecm)@[id], current_turn),
        ),
        final(ecm).paths() == old(ecm).paths(),
        final(ecm).first_id() == old(ecm).first_id(),
        final(ecm).next_id() == old(ecm).next_id(),
        forall|pos: Position| #[trigger] final(ecm).occupants(pos) == old(ecm).occupants(pos),
{
    if !ecm.has_entity(id) {
        return ;
    }
    let mut e = ecm.components(id);
    e.stunned = match e.stunned {
        Some(s) => if s.remaining(current_turn) == 0 {
            None
        } else {
            Some(s)
        },
        None => None,
    };
    e.panicking = match e.panicking {
        Some(p) => if p.remaining(current_turn) == 0 {
            None
        } else {
            Some(p)
        },
        None => None,
    };
    ecm.set_components(id, e);
}

/// `a + b`, held inside what an `i32` can hold.
pub open spec fn saturating_sum(a: int, b: int) -> int {
    crate::ranged_int::clamp(a + b, i32::MIN as int, i32::MAX as int)
}

fn add_saturating(a: i32, b: i32) -> (r: i32)
    ensures
        r == saturating_sum(a as int, b as int),
{
    let sum: i64 = a as i64 + b as i64;
    if sum > i32::MAX as i64 {
        i32::MAX
    } else if sum < i32::MIN as i64 {
        i32::MIN
    } else {
        sum as i32
    }
}

fn sub_saturating(a: i32, b: i32) -> (r: i32)
    ensures
        r == saturating_sum(a as int, -(b as int)),
{
    let difference: i64 = a as i64 - b as i64;
    if difference > i32::MAX as i64 {
        i32::MAX
    } else if difference < i32::MIN as i64 {
        i32::MIN
    } else {
        difference as i32
    }
}

/// What a new turn does to the mind of an addict: it sinks by what the
/// addiction takes each turn, once per turn.
pub open spec fn craving_at(e: Entity, current_turn: i32) -> Entity {
    if e.addiction is Some && e.attributes is Some && current_turn > e.addiction->0.last_turn {
        Entity {
            attributes: Some(
                Attributes {
                    state_of_mind: saturating_sum(
                        e.attributes->0.state_of_mind as int,
                        -(e.addiction->0.drop_per_turn as int),
                    ) as i32,
                    ..e.attributes->0
                },
            ),
            addiction: Some(Addiction { last_turn: current_turn, ..e.addiction->0 }),
            ..e
        }
    } else {
        e
    }
}

/// Whether a mind in the state `state_of_mind` has left the living: gone
/// in withdrawal or in an overdose.
pub open spec fn mind_is_gone(state_of_mind: i32) -> bool {
    state_of_mind <= 0 || state_of_mind >= 100
}

/// The addiction of the entity `id` takes its toll for the turn
/// `current_turn`, and the entity dies if its mind is gone.
pub fn addiction_system(id: ID, ecm: &mut ComponentManager, current_turn: i32)
    requires
        old(ecm).wf(),
    ensures
        final(ecm).wf(),
        final(ecm).paths() == old(ecm).paths(),
        final(ecm).first_id() == old(ecm).first_id(),
        final(ecm).next_id() == old(ecm).next_id(),
        (old(ecm)@.contains_key(id) && old(ecm)@[id].addiction is Some && old(ecm)@[id].attributes is Some) ==>
            {
            let craving = craving_at(old(ecm)@[id], current_turn);
            final(ecm)@ == old(ecm)@.insert(
                id,
                if mind_is_gone(craving.attributes->0.state_of_mind) {
                    killed(craving)
                } else {
                    craving
                },
            )
        },
        !(old(ecm)@.contains_key(id) && old(ecm)@[id].addiction is Some && old(ecm)@[id].attributes is Some) ==>
            final(ecm)@ == old(ecm)@,
        forall|p: Position| #[trigger]
            final(ecm).occupants(p) == if old(ecm)@.contains_key(id) && old(ecm)@[id].addiction
                is Some && old(ecm)@[id].attributes is Some && mind_is_gone(
                craving_at(old(ecm)@[id], current_turn).attributes->0.state_of_mind,
            ) {
                old(ecm).occupants_after(id, None, p)
            } else {
                old(ecm).occupants(p)
            },
{
    if !ecm.has_entity(id) {
        return ;
    }
    let mut e = ecm.components(id);
    let (addiction, attributes) = match (e.addiction, e.attributes) {
        (Some(addiction), Some(attributes)) => (addiction, attributes),
        _ => {
            return ;
        },
    };
    let mut state_of_mind = attributes.state_of_mind;
    if current_turn > addiction.last_turn {
        state_of_mind = sub_saturating(attributes.state_of_mind, addiction.drop_per_turn);
        e.attributes = Some(Attributes { state_of_mind, will: attributes.will });
        e.addiction = Some(
            Addiction {
                tolerance: addiction.tolerance,
                drop_per_turn: addiction.drop_per_turn,
                last_turn: current_turn,
            },
        );
    }
    ecm.set_components(id, e);
    let ghost mid = ecm@;
    if state_of_mind <= 0 || state_of_mind >= 100 {
        kill_entity(id, ecm);
        proof {
            assert(ecm@ =~= old(ecm)@.insert(id, killed(craving_at(old(ecm)@[id], current_turn))));
        }
    }
}

/// What the will system does to an entity with attributes: enough
/// defeated anxieties make its will grow by one.
pub open spec fn rewarded(e: Entity) -> Entity {
    if e.anxiety_kill_counter is Some && e.attributes is Some && e.anxiety_kill_counter->0.count
        >= e.anxiety_kill_counter->0.threshold {
        Entity {
            attributes: Some(
                Attributes {
                    will: saturating_sum(e.attributes->0.will as int, 1) as i32,
                    ..e.attributes->0
                },
            ),
            anxiety_kill_counter: Some(
                AnxietyKillCounter {
                    count: saturating_sum(
                        e.anxiety_kill_counter->0.threshold as int,
                        -(e.anxiety_kill_counter->0.count as int),
                    ) as i32,
                    ..e.anxiety_kill_counter->0
                },
            ),
            ..e
        }
    } else {
        e
    }
}

/// The will of the entity `id` grows if it has earned it, and the entity
/// dies if its will is gone.
pub fn will_system(id: ID, ecm: &mut ComponentManager)
    requires
        old(ecm).wf(),
    ensures
        final(ecm).wf(),
        final(ecm).paths() == old(ecm).paths(),
        final(ecm).first_id() == old(ecm).first_id(),
        final(ecm).next_id() == old(ecm).next_id(),
        (old(ecm)@.contains_key(id) && old(ecm)@[id].attributes is Some) ==> {
            let after = rewarded(old(ecm)@[id]);
            final(ecm)@ == old(ecm)@.insert(
                id,
                if after.attributes->0.will <= 0 {
                    killed(after)
                } else {
                    after
                },
            )
        },
        !(old(ecm)@.contains_key(id) && old(ecm)@[id].attributes is Some) ==> final(ecm)@ == old(ecm)@,
        forall|p: Position| #[trigger]
            final(ecm).occupants(p) == if old(ecm)@.contains_key(id) && old(ecm)@[id].attributes
                is Some && rewarded(old(ecm)@[id]).attributes->0.will <= 0 {
                old(ecm).occupants_after(id, None, p)
            } else {
                old(ecm).occupants(p)
            },
{
    if !ecm.has_entity(id) {
        return ;
    }
    let mut e = ecm.components(id);
    let attributes = match e.attributes {
        Some(attributes) => attributes,
        None => {
            return ;
        },
    };
    let mut will = attributes.will;
    match e.anxiety_kill_counter {
        Some(counter) => {
            if counter.count >= counter.threshold {
                will = add_saturating(attributes.will, 1);
                e.attributes = Some(
                    Attributes { state_of_mind: attributes.state_of_mind, will },
                );
                e.anxiety_kill_counter = Some(
                    AnxietyKillCounter {
                        count: sub_saturating(counter.threshold, counter.count),
                        threshold: counter.threshold,
                    },
                );
            }
        },
        None => {},
    }
    ecm.set_components(id, e);
    if will <= 0 {
        kill_entity(id, ecm);
        proof {
            assert(ecm@ =~= old(ecm)@.insert(id, killed(rewarded(old(ecm)@[id]))));
        }
    }
}

/// What the idle system does to an entity on the computer's turn: one
/// that decides for itself, has spent nothing in this tick and has a point
/// left spends one point on doing nothing.
pub open spec fn idled(e: Entity, current_side: Side) -> Entity {
    if e.turn is Some && e.ai is Some && current_side == Side::Computer && e.turn->0@.side
        == current_side && e.turn->0@.spent_this_tick == 0 && e.turn->0@.ap > 0 {
        after_spending(e, 1)
    } else {
        e
    }
}

pub fn idle_ai_system(id: ID, ecm: &mut ComponentManager, current_side: Side)
    requires
        old(ecm).wf(),
    ensures
        final(ecm).wf(),
        !old(ecm)@.contains_key(id) ==> final(ecm)@ == old(ecm)@,
        old(ecm)@.contains_key(id) ==> final(ecm)@ == old(ecm)@.insert(
            id,
            idled(old(ecm)@[id], current_side),
        ),
        final(ecm).paths() == old(ecm).paths(),
        final(ecm).first_id() == old(ecm).first_id(),
        final(ecm).next_id() == old(ecm).next_id(),
        forall|pos: Position| #[trigger] final(ecm).occupants(pos) == old(ecm).occupants(pos),
{
    if !ecm.has_entity(id) {
        return ;
    }
    let e = ecm.components(id);
    let idle = match (e.turn, e.ai, current_side) {
        (Some(turn), Some(_), Side::Computer) => same_side(turn.side(), current_side)
            && turn.spent_this_tick() == 0 && turn.ap() > 0,
        _ => false,
    };
    if idle {
        spend_ap(ecm, id, 1);
    } else {
        proof {
            assert(ecm@ =~= old(ecm)@.insert(id, old(ecm)@[id]));
        }
    }
}

/// Whether the player is gone: the entity stands nowhere or takes no
/// turns.
pub open spec fn player_is_dead(player: Entity) -> bool {
    player.position is None || player.turn is None
}

/// Once the player is dead, the entity `id` stops deciding. The player
/// must be a live entity of the store, dead or not.
pub fn player_dead_system(id: ID, ecm: &mut ComponentManager, player_id: ID)
    requires
        old(ecm).wf(),
        old(ecm)@.contains_key(player_id),
    ensures
        final(ecm).wf(),
        (old(ecm)@.contains_key(id) && player_is_dead(old(ecm)@[player_id])) ==> final(ecm)@
            == old(ecm)@.insert(id, Entity { ai: None, ..old(ecm)@[id] }),
        !(old(ecm)@.contains_key(id) && player_is_dead(old(ecm)@[player_id])) ==> final(ecm)@
            == old(ecm)@,
        final(ecm).paths() == old(ecm).paths(),
        final(ecm).first_id() == old(ecm).first_id(),
        final(ecm).next_id() == old(ecm).next_id(),
        forall|pos: Position| #[trigger] final(ecm).occupants(pos) == old(ecm).occupants(pos),
{
    let player = ecm.components(player_id);
    let player_dead = player.position.is_none() || player.turn.is_none();
    if player_dead && ecm.has_entity(id) {
        let mut e = ecm.components(id);
        e.ai = None;
        ecm.set_components(id, e);
    }
}

/// Whether an entity that blocks the way stands on `pos`.
pub open spec fn blocked_by_entity(ecm: &ComponentManager, pos: Position) -> bool {
    exists|id: ID|
        #![trigger ecm@[id]]
        ecm@.contains_key(id) && ecm@[id].position == Some(pos) && ecm@[id].solid is Some
}

/// The first of the entities `here` that blocks the way.
pub open spec fn first_solid(entities: Map<ID, Entity>, here: Seq<ID>) -> Option<ID>
    decreases here.len(),
{
    if here.len() == 0 {
        None
    } else if entities[here[0]].solid is Some {
        Some(here[0])
    } else {
        first_solid(entities, here.drop_first())
    }
}

/// The first entity on `pos` that blocks the way, in the order in which
/// the entities came to stand there.
pub fn solid_entity_on(ecm: &ComponentManager, pos: Position) -> (found: Option<ID>)
    requires
        ecm.wf(),
    ensures
        found == first_solid(ecm@, ecm.occupants(pos)),
        found is Some <==> blocked_by_entity(ecm, pos),
        found matches Some(id) ==> ecm@.contains_key(id) && ecm@[id].position == Some(pos)
            && ecm@[id].solid is Some,
{
    let here = ecm.entities_on_pos(pos);
    let mut i: usize = 0;
    proof {
        assert(here@.skip(0) =~= here@);
    }
    while i < here.len()
        invariant
            ecm.wf(),
            i <= here@.len(),
            here@ == ecm.occupants(pos),
            forall|id: ID|
                here@.contains(id) <==> (ecm@.contains_key(id) && ecm@[id].position == Some(pos)),
            forall|j: int| 0 <= j < i ==> ecm@[#[trigger] here@[j]].solid is None,
            first_solid(ecm@, here@) == first_solid(ecm@, here@.skip(i as int)),
        decreases here@.len() - i,
    {
        let id = here[i];
        proof {
            assert(here@.contains(id));
            assert(here@.skip(i as int)[0] == id);
            assert(here@.skip(i as int).drop_first() =~= here@.skip(i + 1));
        }
        if ecm.components(id).solid.is_some() {
            return Some(id);
        }
        i = i + 1;
    }
    proof {
        assert(here@.skip(i as int) =~= Seq::<ID>::empty());
        if blocked_by_entity(ecm, pos) {
            let id = choose|id: ID|
                #![trigger ecm@[id]]
                ecm@.contains_key(id) && ecm@[id].position == Some(pos) && ecm@[id].solid is Some;
            assert(here@.contains(id));
            let j = choose|j: int| 0 <= j < here@.len() && here@[j] == id;
            assert(ecm@[here@[j]].solid is None);
        }
    }
    None
}

/// There is a way from `from` to `to` over the tiles of `grid` that can be
/// walked on.
pub open spec fn way_exists(grid: Grid, from: Point, to: Point) -> bool {
    exists|way: Seq<Point>| #[trigger] valid_path(grid, from, to, way)
}

/// A shortest way from `from` to `to` begins with a step to `step`.
pub open spec fn starts_shortest_way(grid: Grid, from: Point, to: Point, step: Point) -> bool {
    exists|way: Seq<Point>|
        #[trigger] shortest_path(grid, from, to, way) && way.len() > 0 && way[0] == step
}

/// Finds the way of the entity `id` to where it wants to be: a shortest
/// way over the tiles of `grid` that can be walked on becomes its path; if
/// there is none, it has no path. Either way it wants to be nowhere
/// afterwards. An entity that stands nowhere or wants to be nowhere is left
/// alone, but for a wish without a place, which is forgotten.
pub fn path_system(id: ID, ecm: &mut ComponentManager, grid: &Grid)
    requires
        old(ecm).wf(),
        grid.wf(),
    ensures
        final(ecm).wf(),
        final(ecm).first_id() == old(ecm).first_id(),
        final(ecm).next_id() == old(ecm).next_id(),
        forall|pos: Position| #[trigger] final(ecm).occupants(pos) == old(ecm).occupants(pos),
        !old(ecm)@.contains_key(id) ==> final(ecm)@ == old(ecm)@ && final(ecm).paths() == old(ecm).paths(),
        old(ecm)@.contains_key(id) ==> final(ecm)@ == old(ecm)@.insert(
            id,
            if old(ecm)@[id].position is Some {
                Entity { destination: None, ..old(ecm)@[id] }
            } else {
                old(ecm)@[id]
            },
        ),
        (old(ecm)@.contains_key(id) && old(ecm)@[id].position is Some && old(ecm)@[id].destination is Some) ==>
            {
            let from = old(ecm)@[id].position->0.point();
            let to = old(ecm)@[id].destination->0.point();
            if way_exists(*grid, from, to) {
                final(ecm).paths().contains_key(id) && shortest_path(
                    *grid,
                    from,
                    to,
                    final(ecm).paths()[id],
                ) && final(ecm).paths() == old(ecm).paths().insert(id, final(ecm).paths()[id])
            } else {
                final(ecm).paths() == old(ecm).paths().remove(id)
            }
        },
        !(old(ecm)@.contains_key(id) && old(ecm)@[id].position is Some && old(ecm)@[id].destination is Some) ==>
            final(ecm).paths() == old(ecm).paths(),
{
    if !ecm.has_entity(id) {
        return ;
    }
    let e = ecm.components(id);
    let pos = match e.position {
        Some(pos) => pos,
        None => {
            proof {
                assert(ecm@ =~= old(ecm)@.insert(id, old(ecm)@[id]));
            }
            return ;
        },
    };
    match e.destination {
        Some(dest) => {
            let to = Point { x: dest.x, y: dest.y };
            match Path::find(pos.to_point(), to, grid) {
                Some(path) => {
                    proof {
                        assert(valid_path(*grid, pos.point(), to, path@));
                        assert(shortest_path(*grid, pos.point(), to, path@));
                    }
                    let mut waypoints: Vec<Point> = Vec::new();
                    let source = path.waypoints();
                    let mut i: usize = 0;
                    while i < source.len()
                        invariant
                            i <= source@.len(),
                            waypoints@ == source@.take(i as int),
                        decreases source@.len() - i,
                    {
                        waypoints.push(source[i]);
                        proof {
                            assert(source@.take(i + 1) == source@.take(i as int).push(
                                source@[i as int],
                            ));
                        }
                        i = i + 1;
                    }
                    proof {
                        assert(source@.take(i as int) == source@);
                    }
                    ecm.set_path(id, waypoints);
                },
                None => {
                    ecm.remove_path(id);
                },
            }
        },
        None => {},
    }
    let mut settled = ecm.components(id);
    settled.destination = None;
    ecm.set_components(id, settled);
}

/// Whether the movement system has anything to do with the entity: it
/// stands somewhere, wants to be somewhere, and has an action point.
pub open spec fn can_move(e: Entity) -> bool {
    e.position is Some && e.destination is Some && e.turn is Some && e.turn->0@.ap > 0
}

/// Moves the entity `id` towards where it wants to be, over the tiles of
/// `grid` that can be walked on and that no entity blocks.
///
/// An entity that is there already waits: it spends a point and wants to
/// be nowhere. An entity one step away steps there if the way is free; it
/// bumps into the first entity that blocks the way otherwise. An entity
/// farther away takes the first step of a shortest way there; without a
/// way it waits.
pub fn movement_system(id: ID, ecm: &mut ComponentManager, grid: &Grid)
    requires
        old(ecm).wf(),
        grid.wf(),
    ensures
        final(ecm).wf(),
        final(ecm).paths() == old(ecm).paths(),
        final(ecm).first_id() == old(ecm).first_id(),
        final(ecm).next_id() == old(ecm).next_id(),
        !(old(ecm)@.contains_key(id) && can_move(old(ecm)@[id])) ==> final(ecm)@ == old(ecm)@,
        (old(ecm)@.contains_key(id) && can_move(old(ecm)@[id])) ==> {
            let e = old(ecm)@[id];
            let pos = e.position->0;
            let dest = Position { x: e.destination->0.x, y: e.destination->0.y };
            let after = final(ecm)@[id];
            let steps = tile_distance_spec(pos.point(), dest.point());
            let free = grid.walkable_spec(dest.point()) && !blocked_by_entity(old(ecm), dest);
            &&& only_entity_changed(old(ecm), final(ecm), id)
            &&& steps == 0 ==> after == Entity { destination: None, ..after_spending(e, 1) }
            &&& steps == 1 && free ==> after == Entity {
                position: Some(dest),
                destination: None,
                ..after_spending(e, 1)
            }
            &&& steps == 1 && !free && blocked_by_entity(old(ecm), dest) ==> after == Entity {
                bump: Some(Bump(first_solid(old(ecm)@, old(ecm).occupants(dest))->0)),
                destination: None,
                ..e
            }
            &&& steps == 1 && !free && !blocked_by_entity(old(ecm), dest) ==> after == e
            &&& steps > 1 && way_exists(*grid, pos.point(), dest.point()) ==> after.position
                is Some && starts_shortest_way(
                *grid,
                pos.point(),
                dest.point(),
                after.position->0.point(),
            ) && after == Entity { position: after.position, ..after_spending(e, 1) }
            &&& steps > 1 && !way_exists(*grid, pos.point(), dest.point()) ==> after == Entity {
                destination: None,
                ..after_spending(e, 1)
            }
        },
        forall|p: Position| #[trigger]
            final(ecm).occupants(p) == if old(ecm)@.contains_key(id) && can_move(old(ecm)@[id])
                && final(ecm)@[id].position != old(ecm)@[id].position {
                old(ecm).occupants_after(id, final(ecm)@[id].position, p)
            } else {
                old(ecm).occupants(p)
            },
{
    if !ecm.has_entity(id) {
        return ;
    }
    let e = ecm.components(id);
    let (pos, destination, turn) = match (e.position, e.destination, e.turn) {
        (Some(pos), Some(destination), Some(turn)) => (pos, destination, turn),
        _ => {
            return ;
        },
    };
    if turn.ap() <= 0 {
        return ;
    }
    let dest = Position { x: destination.x, y: destination.y };
    let steps = distance(&pos, &dest);
    if steps == 0 {
        let mut waited = e;
        waited.turn = Some(turn.spend_ap(1));
        waited.destination = None;
        ecm.set_components(id, waited);
    } else if steps == 1 {
        let blocker = solid_entity_on(ecm, dest);
        match blocker {
            None => {
                if grid.is_walkable(dest.to_point()) {
                    let mut moved = e;
                    moved.turn = Some(turn.spend_ap(1));
                    moved.destination = None;
                    ecm.set_components(id, moved);
                    ecm.set_position(id, dest);
                    proof {
                        assert(ecm@ =~= old(ecm)@.insert(
                            id,
                            Entity {
                                position: Some(dest),
                                destination: None,
                                ..after_spending(e, 1)
                            },
                        ));
                    }
                } else {
                    proof {
                        assert(ecm@ =~= old(ecm)@.insert(id, e));
                    }
                }
            },
            Some(bumpee) => {
                let mut bumped = e;
                bumped.bump = Some(Bump(bumpee));
                bumped.destination = None;
                ecm.set_components(id, bumped);
            },
        }
    } else {
        let step = first_step(pos.to_point(), dest.to_point(), grid, usize::MAX);
        proof {
            match step {
                Some(p) => {
                    let w = choose|w: Seq<Point>|
                        #[trigger] shortest_path(*grid, pos.point(), dest.point(), w) && 0
                            < w.len() <= usize::MAX && w[0] == p;
                    assert(valid_path(*grid, pos.point(), dest.point(), w));
                },
                None => {},
            }
        }
        match step {
            Some(p) => {
                let mut moved = e;
                moved.turn = Some(turn.spend_ap(1));
                ecm.set_components(id, moved);
                let new_pos = Position { x: p.x, y: p.y };
                ecm.set_position(id, new_pos);
                proof {
                    assert(ecm@ =~= old(ecm)@.insert(
                        id,
                        Entity { position: Some(new_pos), ..after_spending(e, 1) },
                    ));
                }
            },
            None => {
                let mut waited = e;
                waited.turn = Some(turn.spend_ap(1));
                waited.destination = None;
                ecm.set_components(id, waited);
            },
        }
    }
    proof {
        assert(ecm@.dom() =~= old(ecm)@.dom());
        assert(can_move(old(ecm)@[id]));
    }
}

/// The target after the attack of the kind `attack` at `current_turn`: a
/// stun or a panic begins, or grows longer if one is under way.
pub open spec fn struck(target: Entity, attack: AttackType, current_turn: i32) -> Entity {
    match attack {
        AttackType::Kill => killed(target),
        AttackType::Stun { duration } => Entity {
            stunned: Some(
                match target.stunned {
                    Some(s) => Stunned {
                        duration: saturating_sum(s.duration as int, duration as int) as i32,
                        ..s
                    },
                    None => Stunned { turn: current_turn, duration },
                },
            ),
            ..target
        },
        AttackType::Panic { duration } => Entity {
            panicking: Some(
                match target.panicking {
                    Some(p) => Panicking {
                        duration: saturating_sum(p.duration as int, duration as int) as i32,
                        ..p
                    },
                    None => Panicking { turn: current_turn, duration },
                },
            ),
            ..target
        },
        AttackType::ModifyAttributes => target,
    }
}

/// Whether the attack of the entity goes ahead: it has a target that is
/// alive, knows how it attacks, and has an action point.
pub open spec fn attack_succeeds(entities: Map<ID, Entity>, id: ID) -> bool {
    &&& entities.contains_key(id)
    &&& entities[id].attack_target is Some
    &&& entities[id].attack_type is Some
    &&& entities[id].turn is Some
    &&& entities[id].turn->0@.ap > 0
    &&& entities.contains_key(target_of(entities[id]))
    &&& target_of(entities[id]) != id
}

/// The attacker after its attack on `target`: it has spent an action
/// point and forgotten its target. Who kills an anxiety counts it. A stun
/// and a panic cost the attacker its life.
pub open spec fn attacker_after(attacker: Entity, target: Entity) -> Entity {
    let spent = Entity { attack_target: None, ..after_spending(attacker, 1) };
    match attacker.attack_type->0 {
        AttackType::Kill => match (target.monster, spent.anxiety_kill_counter) {
            (Some(m), Some(counter)) => if m.kind == MonsterKind::Anxiety {
                Entity {
                    anxiety_kill_counter: Some(
                        AnxietyKillCounter {
                            count: saturating_sum(counter.count as int, 1) as i32,
                            threshold: counter.threshold,
                        },
                    ),
                    ..spent
                }
            } else {
                spent
            },
            _ => spent,
        },
        AttackType::Stun { .. } => killed(spent),
        AttackType::Panic { .. } => killed(spent),
        AttackType::ModifyAttributes => spent,
    }
}

/// The target after the attack of `attacker` at `current_turn`: killed,
/// stunned, in panic, or with its attributes, if it has any, changed by
/// what the attacker carries.
pub open spec fn target_after(attacker: Entity, target: Entity, current_turn: i32) -> Entity {
    match attacker.attack_type->0 {
        AttackType::ModifyAttributes => match target.attributes {
            Some(attributes) => {
                let modifier = attacker.attribute_modifier->0;
                Entity {
                    attributes: Some(
                        Attributes {
                            state_of_mind: saturating_sum(
                                attributes.state_of_mind as int,
                                modifier.state_of_mind as int,
                            ) as i32,
                            will: saturating_sum(
                                attributes.will as int,
                                modifier.will as int,
                            ) as i32,
                        },
                    ),
                    ..target
                }
            },
            None => target,
        },
        attack => struck(target, attack, current_turn),
    }
}

/// Whether the entity can make the attack it means to make: one that
/// attacks the attributes of its target carries what changes them.
pub open spec fn armed(attacker: Entity) -> bool {
    attacker.attack_type == Some(AttackType::ModifyAttributes) ==> attacker.attribute_modifier
        is Some
}

/// Settles the attack that the entity `id` means to make.
///
/// The attacker spends an action point and forgets its target. A kill
/// kills the target; who kills an anxiety counts it. A stun and a panic
/// cost the attacker its life and leave the target stunned or in panic.
/// An attack on the attributes changes those of the target by what the
/// attacker carries, which it must carry.
pub fn combat_system(id: ID, ecm: &mut ComponentManager, current_turn: i32)
    requires
        old(ecm).wf(),
        attack_succeeds(old(ecm)@, id) ==> armed(old(ecm)@[id]),
    ensures
        final(ecm).wf(),
        final(ecm).paths() == old(ecm).paths(),
        final(ecm).first_id() == old(ecm).first_id(),
        final(ecm).next_id() == old(ecm).next_id(),
        !attack_succeeds(old(ecm)@, id) ==> final(ecm)@ == old(ecm)@,
        attack_succeeds(old(ecm)@, id) ==> {
            let attacker = old(ecm)@[id];
            let target_id = target_of(attacker);
            let target = old(ecm)@[target_id];
            final(ecm)@ == old(ecm)@.insert(id, attacker_after(attacker, target)).insert(
                target_id,
                target_after(attacker, target, current_turn),
            )
        },
        forall|p: Position| #[trigger]
            final(ecm).occupants(p) == if attack_succeeds(old(ecm)@, id) {
                match old(ecm)@[id].attack_type->0 {
                    AttackType::Kill => old(ecm).occupants_after(
                        target_of(old(ecm)@[id]),
                        None,
                        p,
                    ),
                    AttackType::ModifyAttributes => old(ecm).occupants(p),
                    _ => old(ecm).occupants_after(id, None, p),
                }
            } else {
                old(ecm).occupants(p)
            },
{
    if !ecm.has_entity(id) {
        return ;
    }
    let attacker = ecm.components(id);
    let (target_id, attack, turn) = match (
        attacker.attack_target,
        attacker.attack_type,
        attacker.turn,
    ) {
        (Some(target), Some(attack), Some(turn)) => (target.0, attack, turn),
        _ => {
            return ;
        },
    };
    if turn.ap() <= 0 || !ecm.has_entity(target_id) || target_id.0 == id.0 {
        return ;
    }
    let target = ecm.components(target_id);
    let mut spent = attacker;
    spent.turn = Some(turn.spend_ap(1));
    spent.attack_target = None;
    match attack {
        AttackType::Kill => {
            let target_is_anxiety = match target.monster {
                Some(m) => match m.kind {
                    MonsterKind::Anxiety => true,
                    _ => false,
                },
                None => false,
            };
            if target_is_anxiety {
                match spent.anxiety_kill_counter {
                    Some(counter) => {
                        spent.anxiety_kill_counter = Some(
                            AnxietyKillCounter {
                                count: add_saturating(counter.count, 1),
                                threshold: counter.threshold,
                            },
                        );
                    },
                    None => {},
                }
            }
            ecm.set_components(id, spent);
            kill_entity(target_id, ecm);
        },
        AttackType::Stun { duration } => {
            let mut hit = target;
            hit.stunned = Some(
                match target.stunned {
                    Some(s) => Stunned {
                        turn: s.turn,
                        duration: add_saturating(s.duration, duration),
                    },
                    None => Stunned { turn: current_turn, duration },
                },
            );
            ecm.set_components(id, spent);
            kill_entity(id, ecm);
            ecm.set_components(target_id, hit);
        },
        AttackType::Panic { duration } => {
            let mut hit = target;
            hit.panicking = Some(
                match target.panicking {
                    Some(p) => Panicking {
                        turn: p.turn,
                        duration: add_saturating(p.duration, duration),
                    },
                    None => Panicking { turn: current_turn, duration },
                },
            );
            ecm.set_components(id, spent);
            kill_entity(id, ecm);
            ecm.set_components(target_id, hit);
        },
        AttackType::ModifyAttributes => {
            ecm.set_components(id, spent);
            match (attacker.attribute_modifier, target.attributes) {
                (Some(modifier), Some(attributes)) => {
                    let mut hit = target;
                    hit.attributes = Some(
                        Attributes {
                            state_of_mind: add_saturating(
                                attributes.state_of_mind,
                                modifier.state_of_mind,
                            ),
                            will: add_saturating(attributes.will, modifier.will),
                        },
                    );
                    ecm.set_components(target_id, hit);
                },
                _ => {},
            }
        },
    }
}

} // verus!
