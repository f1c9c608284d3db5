//! Where the entities of the component store that the computer steers
//! want to go.
//!
//! An entity on its own turns on the player when the player comes near and
//! calms down when the player is far. An entity of a pack turns on the
//! player from a little nearer, and with a howl sends the rest of the pack
//! to where the player is. Whoever is idle wanders to a neighbouring tile.
//! What an entity wants becomes its destination; to move it there is up to
//! the movement system.

use crate::ai::{AIState, Behavior, HOWLING_DISTANCE};
use crate::components::{Bump, Destination, Position, Side, AI, ID};
use crate::pathfinding::Grid;
use crate::point::{tile_distance_spec, Point};
use crate::random::Random;
use crate::store::{ComponentManager, Entity};
use crate::systems::{after_spending, first_solid, solid_entity_on};
use crate::world::{neighbours, nth_neighbour};
use vstd::prelude::*;

verus! {

/// An entity on its own turns on the player when the player is fewer
/// steps away than this.
pub const AGGRESSION_DISTANCE: u32 = 5;

/// An entity on its own calms down when the player is more steps away
/// than this.
pub const CALM_DISTANCE: u32 = 8;

/// An entity of a pack turns on the player when the player is fewer steps
/// away than this.
pub const PACK_AGGRESSION_DISTANCE: u32 = 4;

/// Those of `points` that can be walked on, in their order.
pub open spec fn walkable_among(grid: Grid, points: Seq<Option<Point>>) -> Seq<Point>
    decreases points.len(),
{
    if points.len() == 0 {
        Seq::empty()
    } else {
        let rest = walkable_among(grid, points.drop_last());
        match points.last() {
            Some(p) => if grid.walkable_spec(p) {
                rest.push(p)
            } else {
                rest
            },
            None => rest,
        }
    }
}

/// The neighbouring tile that is picked for an entity on `pos`: one of
/// those that can be walked on, each as likely as the other; its own tile
/// where there is none.
pub open spec fn neighbouring_spec(grid: Grid, rng: Random, pos: Position) -> (i32, i32) {
    let open = walkable_among(grid, neighbours(pos.point()));
    if open.len() == 0 {
        (pos.x, pos.y)
    } else {
        let p = open[rng.peek_range(0, open.len() as i32) as int];
        (p.x, p.y)
    }
}

/// The stream of random numbers after a neighbouring tile was picked: a
/// number was drawn if there was a choice.
pub open spec fn rng_after_neighbouring(grid: Grid, rng: Random, pos: Position) -> Random {
    if walkable_among(grid, neighbours(pos.point())).len() == 0 {
        rng
    } else {
        rng.advanced()
    }
}

/// A tile next to `pos` that can be walked on, picked at random; `pos`
/// itself where there is none.
pub fn random_neighbouring_position(rng: &mut Random, pos: Position, grid: &Grid) -> (dest: (
    i32,
    i32,
))
    requires
        grid.wf(),
    ensures
        dest == neighbouring_spec(*grid, *old(rng), pos),
        *final(rng) == rng_after_neighbouring(*grid, *old(rng), pos),
{
    let mut walkables: Vec<Point> = Vec::new();
    let mut k: usize = 0;
    let ghost all = neighbours(pos.point());
    while k < 8
        invariant
            grid.wf(),
            k <= 8,
            all == neighbours(pos.point()),
            walkables@ == walkable_among(*grid, all.take(k as int)),
            walkables@.len() <= k,
        decreases 8 - k,
    {
        proof {
            assert(all.take(k + 1).drop_last() == all.take(k as int));
            assert(all.take(k + 1).last() == all[k as int]);
        }
        match nth_neighbour(pos.to_point(), k) {
            Some(p) => {
                if grid.is_walkable(p) {
                    walkables.push(p);
                }
            },
            None => {},
        }
        k = k + 1;
    }
    proof {
        assert(all.take(8) == all);
    }
    if walkables.len() == 0 {
        (pos.x, pos.y)
    } else {
        let pick = rng.range(0, walkables.len() as i32);
        let p = walkables[pick as usize];
        (p.x, p.y)
    }
}

/// The entity `e` in the state `state`.
pub open spec fn in_state(e: Entity, state: AIState) -> Entity {
    Entity { ai: Some(AI { behaviour: e.ai->0.behaviour, state }), ..e }
}

/// Where an entity in the state `state` wants to go: to the player when it
/// has turned on them, to a neighbouring tile when it is idle, to the tile
/// it was sent to check out, and nowhere when it does nothing.
pub open spec fn heading(
    state: AIState,
    pos: Position,
    player_pos: Position,
    grid: Grid,
    rng: Random,
) -> Destination {
    match state {
        AIState::Chasing => Destination { x: player_pos.x, y: player_pos.y },
        AIState::Idle => Destination {
            x: neighbouring_spec(grid, rng, pos).0,
            y: neighbouring_spec(grid, rng, pos).1,
        },
        AIState::CheckingOut(p) => Destination { x: p.x, y: p.y },
        AIState::NoOp => Destination { x: pos.x, y: pos.y },
    }
}

/// The stream of random numbers after an entity in the state `state` has
/// found out where it wants to go.
pub open spec fn rng_after_heading(state: AIState, pos: Position, grid: Grid, rng: Random) -> Random {
    if state is Idle {
        rng_after_neighbouring(grid, rng, pos)
    } else {
        rng
    }
}

fn head_for(state: AIState, pos: Position, player_pos: Position, grid: &Grid, rng: &mut Random) -> (dest:
    Destination)
    requires
        grid.wf(),
    ensures
        dest == heading(state, pos, player_pos, *grid, *old(rng)),
        *final(rng) == rng_after_heading(state, pos, *grid, *old(rng)),
{
    match state {
        AIState::Chasing => Destination { x: player_pos.x, y: player_pos.y },
        AIState::Idle => {
            let (x, y) = random_neighbouring_position(rng, pos, grid);
            Destination { x, y }
        },
        AIState::CheckingOut(p) => Destination { x: p.x, y: p.y },
        AIState::NoOp => Destination { x: pos.x, y: pos.y },
    }
}

/// The state of an entity on its own once it has looked for the player,
/// who is `distance` steps away.
pub open spec fn individual_state(state: AIState, distance: int) -> AIState {
    if distance < AGGRESSION_DISTANCE {
        AIState::Chasing
    } else if distance > CALM_DISTANCE {
        AIState::Idle
    } else {
        state
    }
}

/// An entity on its own looks for the player, who stands on `player_pos`,
/// and says where it wants to go. The entity must stand somewhere and
/// decide for itself.
pub fn individual_behaviour(
    id: ID,
    ecm: &mut ComponentManager,
    rng: &mut Random,
    grid: &Grid,
    player_pos: Position,
) -> (dest: Destination)
    requires
        old(ecm).wf(),
        old(ecm)@.contains_key(id),
        old(ecm)@[id].position is Some,
        old(ecm)@[id].ai is Some,
        grid.wf(),
    ensures
        final(ecm).wf(),
        final(ecm).paths() == old(ecm).paths(),
        final(ecm).first_id() == old(ecm).first_id(),
        final(ecm).next_id() == old(ecm).next_id(),
        forall|p: Position| #[trigger] final(ecm).occupants(p) == old(ecm).occupants(p),
        ({
            let e = old(ecm)@[id];
            let pos = e.position->0;
            let state = individual_state(
                e.ai->0.state,
                tile_distance_spec(pos.point(), player_pos.point()),
            );
            &&& final(ecm)@ == old(ecm)@.insert(id, in_state(e, state))
            &&& dest == heading(state, pos, player_pos, *grid, *old(rng))
            &&& *final(rng) == rng_after_heading(state, pos, *grid, *old(rng))
        }),
{
    let mut e = ecm.components(id);
    let (pos, ai) = match (e.position, e.ai) {
        (Some(pos), Some(ai)) => (pos, ai),
        _ => {
            return Destination { x: player_pos.x, y: player_pos.y };
        },
    };
    let player_distance = pos.to_point().tile_distance(player_pos.to_point());
    let state = if player_distance < AGGRESSION_DISTANCE {
        AIState::Chasing
    } else if player_distance > CALM_DISTANCE {
        AIState::Idle
    } else {
        ai.state
    };
    e.ai = Some(AI { behaviour: ai.behaviour, state });
    ecm.set_components(id, e);
    head_for(state, pos, player_pos, grid, rng)
}

/// The state of an entity of a pack once it has looked for the player,
/// who is `distance` steps away.
pub open spec fn pack_state(state: AIState, distance: int) -> AIState {
    if distance < PACK_AGGRESSION_DISTANCE {
        AIState::Chasing
    } else {
        state
    }
}

/// Whether the entity `e` hears a howl from `howler`: it is of a pack, has
/// not turned on the player yet, and stands within earshot.
pub open spec fn hears(e: Entity, howler: Position) -> bool {
    &&& e.ai is Some
    &&& e.ai->0.behaviour == Behavior::PackAttacker
    &&& e.ai->0.state != AIState::Chasing
    &&& e.position is Some
    &&& tile_distance_spec(e.position->0.point(), howler.point()) <= HOWLING_DISTANCE
}

/// The entity `e` after a howl from `howler`: one that hears it goes to
/// check out where the player is.
pub open spec fn alerted(e: Entity, howler: Position, player_pos: Position) -> Entity {
    if hears(e, howler) {
        in_state(e, AIState::CheckingOut(player_pos.point()))
    } else {
        e
    }
}

/// Whether the entity `e` of a pack howls: it had not turned on the
/// player, and does so now.
pub open spec fn pack_howls(e: Entity, player_pos: Position) -> bool {
    e.ai->0.state != AIState::Chasing && pack_state(
        e.ai->0.state,
        tile_distance_spec(e.position->0.point(), player_pos.point()),
    ) == AIState::Chasing
}

/// The entities after the entity `id` of a pack has looked for the
/// player: it is in its new state, and if it howled, the others who heard
/// it go to check out where the player is.
pub open spec fn after_hunt(entities: Map<ID, Entity>, id: ID, player_pos: Position) -> Map<
    ID,
    Entity,
> {
    let e = entities[id];
    let pos = e.position->0;
    let state = pack_state(e.ai->0.state, tile_distance_spec(pos.point(), player_pos.point()));
    Map::new(
        |i: ID| entities.contains_key(i),
        |i: ID|
            if i == id {
                in_state(e, state)
            } else if pack_howls(e, player_pos) {
                alerted(entities[i], pos, player_pos)
            } else {
                entities[i]
            },
    )
}

fn is_chasing(state: AIState) -> (b: bool)
    ensures
        b == (state == AIState::Chasing),
{
    match state {
        AIState::Chasing => true,
        _ => false,
    }
}

fn is_pack(behaviour: Behavior) -> (b: bool)
    ensures
        b == (behaviour == Behavior::PackAttacker),
{
    match behaviour {
        Behavior::PackAttacker => true,
        _ => false,
    }
}

/// Whether the entity `e` hears a howl from `howler`.
fn hears_howl(e: &Entity, howler: Position) -> (b: bool)
    ensures
        b == hears(*e, howler),
{
    match (e.ai, e.position) {
        (Some(ai), Some(pos)) => is_pack(ai.behaviour) && !is_chasing(ai.state)
            && pos.to_point().tile_distance(howler.to_point()) <= HOWLING_DISTANCE as u32,
        _ => false,
    }
}

/// The howl of the entity `id`, which stands on `howler`: every other
/// entity that hears it goes to check out where the player is.
fn alert_pack(id: ID, ecm: &mut ComponentManager, howler: Position, player_pos: Position)
    requires
        old(ecm).wf(),
    ensures
        final(ecm).wf(),
        final(ecm).paths() == old(ecm).paths(),
        final(ecm).first_id() == old(ecm).first_id(),
        final(ecm).next_id() == old(ecm).next_id(),
        forall|p: Position| #[trigger] final(ecm).occupants(p) == old(ecm).occupants(p),
        final(ecm)@.dom() == old(ecm)@.dom(),
        forall|i: ID|
            #![trigger final(ecm)@[i]]
            old(ecm)@.contains_key(i) ==> final(ecm)@[i] == if i == id {
                old(ecm)@[i]
            } else {
                alerted(old(ecm)@[i], howler, player_pos)
            },
{
    let ids = ecm.iter();
    let mut k: usize = 0;
    while k < ids.len()
        invariant
            ecm.wf(),
            k <= ids@.len(),
            forall|i: ID| ids@.contains(i) <==> old(ecm)@.contains_key(i),
            forall|a: int, b: int| 0 <= a < b < ids@.len() ==> ids@[a].0 < ids@[b].0,
            ecm@.dom() == old(ecm)@.dom(),
            forall|i: ID|
                #![trigger ecm@[i]]
                old(ecm)@.contains_key(i) ==> ecm@[i] == if i != id && ids@.take(k as int).contains(
                    i,
                ) {
                    alerted(old(ecm)@[i], howler, player_pos)
                } else {
                    old(ecm)@[i]
                },
            ecm.paths() == old(ecm).paths(),
            ecm.first_id() == old(ecm).first_id(),
            ecm.next_id() == old(ecm).next_id(),
            forall|p: Position| #[trigger] ecm.occupants(p) == old(ecm).occupants(p),
        decreases ids@.len() - k,
    {
        let other = ids[k];
        let ghost before = ecm@;
        proof {
            assert(ids@.contains(other));
            assert(ecm@.dom().contains(other));
            let prev = ids@.take(k as int);
            assert(!prev.contains(other)) by {
                if prev.contains(other) {
                    let a = choose|a: int| 0 <= a < prev.len() && prev[a] == other;
                    assert(ids@[a].0 < ids@[k as int].0);
                }
            }
        }
        if other.0 != id.0 {
            let e = ecm.components(other);
            if hears_howl(&e, howler) {
                let mut sent = e;
                match e.ai {
                    Some(ai) => {
                        sent.ai = Some(
                            AI {
                                behaviour: ai.behaviour,
                                state: AIState::CheckingOut(player_pos.to_point()),
                            },
                        );
                    },
                    None => {},
                }
                ecm.set_components(other, sent);
            }
        }
        proof {
            let prev = ids@.take(k as int);
            let next = ids@.take(k + 1);
            assert(next == prev.push(other));
            assert(ecm@.dom() =~= old(ecm)@.dom());
            assert forall|i: ID|
                #![trigger ecm@[i]]
                old(ecm)@.contains_key(i) implies ecm@[i] == if i != id && next.contains(i) {
                alerted(old(ecm)@[i], howler, player_pos)
            } else {
                old(ecm)@[i]
            } by {
                if i == other {
                    assert(next[k as int] == other);
                } else {
                    assert(ecm@[i] == before[i]);
                    if next.contains(i) {
                        let a = choose|a: int| 0 <= a < next.len() && next[a] == i;
                        assert(prev[a] == i);
                    }
                    if prev.contains(i) {
                        let a = choose|a: int| 0 <= a < prev.len() && prev[a] == i;
                        assert(next[a] == i);
                    }
                }
            }
        }
        k = k + 1;
    }
    proof {
        assert(ids@.take(k as int) == ids@);
    }
}

/// An entity of a pack looks for the player, who stands on `player_pos`,
/// and says where it wants to go. When it turns on the player it howls,
/// and the others of the pack within earshot who have not turned on the
/// player go to check out where the player is. The entity must stand
/// somewhere and decide for itself.
pub fn hunting_pack_behaviour(
    id: ID,
    ecm: &mut ComponentManager,
    rng: &mut Random,
    grid: &Grid,
    player_pos: Position,
) -> (dest: Destination)
    requires
        old(ecm).wf(),
        old(ecm)@.contains_key(id),
        old(ecm)@[id].position is Some,
        old(ecm)@[id].ai is Some,
        grid.wf(),
    ensures
        final(ecm).wf(),
        final(ecm).paths() == old(ecm).paths(),
        final(ecm).first_id() == old(ecm).first_id(),
        final(ecm).next_id() == old(ecm).next_id(),
        forall|p: Position| #[trigger] final(ecm).occupants(p) == old(ecm).occupants(p),
        final(ecm)@ == after_hunt(old(ecm)@, id, player_pos),
        ({
            let e = old(ecm)@[id];
            let pos = e.position->0;
            let state = pack_state(
                e.ai->0.state,
                tile_distance_spec(pos.point(), player_pos.point()),
            );
            &&& dest == heading(state, pos, player_pos, *grid, *old(rng))
            &&& *final(rng) == rng_after_heading(state, pos, *grid, *old(rng))
        }),
{
    let mut e = ecm.components(id);
    let (pos, ai) = match (e.position, e.ai) {
        (Some(pos), Some(ai)) => (pos, ai),
        _ => {
            return Destination { x: player_pos.x, y: player_pos.y };
        },
    };
    let player_distance = pos.to_point().tile_distance(player_pos.to_point());
    let state = if player_distance < PACK_AGGRESSION_DISTANCE {
        AIState::Chasing
    } else {
        ai.state
    };
    let howls = !is_chasing(ai.state) && is_chasing(state);
    e.ai = Some(AI { behaviour: ai.behaviour, state });
    ecm.set_components(id, e);
    if howls {
        alert_pack(id, ecm, pos, player_pos);
    }
    proof {
        assert(ecm@ =~= after_hunt(old(ecm)@, id, player_pos));
    }
    head_for(state, pos, player_pos, grid, rng)
}

/// Whether the entity `id` decides where to go: it is the computer's
/// turn, the entity stands somewhere and decides for itself, on its own
/// or as one of a pack, and the player stands somewhere.
pub open spec fn decides(entities: Map<ID, Entity>, id: ID, current_side: Side, player_id: ID) -> bool {
    &&& entities.contains_key(id)
    &&& entities[id].ai is Some
    &&& entities[id].position is Some
    &&& current_side == Side::Computer
    &&& entities.contains_key(player_id)
    &&& entities[player_id].position is Some
    &&& (entities[id].ai->0.behaviour == Behavior::LoneAttacker || entities[id].ai->0.behaviour
        == Behavior::PackAttacker)
}

/// The entities after the entity `id`, which decides, has decided.
pub open spec fn after_decision(entities: Map<ID, Entity>, id: ID, player_id: ID) -> Map<ID, Entity> {
    let e = entities[id];
    let player_pos = entities[player_id].position->0;
    if e.ai->0.behaviour == Behavior::PackAttacker {
        after_hunt(entities, id, player_pos)
    } else {
        entities.insert(
            id,
            in_state(
                e,
                individual_state(
                    e.ai->0.state,
                    tile_distance_spec(e.position->0.point(), player_pos.point()),
                ),
            ),
        )
    }
}

/// The state the entity `e`, which decides, is in once it has looked for
/// the player on `player_pos`.
pub open spec fn decided_state(e: Entity, player_pos: Position) -> AIState {
    let distance = tile_distance_spec(e.position->0.point(), player_pos.point());
    if e.ai->0.behaviour == Behavior::PackAttacker {
        pack_state(e.ai->0.state, distance)
    } else {
        individual_state(e.ai->0.state, distance)
    }
}

/// The entity `id` decides where to go, if it decides at all: see
/// [`decides`]. Where it wants to go becomes its destination.
pub fn ai_process(
    id: ID,
    ecm: &mut ComponentManager,
    rng: &mut Random,
    grid: &Grid,
    current_side: Side,
    player_id: ID,
)
    requires
        old(ecm).wf(),
        grid.wf(),
    ensures
        final(ecm).wf(),
        final(ecm).paths() == old(ecm).paths(),
        final(ecm).first_id() == old(ecm).first_id(),
        final(ecm).next_id() == old(ecm).next_id(),
        forall|p: Position| #[trigger] final(ecm).occupants(p) == old(ecm).occupants(p),
        !decides(old(ecm)@, id, current_side, player_id) ==> final(ecm)@ == old(ecm)@ && *final(rng)
            == *old(rng),
        decides(old(ecm)@, id, current_side, player_id) ==> {
            let e = old(ecm)@[id];
            let pos = e.position->0;
            let player_pos = old(ecm)@[player_id].position->0;
            let state = decided_state(e, player_pos);
            let decided = after_decision(old(ecm)@, id, player_id);
            &&& final(ecm)@ == decided.insert(
                id,
                Entity {
                    destination: Some(heading(state, pos, player_pos, *grid, *old(rng))),
                    ..decided[id]
                },
            )
            &&& *final(rng) == rng_after_heading(state, pos, *grid, *old(rng))
        },
{
    if !ecm.has_entity(id) {
        return ;
    }
    let e = ecm.components(id);
    let ai = match (e.ai, e.position) {
        (Some(ai), Some(_)) => ai,
        _ => {
            return ;
        },
    };
    match current_side {
        Side::Computer => {},
        Side::Player => {
            return ;
        },
    }
    if !ecm.has_entity(player_id) {
        return ;
    }
    let player_pos = match ecm.components(player_id).position {
        Some(p) => p,
        None => {
            return ;
        },
    };
    let dest = match ai.behaviour {
        Behavior::LoneAttacker => individual_behaviour(id, ecm, rng, grid, player_pos),
        Behavior::PackAttacker => hunting_pack_behaviour(id, ecm, rng, grid, player_pos),
        _ => {
            return ;
        },
    };
    let mut decided = ecm.components(id);
    decided.destination = Some(dest);
    ecm.set_components(id, decided);
    proof {
        let before = after_decision(old(ecm)@, id, player_id);
        assert(ecm@ =~= before.insert(
            id,
            Entity { destination: Some(dest), ..before[id] },
        ));
    }
}

/// Whether the entity `id` has a step of its path to take: it stands
/// somewhere, its path has a step left, and it has an action point.
pub open spec fn follows_path(ecm: &ComponentManager, id: ID) -> bool {
    &&& ecm@.contains_key(id)
    &&& ecm@[id].position is Some
    &&& ecm.paths().contains_key(id)
    &&& ecm.paths()[id].len() > 0
    &&& ecm@[id].turn is Some
    &&& ecm@[id].turn->0@.ap > 0
}

/// Where the entity `e` on `pos` goes when `step` is the next step of its
/// path: nowhere while it is stunned, to a neighbouring tile picked at
/// random while it panics, and on `step` else.
pub open spec fn path_step(e: Entity, pos: Position, step: Point, grid: Grid, rng: Random) -> Position {
    if e.stunned is Some {
        pos
    } else if e.panicking is Some {
        Position { x: neighbouring_spec(grid, rng, pos).0, y: neighbouring_spec(grid, rng, pos).1 }
    } else {
        Position { x: step.x, y: step.y }
    }
}

/// The entity `e` on `pos` after it went for `dest`. An entity that goes
/// nowhere waits, which costs a point. It steps on a tile that is free,
/// which costs a point too; it bumps into the first entity that blocks
/// the tile; and nothing happens where only the ground is in the way.
pub open spec fn after_going(e: Entity, pos: Position, dest: Position, free: bool, blocker: Option<
    ID,
>) -> Entity {
    if dest == pos {
        after_spending(e, 1)
    } else if blocker is None && free {
        Entity { position: Some(dest), ..after_spending(e, 1) }
    } else if blocker is Some {
        Entity { bump: Some(Bump(blocker->0)), ..e }
    } else {
        e
    }
}

/// The entity `id` takes the next step of its path, if it has one to
/// take: see [`follows_path`], [`path_step`] and [`after_going`]. The step
/// is off the path whatever becomes of it.
pub fn follow_path_system(id: ID, ecm: &mut ComponentManager, rng: &mut Random, grid: &Grid)
    requires
        old(ecm).wf(),
        grid.wf(),
    ensures
        final(ecm).wf(),
        final(ecm).first_id() == old(ecm).first_id(),
        final(ecm).next_id() == old(ecm).next_id(),
        !follows_path(old(ecm), id) ==> final(ecm)@ == old(ecm)@ && final(ecm).paths() == old(
            ecm,
        ).paths() && *final(rng) == *old(rng) && forall|p: Position| #[trigger]
            final(ecm).occupants(p) == old(ecm).occupants(p),
        follows_path(old(ecm), id) ==> {
            let e = old(ecm)@[id];
            let pos = e.position->0;
            let dest = path_step(e, pos, old(ecm).paths()[id][0], *grid, *old(rng));
            let after = after_going(
                e,
                pos,
                dest,
                grid.walkable_spec(dest.point()),
                first_solid(old(ecm)@, old(ecm).occupants(dest)),
            );
            &&& final(ecm)@ == old(ecm)@.insert(id, after)
            &&& final(ecm).paths() == old(ecm).paths().insert(
                id,
                old(ecm).paths()[id].drop_first(),
            )
            &&& *final(rng) == if e.stunned is None && e.panicking is Some {
                rng_after_neighbouring(*grid, *old(rng), pos)
            } else {
                *old(rng)
            }
            &&& forall|p: Position| #[trigger]
                final(ecm).occupants(p) == if after.position != e.position {
                    old(ecm).occupants_after(id, Some(dest), p)
                } else {
                    old(ecm).occupants(p)
                }
        },
{
    if !ecm.has_entity(id) {
        return ;
    }
    let e = ecm.components(id);
    let (pos, turn) = match (e.position, e.turn) {
        (Some(pos), Some(turn)) => (pos, turn),
        _ => {
            return ;
        },
    };
    if turn.ap() <= 0 {
        return ;
    }
    let step = match ecm.walk_one_step(id) {
        Some(step) => step,
        None => {
            return ;
        },
    };
    let dest = if e.stunned.is_some() {
        pos
    } else if e.panicking.is_some() {
        let (x, y) = random_neighbouring_position(rng, pos, grid);
        Position { x, y }
    } else {
        Position { x: step.x, y: step.y }
    };
    let ghost stepped = *ecm;
    if dest.x == pos.x && dest.y == pos.y {
        let mut waited = e;
        waited.turn = Some(turn.spend_ap(1));
        ecm.set_components(id, waited);
    } else {
        let blocker = solid_entity_on(ecm, dest);
        proof {
            assert(stepped.occupants(dest) == old(ecm).occupants(dest));
        }
        match blocker {
            None => {
                if grid.is_walkable(dest.to_point()) {
                    let mut moved = e;
                    moved.turn = Some(turn.spend_ap(1));
                    ecm.set_components(id, moved);
                    let ghost spent = *ecm;
                    ecm.set_position(id, dest);
                    proof {
                        assert(ecm@ =~= old(ecm)@.insert(
                            id,
                            Entity { position: Some(dest), ..after_spending(e, 1) },
                        ));
                        assert forall|p: Position| #[trigger]
                            ecm.occupants(p) == old(ecm).occupants_after(id, Some(dest), p) by {
                            assert(spent.occupants(p) == stepped.occupants(p));
                            assert(stepped.occupants(p) == old(ecm).occupants(p));
                        }
                    }
                } else {
                    proof {
                        assert(ecm@ =~= old(ecm)@.insert(id, e));
                    }
                }
            },
            Some(bumpee) => {
                let mut bumped = e;
                bumped.bump = Some(Bump(bumpee));
                ecm.set_components(id, bumped);
            },
        }
    }
}

} // verus!
