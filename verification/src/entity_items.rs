//! What the things on the ground do to the entities of the component
//! store.
//!
//! An addict who is on their way somewhere is drawn to the nearest dose
//! whose pull reaches them: the dose becomes where they want to be. The
//! entity that the player steers uses whatever lies on the tile it stands
//! on: the thing works on its attributes, a dose makes it used to more, a
//! blast kills who decides for itself around it, and the thing is gone.
//! Who is left on a tile stands there in the order in which they came.

use crate::components::{Addiction, Attributes, Destination, Dose, Position, ID};
use crate::pathfinding::{shortest_path, valid_path, Grid, Path};
use crate::point::{square_points, tile_distance_spec, Point, SquareArea};
use crate::store::{ComponentManager, Entity};
use crate::systems::{kill_entity, killed};
use vstd::prelude::*;

verus! {

/// How far around an addict a dose is looked for.
pub const DOSE_SEARCH_RADIUS: i32 = 3;

/// How far the pull of a dose reaches against a will of `will`: never less
/// than nothing.
pub open spec fn pull_reach(dose: Dose, will: i32) -> int {
    if dose.resist_radius - will < 0 {
        0
    } else {
        dose.resist_radius - will
    }
}

/// Whether the entity `e` is a dose whose pull reaches a walker on `from`
/// with a will of `will`: there is a way to it, and a shortest way has no
/// more steps than its pull reaches.
pub open spec fn pulls(grid: Grid, from: Point, e: Entity, will: i32) -> bool {
    &&& e.dose is Some
    &&& e.position is Some
    &&& exists|way: Seq<Point>| #[trigger]
        shortest_path(grid, from, e.position->0.point(), way) && way.len() <= pull_reach(
            e.dose->0,
            will,
        )
}

/// Whether the entity `found` is taken for the dose `best` that was the
/// nearest so far: it pulls, and it is nearer than `best`, if there is
/// one.
pub open spec fn is_nearer(
    entities: Map<ID, Entity>,
    grid: Grid,
    from: Point,
    will: i32,
    found: ID,
    best: Option<ID>,
) -> bool {
    &&& entities.contains_key(found)
    &&& pulls(grid, from, entities[found], will)
    &&& best matches Some(b) ==> tile_distance_spec(entities[found].position->0.point(), from)
        < tile_distance_spec(entities[b].position->0.point(), from)
}

/// The nearest dose that pulls among the entities `here` and `best`, the
/// nearest so far. Of two that are equally near the earlier stays.
pub open spec fn nearer_of(
    entities: Map<ID, Entity>,
    grid: Grid,
    from: Point,
    will: i32,
    here: Seq<ID>,
    best: Option<ID>,
) -> Option<ID>
    decreases here.len(),
{
    if here.len() == 0 {
        best
    } else {
        let before = nearer_of(entities, grid, from, will, here.drop_last(), best);
        if is_nearer(entities, grid, from, will, here.last(), before) {
            Some(here.last())
        } else {
            before
        }
    }
}

/// The nearest dose that pulls among the entities on the tiles `points`,
/// read in their order.
pub open spec fn nearest_pull(
    ecm: &ComponentManager,
    grid: Grid,
    from: Point,
    will: i32,
    points: Seq<Point>,
) -> Option<ID>
    decreases points.len(),
{
    if points.len() == 0 {
        None
    } else {
        nearer_of(
            ecm@,
            grid,
            from,
            will,
            ecm.occupants(Position { x: points.last().x, y: points.last().y }),
            nearest_pull(ecm, grid, from, will, points.drop_last()),
        )
    }
}

/// Whether the entity `e` is a dose whose pull reaches a walker on `from`.
fn is_pulled(grid: &Grid, from: Point, e: &Entity, will: i32) -> (b: bool)
    requires
        grid.wf(),
    ensures
        b == pulls(*grid, from, *e, will),
{
    let (dose, pos) = match (e.dose, e.position) {
        (Some(dose), Some(pos)) => (dose, pos),
        _ => {
            return false;
        },
    };
    let reach: i64 = if dose.resist_radius as i64 - (will as i64) < 0 {
        0
    } else {
        dose.resist_radius as i64 - will as i64
    };
    let to = pos.to_point();
    match Path::find(from, to, grid) {
        Some(path) => {
            proof {
                assert(shortest_path(*grid, from, to, path@));
                if pulls(*grid, from, *e, will) {
                    let way = choose|way: Seq<Point>| #[trigger]
                        shortest_path(*grid, from, to, way) && way.len() <= pull_reach(dose, will);
                    assert(valid_path(*grid, from, to, way));
                    assert(valid_path(*grid, from, to, path@));
                }
            }
            (path.len() as u64) <= reach as u64
        },
        None => {
            proof {
                if pulls(*grid, from, *e, will) {
                    let way = choose|way: Seq<Point>| #[trigger]
                        shortest_path(*grid, from, to, way) && way.len() <= pull_reach(dose, will);
                    assert(valid_path(*grid, from, to, way));
                }
            }
            false
        },
    }
}

/// Whether the dose system has anything to do with the entity: it is an
/// addict with a mind of its own that stands somewhere.
pub open spec fn craves(entities: Map<ID, Entity>, id: ID) -> bool {
    &&& entities.contains_key(id)
    &&& entities[id].addiction is Some
    &&& entities[id].attributes is Some
    &&& entities[id].position is Some
}

/// The entity `id` is drawn to the nearest dose whose pull reaches it: the
/// dose becomes where it wants to be. Doses are looked for no more than
/// `DOSE_SEARCH_RADIUS` steps away, row by row. Only an addict who is on
/// their way somewhere is drawn; one who is not forgets their path, so
/// that they do not run for a dose of their own accord.
pub fn dose_system(id: ID, ecm: &mut ComponentManager, grid: &Grid)
    requires
        old(ecm).wf(),
        grid.wf(),
        craves(old(ecm)@, id) ==> {
            let pos = old(ecm)@[id].position->0;
            &&& i32::MIN + DOSE_SEARCH_RADIUS <= pos.x <= i32::MAX - DOSE_SEARCH_RADIUS
            &&& i32::MIN + DOSE_SEARCH_RADIUS <= pos.y <= i32::MAX - DOSE_SEARCH_RADIUS
        },
    ensures
        final(ecm).wf(),
        final(ecm).first_id() == old(ecm).first_id(),
        final(ecm).next_id() == old(ecm).next_id(),
        forall|p: Position| #[trigger] final(ecm).occupants(p) == old(ecm).occupants(p),
        !craves(old(ecm)@, id) ==> final(ecm)@ == old(ecm)@ && final(ecm).paths() == old(
            ecm,
        ).paths(),
        craves(old(ecm)@, id) && old(ecm)@[id].destination is None ==> final(ecm)@ == old(ecm)@
            && final(ecm).paths() == old(ecm).paths().remove(id),
        craves(old(ecm)@, id) && old(ecm)@[id].destination is Some ==> {
            let e = old(ecm)@[id];
            let from = e.position->0.point();
            &&& final(ecm).paths() == old(ecm).paths()
            &&& final(ecm)@ == match nearest_pull(
                old(ecm),
                *grid,
                from,
                e.attributes->0.will,
                square_points(from, DOSE_SEARCH_RADIUS as int),
            ) {
                Some(dose) => old(ecm)@.insert(
                    id,
                    Entity {
                        destination: Some(
                            Destination {
                                x: old(ecm)@[dose].position->0.x,
                                y: old(ecm)@[dose].position->0.y,
                            },
                        ),
                        ..e
                    },
                ),
                None => old(ecm)@,
            }
        },
{
    if !ecm.has_entity(id) {
        return ;
    }
    let e = ecm.components(id);
    let (will, pos) = match (e.addiction, e.attributes, e.position) {
        (Some(_), Some(attributes), Some(pos)) => (attributes.will, pos),
        _ => {
            return ;
        },
    };
    if e.destination.is_none() {
        ecm.remove_path(id);
        return ;
    }
    let from = pos.to_point();
    let mut area = SquareArea::new(from, DOSE_SEARCH_RADIUS);
    let ghost all = square_points(from, DOSE_SEARCH_RADIUS as int);
    let ghost mut seen: Seq<Point> = Seq::empty();
    let mut best: Option<(ID, Position)> = None;
    proof {
        assert(seen + area.remaining() == all);
    }
    loop
        invariant
            ecm.wf(),
            grid.wf(),
            *ecm == *old(ecm),
            seen + area.remaining() == all,
            place_of(best) == nearest_pull(ecm, *grid, from, will, seen),
            best matches Some((b, at)) ==> ecm@.contains_key(b) && ecm@[b].position == Some(at),
        ensures
            seen == all,
        decreases area.remaining().len(),
    {
        let ghost seen_before = seen;
        match area.next() {
            None => {
                proof {
                    assert(seen + Seq::<Point>::empty() == seen);
                }
                break ;
            },
            Some(p) => {
                let here = ecm.entities_on_pos(Position { x: p.x, y: p.y });
                let ghost best_before = place_of(best);
                let mut j: usize = 0;
                proof {
                    seen = seen.push(p);
                    assert(seen_before.push(p) + area.remaining() == seen_before + (seq![p]
                        + area.remaining()));
                    assert(seen.drop_last() == seen_before);
                    assert(seen.last() == p);
                    assert(here@.take(0) =~= Seq::<ID>::empty());
                }
                while j < here.len()
                    invariant
                        ecm.wf(),
                        grid.wf(),
                        *ecm == *old(ecm),
                        j <= here@.len(),
                        forall|i: ID|
                            here@.contains(i) <==> (ecm@.contains_key(i) && ecm@[i].position
                                == Some(Position { x: p.x, y: p.y })),
                        place_of(best) == nearer_of(
                            ecm@,
                            *grid,
                            from,
                            will,
                            here@.take(j as int),
                            best_before,
                        ),
                        best matches Some((b, at)) ==> ecm@.contains_key(b) && ecm@[b].position
                            == Some(at),
                    decreases here@.len() - j,
                {
                    let found = here[j];
                    proof {
                        assert(here@.contains(found));
                        assert(here@.take(j + 1).drop_last() =~= here@.take(j as int));
                        assert(here@.take(j + 1).last() == found);
                    }
                    let other = ecm.components(found);
                    if is_pulled(grid, from, &other, will) {
                        let at = Position { x: p.x, y: p.y };
                        let nearer = match best {
                            Some((_, so_far)) => at.to_point().tile_distance(from)
                                < so_far.to_point().tile_distance(from),
                            None => true,
                        };
                        if nearer {
                            best = Some((found, at));
                        }
                    }
                    j = j + 1;
                }
                proof {
                    assert(here@.take(j as int) =~= here@);
                }
            },
        }
    }
    match best {
        Some((_, at)) => {
            let mut drawn = e;
            drawn.destination = Some(Destination { x: at.x, y: at.y });
            ecm.set_components(id, drawn);
        },
        None => {},
    }
}

/// The entity of a find, if there is one.
pub open spec fn place_of(best: Option<(ID, Position)>) -> Option<ID> {
    match best {
        Some((id, _)) => Some(id),
        None => None,
    }
}

/// The sum `v`, held within what a component can hold.
pub open spec fn held(v: int) -> int {
    crate::ranged_int::clamp(v, i32::MIN as int, i32::MAX as int)
}

fn hold(v: i128) -> (r: i32)
    ensures
        r == held(v as int),
{
    if v > i32::MAX as i128 {
        i32::MAX
    } else if v < i32::MIN as i128 {
        i32::MIN
    } else {
        v as i32
    }
}

/// The entity `user` after it has used the entity `thing`: what `thing`
/// does to attributes is done to those of `user`, less what `user` has
/// got used to if `thing` is a dose; and a dose makes `user` used to
/// more.
pub open spec fn used_on(user: Entity, thing: Entity) -> Entity {
    let tolerance: int = if thing.dose is Some && user.addiction is Some {
        user.addiction->0.tolerance as int
    } else {
        0
    };
    Entity {
        attributes: match (thing.attribute_modifier, user.attributes) {
            (Some(modifier), Some(attributes)) => Some(
                Attributes {
                    state_of_mind: held(
                        attributes.state_of_mind + modifier.state_of_mind - tolerance,
                    ) as i32,
                    will: held(attributes.will + modifier.will) as i32,
                },
            ),
            _ => user.attributes,
        },
        addiction: match (thing.dose, user.addiction) {
            (Some(dose), Some(addiction)) => Some(
                Addiction {
                    tolerance: held(addiction.tolerance + dose.tolerance_modifier) as i32,
                    ..addiction
                },
            ),
            _ => user.addiction,
        },
        ..user
    }
}

fn use_on(user: Entity, thing: &Entity) -> (after: Entity)
    ensures
        after == used_on(user, *thing),
{
    let mut after = user;
    let tolerance: i128 = match (thing.dose, user.addiction) {
        (Some(_), Some(addiction)) => addiction.tolerance as i128,
        _ => 0,
    };
    match (thing.attribute_modifier, user.attributes) {
        (Some(modifier), Some(attributes)) => {
            after.attributes = Some(
                Attributes {
                    state_of_mind: hold(
                        attributes.state_of_mind as i128 + modifier.state_of_mind as i128
                            - tolerance,
                    ),
                    will: hold(attributes.will as i128 + modifier.will as i128),
                },
            );
        },
        _ => {},
    }
    match (thing.dose, user.addiction) {
        (Some(dose), Some(addiction)) => {
            after.addiction = Some(
                Addiction {
                    tolerance: hold(addiction.tolerance as i128 + dose.tolerance_modifier as i128),
                    drop_per_turn: addiction.drop_per_turn,
                    last_turn: addiction.last_turn,
                },
            );
        },
        _ => {},
    }
    after
}

/// Whether a blast of `radius` steps around `center` kills the entity
/// `e`: it decides for itself and stands within the blast.
pub open spec fn in_blast(e: Entity, center: Position, radius: i32) -> bool {
    &&& e.ai is Some
    &&& e.position is Some
    &&& tile_distance_spec(e.position->0.point(), center.point()) <= radius
}

/// The entities after a blast of `radius` steps around `center`.
pub open spec fn after_blast(entities: Map<ID, Entity>, center: Position, radius: i32) -> Map<
    ID,
    Entity,
> {
    Map::new(
        |i: ID| entities.contains_key(i),
        |i: ID|
            if in_blast(entities[i], center, radius) {
                killed(entities[i])
            } else {
                entities[i]
            },
    )
}

fn stands_in_blast(e: &Entity, center: Position, radius: i32) -> (b: bool)
    ensures
        b == in_blast(*e, center, radius),
{
    match (e.ai, e.position) {
        (Some(_), Some(pos)) => radius >= 0 && pos.to_point().tile_distance(center.to_point())
            <= radius as u32,
        _ => false,
    }
}

/// A blast of `radius` steps around `center`: every entity within it that
/// decides for itself dies.
pub fn blast(ecm: &mut ComponentManager, center: Position, radius: i32)
    requires
        old(ecm).wf(),
    ensures
        final(ecm).wf(),
        final(ecm).paths() == old(ecm).paths(),
        final(ecm).first_id() == old(ecm).first_id(),
        final(ecm).next_id() == old(ecm).next_id(),
        final(ecm)@ == after_blast(old(ecm)@, center, radius),
        final(ecm).thinned(old(ecm)),
{
    let ids = ecm.iter();
    proof {
        ecm.lemma_thinned_itself();
    }
    let mut k: usize = 0;
    while k < ids.len()
        invariant
            ecm.wf(),
            k <= ids@.len(),
            forall|i: ID| ids@.contains(i) <==> old(ecm)@.contains_key(i),
            forall|a: int, b: int| 0 <= a < b < ids@.len() ==> ids@[a].0 < ids@[b].0,
            ecm@.dom() == old(ecm)@.dom(),
            forall|i: ID|
                #![trigger ecm@[i]]
                old(ecm)@.contains_key(i) ==> ecm@[i] == if ids@.take(k as int).contains(i)
                    && in_blast(old(ecm)@[i], center, radius) {
                    killed(old(ecm)@[i])
                } else {
                    old(ecm)@[i]
                },
            ecm.paths() == old(ecm).paths(),
            ecm.first_id() == old(ecm).first_id(),
            ecm.next_id() == old(ecm).next_id(),
            ecm.thinned(old(ecm)),
        decreases ids@.len() - k,
    {
        let other = ids[k];
        let ghost before = ecm@;
        let ghost mid = *ecm;
        proof {
            assert(ids@.contains(other));
            assert(ecm@.dom().contains(other));
            let prev = ids@.take(k as int);
            assert(!prev.contains(other)) by {
                if prev.contains(other) {
                    let a = choose|a: int| 0 <= a < prev.len() && prev[a] == other;
                    assert(ids@[a].0 < ids@[k as int].0);
                }
            }
        }
        let e = ecm.components(other);
        if stands_in_blast(&e, center, radius) {
            kill_entity(other, ecm);
            proof {
                assert(ecm@.dom() =~= mid@.dom());
                ecm.lemma_thinned_by_one(&mid, old(ecm), other);
            }
        }
        proof {
            let prev = ids@.take(k as int);
            let next = ids@.take(k + 1);
            assert(next == prev.push(other));
            assert(ecm@.dom() =~= old(ecm)@.dom());
            assert forall|i: ID|
                #![trigger ecm@[i]]
                old(ecm)@.contains_key(i) implies ecm@[i] == if next.contains(i) && in_blast(
                old(ecm)@[i],
                center,
                radius,
            ) {
                killed(old(ecm)@[i])
            } else {
                old(ecm)@[i]
            } by {
                if i == other {
                    assert(next[k as int] == other);
                } else {
                    assert(ecm@[i] == before[i]);
                    if next.contains(i) {
                        let a = choose|a: int| 0 <= a < next.len() && next[a] == i;
                        assert(prev[a] == i);
                    }
                    if prev.contains(i) {
                        let a = choose|a: int| 0 <= a < prev.len() && prev[a] == i;
                        assert(next[a] == i);
                    }
                }
            }
        }
        k = k + 1;
    }
    proof {
        assert(ids@.take(k as int) == ids@);
        assert(ecm@ =~= after_blast(old(ecm)@, center, radius));
    }
}

/// The entities after the entity `id`, which stands on `pos`, has used
/// the entity `thing` that lay there: what `thing` does is done to `id`,
/// its blast, if it has one, kills around `pos`, and `thing` is gone from
/// the tile.
pub open spec fn after_use(entities: Map<ID, Entity>, id: ID, pos: Position, thing: ID) -> Map<
    ID,
    Entity,
> {
    let used = entities.insert(id, used_on(entities[id], entities[thing]));
    let blown = match entities[thing].explosion_effect {
        Some(effect) => after_blast(used, pos, effect.radius),
        None => used,
    };
    blown.insert(thing, Entity { position: None, ..blown[thing] })
}

/// The entities after the entity `id` on `pos` has used the entities
/// `here`, one after the other. It does not use itself.
pub open spec fn after_uses(entities: Map<ID, Entity>, id: ID, pos: Position, here: Seq<ID>) -> Map<
    ID,
    Entity,
>
    decreases here.len(),
{
    if here.len() == 0 {
        entities
    } else {
        let before = after_uses(entities, id, pos, here.drop_last());
        if here.last() == id {
            before
        } else {
            after_use(before, id, pos, here.last())
        }
    }
}

/// Whether the interaction system has anything to do with the entity: the
/// player steers it, and it stands somewhere.
pub open spec fn interacts(entities: Map<ID, Entity>, id: ID) -> bool {
    &&& entities.contains_key(id)
    &&& entities[id].accepts_user_input is Some
    &&& entities[id].position is Some
}

/// The entity `id` uses everything that lies on the tile it stands on,
/// in the order in which the things came to lie there: see [`after_use`].
pub fn interaction_system(id: ID, ecm: &mut ComponentManager)
    requires
        old(ecm).wf(),
    ensures
        final(ecm).wf(),
        final(ecm).paths() == old(ecm).paths(),
        final(ecm).first_id() == old(ecm).first_id(),
        final(ecm).next_id() == old(ecm).next_id(),
        final(ecm)@ == if interacts(old(ecm)@, id) {
            after_uses(
                old(ecm)@,
                id,
                old(ecm)@[id].position->0,
                old(ecm).occupants(old(ecm)@[id].position->0),
            )
        } else {
            old(ecm)@
        },
        final(ecm).thinned(old(ecm)),
{
    proof {
        ecm.lemma_thinned_itself();
    }
    if !ecm.has_entity(id) {
        return ;
    }
    let user = ecm.components(id);
    let pos = match (user.accepts_user_input, user.position) {
        (Some(_), Some(pos)) => pos,
        _ => {
            return ;
        },
    };
    let here = ecm.entities_on_pos(pos);
    let mut j: usize = 0;
    proof {
        assert(here@.take(0) =~= Seq::<ID>::empty());
    }
    while j < here.len()
        invariant
            ecm.wf(),
            j <= here@.len(),
            here@ == old(ecm).occupants(pos),
            forall|i: ID| here@.contains(i) ==> old(ecm)@.contains_key(i),
            ecm@.dom() == old(ecm)@.dom(),
            old(ecm)@.contains_key(id),
            ecm@ == after_uses(old(ecm)@, id, pos, here@.take(j as int)),
            ecm.thinned(old(ecm)),
            ecm.paths() == old(ecm).paths(),
            ecm.first_id() == old(ecm).first_id(),
            ecm.next_id() == old(ecm).next_id(),
        decreases here@.len() - j,
    {
        let thing_id = here[j];
        let ghost before = ecm@;
        proof {
            assert(here@.contains(thing_id));
            assert(here@.take(j + 1).drop_last() =~= here@.take(j as int));
            assert(here@.take(j + 1).last() == thing_id);
            assert(ecm@.dom().contains(thing_id));
            assert(ecm@.dom().contains(id));
        }
        if thing_id.0 != id.0 {
            let thing = ecm.components(thing_id);
            let user = ecm.components(id);
            let ghost started = *ecm;
            ecm.set_components(id, use_on(user, &thing));
            let ghost used = ecm@;
            let ghost fed = *ecm;
            proof {
                assert(used =~= before.insert(id, used_on(before[id], before[thing_id])));
                assert(ecm@.dom() =~= started@.dom());
                ecm.lemma_thinned_still(&started, old(ecm));
            }
            match thing.explosion_effect {
                Some(effect) => {
                    blast(ecm, pos, effect.radius);
                    proof {
                        ecm.lemma_thinned_twice(&fed, old(ecm));
                    }
                },
                None => {},
            }
            let ghost blown = *ecm;
            ecm.remove_position(thing_id);
            proof {
                assert(ecm@ =~= after_use(before, id, pos, thing_id));
                assert(ecm@.dom() =~= old(ecm)@.dom());
                assert(blown@.dom() =~= old(ecm)@.dom());
                ecm.lemma_thinned_by_one(&blown, old(ecm), thing_id);
            }
        }
        j = j + 1;
    }
    proof {
        assert(here@.take(j as int) =~= here@);
    }
}

} // verus!
