//! The turn of the monsters.
//!
//! The monsters around the player get their action points back and wait in
//! line. The one at the head of the line decides, commits what it decided
//! and carries it out; if it can act again it goes to the end of the line.
//! The turn is over when nobody waits any more.

use crate::ai::{after_howl, decide, decision_spec, howls, Action, Behavior, PlayerInfo, Update};
use crate::game::{
    kill_monster, monsters_placed_well, only_monsters_differ, same_point, without_monster,
};
use crate::generators::TileKind;
use crate::item::Modifier;
use crate::monster::{Monster, Walkability};
use crate::pathfinding::before_step;
use crate::player::{after_effect, damage_effect, effect_of, Player};
use crate::point::{
    adjacent, lemma_square_points_contains, lemma_square_points_distinct, square_points,
    tile_distance_spec, Point,
};
use crate::random::Random;
use crate::ways::{
    is_shortest_way, lemma_same_ground_same_step, lemma_towards, same_ground, step_towards,
    towards,
};
use crate::world::{CellView, World};
use std::collections::VecDeque;
use vstd::prelude::*;

verus! {

/// How far around the player the monsters take their turns.
pub const ACTIVE_RADIUS: i32 = 32;

/// The monster after it has decided: it is in its new state, has its new
/// ceiling of action points, has spent one point, and remembers where it
/// is heading.
pub open spec fn committed(m: Monster, update: Update, action: Action) -> Monster {
    let max_ap = if update.max_ap < 0 {
        0
    } else {
        update.max_ap
    };
    Monster {
        ai_state: update.ai_state,
        max_ap,
        ap: if m.ap - 1 > max_ap {
            max_ap
        } else {
            (m.ap - 1) as i32
        },
        destination: match action {
            Action::Move(dest) => if dest == m.position {
                None
            } else {
                Some(dest)
            },
            _ => None,
        },
        ..m
    }
}

fn commit(m: &Monster, update: Update, action: Action) -> (acted: Monster)
    requires
        m.wf(),
        m.ap >= 1,
    ensures
        acted == committed(*m, update, action),
        acted.wf(),
        acted.position == m.position,
        acted.ap < m.ap,
{
    let max_ap = if update.max_ap < 0 {
        0
    } else {
        update.max_ap
    };
    let mut acted = *m;
    acted.ai_state = update.ai_state;
    acted.max_ap = max_ap;
    acted.ap = if m.ap - 1 > max_ap {
        max_ap
    } else {
        m.ap - 1
    };
    acted.destination = match action {
        Action::Move(dest) => if same_point(dest, m.position) {
            None
        } else {
            Some(dest)
        },
        _ => None,
    };
    acted
}

/// What a decision knows of the player.
pub open spec fn info_of(player: Player) -> PlayerInfo {
    PlayerInfo { pos: player.pos, high: player.mind.is_high_spec(), max_ap: player.max_ap }
}

/// What the tile `p` holds after the monster `m` has decided and become
/// `acted`: the monsters that heard it howl are on their way to the
/// player, and `acted` stands where `m` stood.
pub open spec fn after_decision(
    world: World,
    m: Monster,
    acted: Monster,
    player: Point,
    p: Point,
) -> CellView {
    let heard = if m.behavior == Behavior::PackAttacker && howls(m, player) {
        after_howl(world, m, player, p)
    } else {
        world.cell_at(p)
    };
    if p == m.position {
        CellView { monster: Some(acted), ..heard }
    } else {
        heard
    }
}

/// What the tile `p` holds after the monster has decided and has left its
/// tile: for `next` if it took a step there, for good if `next` is `None`.
pub open spec fn after_leaving(
    world: World,
    m: Monster,
    acted: Monster,
    player: Point,
    next: Option<Point>,
    p: Point,
) -> CellView {
    let decided = after_decision(world, m, acted, player, p);
    if p == m.position {
        CellView { monster: None, ..decided }
    } else if next == Some(p) {
        CellView { monster: Some(Monster { position: p, ..acted }), ..decided }
    } else {
        decided
    }
}

/// The monster has decided and stays where it is.
pub open spec fn stayed(
    world: World,
    m: Monster,
    acted: Monster,
    player: Point,
    now: World,
    now_at: Option<Point>,
) -> bool {
    &&& now_at == Some(m.position)
    &&& forall|p: Point|
        #![trigger now.cell_at(p)]
        now.cell_at(p) == after_decision(world, m, acted, player, p)
}

/// The monster has decided and has left its tile: for `next` if it took a
/// step there, for good if `next` is `None`.
pub open spec fn gone(
    world: World,
    m: Monster,
    acted: Monster,
    player: Point,
    next: Option<Point>,
    now: World,
    now_at: Option<Point>,
) -> bool {
    &&& now_at == next
    &&& forall|p: Point|
        #![trigger now.cell_at(p)]
        now.cell_at(p) == after_leaving(world, m, acted, player, next, p)
}

/// The longest way a monster looks for.
pub const LONGEST_WAY: usize = 0x7fff_ffff;

/// The step that the monster `m` takes when it wants to be on `dest`: the
/// step towards `dest`, where that is another tile than its own and
/// neither a monster nor the player stands on the step.
pub open spec fn monster_step(world: World, m: Monster, player: Point, dest: Point) -> Option<
    Point,
> {
    if dest == m.position {
        None
    } else {
        match towards(world, m.blockers, m.position, dest, LONGEST_WAY as int) {
            Some(next) => if world.walkable_spec(next, Walkability::BlockingMonsters) && next
                != player {
                Some(next)
            } else {
                None
            },
            None => None,
        }
    }
}

/// The step of a monster leads to a neighbouring tile on which neither a
/// monster nor the player stands.
pub proof fn lemma_monster_step(world: World, m: Monster, player: Point, dest: Point)
    ensures
        monster_step(world, m, player, dest) matches Some(next) ==> adjacent(m.position, next)
            && world.walkable_spec(next, Walkability::BlockingMonsters) && next != player
            && world.monster_at(next) is None,
{
    match monster_step(world, m, player, dest) {
        Some(next) => {
            lemma_towards(world, m.blockers, m.position, dest, LONGEST_WAY as int);
            let way = choose|way: Seq<Point>| #[trigger]
                is_shortest_way(world, m.blockers, m.position, dest, way) && 0 < way.len()
                    <= LONGEST_WAY as int && way[0] == next;
            assert(adjacent(before_step(m.position, way, 0), way[0]));
        },
        None => {},
    }
}

/// The monster that wants to be on `dest` takes its step there, if it has
/// one. Else it stays where it is.
pub open spec fn headed(
    world: World,
    m: Monster,
    acted: Monster,
    player: Point,
    dest: Point,
    now: World,
    now_at: Option<Point>,
) -> bool {
    match monster_step(world, m, player, dest) {
        Some(next) => gone(world, m, acted, player, Some(next), now, now_at),
        None => stayed(world, m, acted, player, now, now_at),
    }
}

/// The player `before` was hit by `effect` and is now `after`.
pub open spec fn hit(before: Player, effect: Modifier, after: Player) -> bool {
    &&& after.wf()
    &&& after@ == after_effect(before@, effect)
    &&& after.pos == before.pos
    &&& after.inventory == before.inventory
    &&& after.ap == before.ap
    &&& after.max_ap == before.max_ap
    &&& after.anxiety_counter == before.anxiety_counter
    &&& after.sobriety_counter == before.sobriety_counter
}

/// What one action of the monster on `at` makes of the world, the player
/// and the stream of random numbers. The monster decides, and commits what
/// it decided. One that wants to be elsewhere heads there. One that
/// attacks the player hits them, and may die of it. `now_at` is where the
/// monster stands afterwards.
#[verifier::opaque]
pub open spec fn monster_acted(
    world: World,
    player: Player,
    rng: Random,
    at: Point,
    now: World,
    after: Player,
    rng_after: Random,
    now_at: Option<Point>,
) -> bool {
    let m = world.monster_at(at)->0;
    let d = decision_spec(m, info_of(player), world, rng);
    let acted = committed(m, d.update, d.action);
    &&& rng_after == d.rng
    &&& match d.action {
        Action::Move(dest) => after == player && headed(
            world,
            m,
            acted,
            player.pos,
            dest,
            now,
            now_at,
        ),
        Action::Attack(target, damage) => if target == player.pos {
            &&& hit(player, effect_of(damage), after)
            &&& if acted.die_after_attack {
                gone(world, m, acted, player.pos, None, now, now_at)
            } else {
                stayed(world, m, acted, player.pos, now, now_at)
            }
        } else {
            after == player && stayed(world, m, acted, player.pos, now, now_at)
        },
        Action::Use(_) => after == player && stayed(world, m, acted, player.pos, now, now_at),
    }
}

/// A decision changes nothing about the ground, and no monster comes or
/// goes by it.
proof fn lemma_decision_keeps_ground(world: World, m: Monster, acted: Monster, player: Point, p: Point)
    requires
        world.monster_at(m.position) is Some,
    ensures
        after_decision(world, m, acted, player, p).tile == world.cell_at(p).tile,
        after_decision(world, m, acted, player, p).items == world.cell_at(p).items,
        after_decision(world, m, acted, player, p).explored == world.cell_at(p).explored,
        after_decision(world, m, acted, player, p).monster is Some <==> world.cell_at(
            p,
        ).monster is Some,
{
}

/// The monster on `at` decides and commits what it decided. Gives the
/// monster as it was, the monster as it is, and what it wants to do.
#[verifier::rlimit(40)]
fn monster_decides(world: &mut World, player: &Player, rng: &mut Random, at: Point) -> (r: Option<
    (Monster, Monster, Action),
>)
    requires
        old(world).wf(),
        old(world).monster_at(at) matches Some(m) && m.ap >= 1,
    ensures
        final(world).wf(),
        final(world).settings() == old(world).settings(),
        final(world).first_dose() == old(world).first_dose(),
        r is Some,
        ({
            let found = r->0;
            let m = found.0;
            let acted = found.1;
            let d = decision_spec(m, info_of(*player), *old(world), *old(rng));
            &&& Some(m) == old(world).monster_at(at)
            &&& m.position == at
            &&& m.wf()
            &&& acted.wf()
            &&& acted.ap < m.ap
            &&& acted == committed(m, d.update, d.action)
            &&& found.2 == d.action
            &&& *final(rng) == d.rng
            &&& forall|p: Point|
                #![trigger final(world).cell_at(p)]
                final(world).cell_at(p) == after_decision(*old(world), m, acted, player.pos, p)
        }),
{
    match world.monster_on_pos(at) {
        Some(m) => {
            let ghost w0 = *world;
            proof {
                world.lemma_extent();
            }
            let info = PlayerInfo {
                pos: player.pos,
                high: player.mind.is_high(),
                max_ap: player.max_ap,
            };
            let (update, action) = decide(&m, info, world, rng);
            let ghost w1 = *world;
            proof {
                crate::ai::lemma_same_world_same_decision(w0, *old(world), m, info, *old(rng));
            }
            let acted = commit(&m, update, action);
            world.set_monster(acted);
            proof {
                assert forall|p: Point|
                    #![trigger world.cell_at(p)]
                    world.cell_at(p) == after_decision(*old(world), m, acted, player.pos, p) by {
                    assert(w0.cell_at(p) == old(world).cell_at(p));
                    assert(w0.monster_at(p) == old(world).monster_at(p));
                    assert(w1.cell_at(p) == if m.behavior == Behavior::PackAttacker && howls(
                        m,
                        player.pos,
                    ) {
                        after_howl(w0, m, player.pos, p)
                    } else {
                        w0.cell_at(p)
                    });
                }
            }
            Some((m, acted, action))
        },
        None => None,
    }
}

/// What heading for `dest` makes of the world in which the monster on `at`
/// has decided already.
pub open spec fn stepped(
    world: World,
    at: Point,
    dest: Point,
    blockers: Walkability,
    player: Point,
    now: World,
    now_at: Point,
) -> bool {
    match towards(world, blockers, at, dest, LONGEST_WAY as int) {
        Some(next) => if world.walkable_spec(next, Walkability::BlockingMonsters) && next
            != player {
            now_at == next && forall|p: Point|
                #![trigger now.cell_at(p)]
                now.cell_at(p) == world.moved(at, next).cell(p)
        } else {
            now_at == at && forall|p: Point|
                #![trigger now.cell_at(p)]
                now.cell_at(p) == world.cell_at(p)
        },
        None => now_at == at && forall|p: Point|
            #![trigger now.cell_at(p)]
            now.cell_at(p) == world.cell_at(p),
    }
}

/// The monster on `at` takes the first step of a shortest way to `dest`,
/// if there is a way and the step is free. Says where it stands then.
fn monster_steps(
    world: &mut World,
    at: Point,
    dest: Point,
    blockers: Walkability,
    player: Point,
) -> (now_at: Point)
    requires
        old(world).wf(),
        old(world).monster_at(at) is Some,
    ensures
        final(world).wf(),
        final(world).settings() == old(world).settings(),
        final(world).first_dose() == old(world).first_dose(),
        stepped(*old(world), at, dest, blockers, player, *final(world), now_at),
{
    let step = step_towards(world, at, dest, blockers, LONGEST_WAY);
    let ghost w1 = *world;
    match step {
        Some(next) => {
            let free = world.walkable(next, Walkability::BlockingMonsters);
            let ghost w2 = *world;
            proof {
                assert(w2.cell_at(next) == w1.cell_at(next));
                assert(w1.cell_at(next) == old(world).cell_at(next));
                assert(w2.cell_at(at) == w1.cell_at(at));
                assert(w1.cell_at(at) == old(world).cell_at(at));
            }
            if free && !same_point(next, player) {
                world.move_monster(at, next);
                proof {
                    assert forall|p: Point|
                        #![trigger world.cell_at(p)]
                        world.cell_at(p) == old(world).moved(at, next).cell(p) by {
                        assert(world.cell_at(p) == w2.moved(at, next).cell(p));
                        assert(w2.cell_at(p) == w1.cell_at(p));
                        assert(w1.cell_at(p) == old(world).cell_at(p));
                    }
                }
                next
            } else {
                proof {
                    assert forall|p: Point|
                        #![trigger world.cell_at(p)]
                        world.cell_at(p) == old(world).cell_at(p) by {
                        assert(w2.cell_at(p) == w1.cell_at(p));
                        assert(w1.cell_at(p) == old(world).cell_at(p));
                    }
                }
                at
            }
        },
        None => at,
    }
}

/// A step in the world in which the monster has decided already is a step
/// in the world before it decided.
#[verifier::rlimit(40)]
proof fn lemma_step_after_decision(
    world: World,
    m: Monster,
    acted: Monster,
    player: Point,
    decided: World,
    dest: Point,
    now: World,
    now_at: Point,
)
    requires
        world.monster_at(m.position) is Some,
        world.cell_at(player).monster is None,
        acted.position == m.position,
        decided.settings() == world.settings(),
        forall|p: Point|
            #![trigger decided.cell_at(p)]
            decided.cell_at(p) == after_decision(world, m, acted, player, p),
        dest != m.position,
        stepped(decided, m.position, dest, m.blockers, player, now, now_at),
    ensures
        headed(world, m, acted, player, dest, now, Some(now_at)),
{
    let at = m.position;
    assert forall|p: Point, w: Walkability| #[trigger]
        decided.walkable_spec(p, w) == world.walkable_spec(p, w) by {
        lemma_decision_keeps_ground(world, m, acted, player, p);
        assert(decided.cell_at(p) == after_decision(world, m, acted, player, p));
    }
    assert(same_ground(decided, world, m.blockers));
    lemma_same_ground_same_step(decided, world, m.blockers, at, dest, LONGEST_WAY as int, 0);
    lemma_towards(world, m.blockers, at, dest, LONGEST_WAY as int);
    match towards(world, m.blockers, at, dest, LONGEST_WAY as int) {
        Some(next) => {
            assert(decided.walkable_spec(next, Walkability::BlockingMonsters)
                == world.walkable_spec(next, Walkability::BlockingMonsters));
            if world.walkable_spec(next, Walkability::BlockingMonsters) && next != player {
                assert(decided.cell_at(at) == after_decision(world, m, acted, player, at));
                assert(next != at);
                assert forall|p: Point|
                    #![trigger now.cell_at(p)]
                    now.cell_at(p) == after_leaving(world, m, acted, player, Some(next), p) by {
                    assert(now.cell_at(p) == decided.moved(at, next).cell(p));
                    assert(decided.cell_at(p) == after_decision(world, m, acted, player, p));
                }
                assert(gone(world, m, acted, player, Some(next), now, Some(now_at)));
            } else {
                assert forall|p: Point|
                    #![trigger now.cell_at(p)]
                    now.cell_at(p) == after_decision(world, m, acted, player, p) by {
                    assert(now.cell_at(p) == decided.cell_at(p));
                }
                assert(stayed(world, m, acted, player, now, Some(now_at)));
            }
        },
        None => {
            assert forall|p: Point|
                #![trigger now.cell_at(p)]
                now.cell_at(p) == after_decision(world, m, acted, player, p) by {
                assert(now.cell_at(p) == decided.cell_at(p));
            }
        },
    }
}

/// The action points of the monster on `p`; none where no monster stands.
pub open spec fn ap_at(world: World, p: Point) -> int {
    match world.monster_at(p) {
        Some(m) => m.ap as int,
        None => 0,
    }
}

/// Where the monster stands, if it is still there.
pub open spec fn place_of(monster: Option<Monster>) -> Option<Point> {
    match monster {
        Some(m) => Some(m.position),
        None => None,
    }
}

/// Whatever the monster on `at` does, nothing but monsters changes, and
/// none comes where a tree or the player stands. The monster itself has
/// fewer action points than before and is no more than a step away, on a
/// tile that was free. No other monster gains or loses an action point.
#[verifier::rlimit(40)]
pub proof fn lemma_monster_acted_well(
    world: World,
    player: Player,
    rng: Random,
    at: Point,
    now: World,
    after: Player,
    rng_after: Random,
    now_at: Option<Point>,
)
    requires
        world.wf(),
        monsters_placed_well(world, player.pos),
        world.monster_at(at) matches Some(m) && m.ap >= 1 && m.position == at,
        now.settings() == world.settings(),
        now.first_dose() == world.first_dose(),
        monster_acted(world, player, rng, at, now, after, rng_after, now_at),
    ensures
        only_monsters_differ(now, world),
        monsters_placed_well(now, player.pos),
        now_at matches Some(p) ==> {
            let m = world.monster_at(at)->0;
            let d = decision_spec(m, info_of(player), world, rng);
            &&& now.monster_at(p) == Some(Monster { position: p, ..committed(m, d.update, d.action) })
            &&& ap_at(now, p) < ap_at(world, at)
            &&& 0 <= ap_at(now, p)
            &&& tile_distance_spec(at, p) <= 1
            &&& p == at || world.monster_at(p) is None
        },
        now_at is None ==> now.monster_at(at) is None,
        forall|q: Point|
            q != at && now_at != Some(q) ==> #[trigger] ap_at(now, q) == ap_at(world, q),
{
    reveal(monster_acted);
    let m = world.monster_at(at)->0;
    let d = decision_spec(m, info_of(player), world, rng);
    let acted = committed(m, d.update, d.action);
    assert forall|p: Point|
        #![trigger now.cell_at(p)]
        now.cell_at(p).tile == world.cell_at(p).tile && now.cell_at(p).items == world.cell_at(
            p,
        ).items && now.cell_at(p).explored == world.cell_at(p).explored && (now.cell_at(
            p,
        ).monster is Some ==> now.cell_at(p).tile == TileKind::Empty) by {
        lemma_decision_keeps_ground(world, m, acted, player.pos, p);
        assert(world.cell_at(p).monster is Some ==> world.cell_at(p).tile == TileKind::Empty);
    }
    lemma_decision_keeps_ground(world, m, acted, player.pos, player.pos);
    lemma_decision_keeps_ground(world, m, acted, player.pos, at);
    match d.action {
        Action::Move(dest) => {
            lemma_monster_step(world, m, player.pos, dest);
        },
        _ => {},
    }
    match now_at {
        Some(p) => {
            lemma_decision_keeps_ground(world, m, acted, player.pos, p);
        },
        None => {},
    }
    assert forall|q: Point| q != at && now_at != Some(q) implies #[trigger] ap_at(now, q) == ap_at(
        world,
        q,
    ) by {
        lemma_decision_keeps_ground(world, m, acted, player.pos, q);
        assert(now.cell_at(q) == after_decision(world, m, acted, player.pos, q));
    }
}

/// One action of the monster that stands on `at`: it decides, commits what
/// it decided, and carries it out. A monster that wants to move takes one
/// step of a shortest way to where it is heading, if there is one and the
/// step is free. A monster that attacks hits the player. Gives the monster
/// as it stands afterwards; `None` if it is gone.
#[verifier::rlimit(40)]
pub fn monster_turn(world: &mut World, player: &mut Player, rng: &mut Random, at: Point) -> (moved:
    Option<Monster>)
    requires
        old(world).wf(),
        old(player).wf(),
        old(world).within_bounds_spec(old(player).pos),
        monsters_placed_well(*old(world), old(player).pos),
        old(world).monster_at(at) matches Some(m) && m.ap >= 1,
    ensures
        final(world).wf(),
        final(player).wf(),
        monster_acted(
            *old(world),
            *old(player),
            *old(rng),
            at,
            *final(world),
            *final(player),
            *final(rng),
            place_of(moved),
        ),
        moved matches Some(m) ==> final(world).monster_at(m.position) == Some(m) && m.wf(),
        final(world).settings() == old(world).settings(),
        final(world).first_dose() == old(world).first_dose(),
        final(player).pos == old(player).pos,
        final(player).inventory == old(player).inventory,
        final(player).ap == old(player).ap,
        final(player).max_ap == old(player).max_ap,
        only_monsters_differ(*final(world), *old(world)),
        monsters_placed_well(*final(world), old(player).pos),
{
    proof {
        reveal(monster_acted);
    }
    let (m, acted, action) = match monster_decides(world, player, rng, at) {
        Some(decision) => decision,
        None => {
            return None;
        },
    };
    let ghost decided = *world;
    let moved = match action {
        Action::Move(dest) => {
            if same_point(dest, at) {
                Some(acted)
            } else {
                proof {
                    lemma_decision_keeps_ground(*old(world), m, acted, player.pos, at);
                }
                let now_at = monster_steps(world, at, dest, m.blockers, player.pos);
                proof {
                    lemma_step_after_decision(
                        *old(world),
                        m,
                        acted,
                        player.pos,
                        decided,
                        dest,
                        *world,
                        now_at,
                    );
                }
                let mut stands = acted;
                stands.position = now_at;
                Some(stands)
            }
        },
        Action::Attack(target, damage) => {
            if same_point(target, player.pos) {
                player.take_effect(damage_effect(damage));
                if acted.die_after_attack {
                    kill_monster(at, world);
                    proof {
                        lemma_decision_keeps_ground(*old(world), m, acted, old(player).pos, at);
                        assert forall|p: Point|
                            #![trigger world.cell_at(p)]
                            world.cell_at(p) == after_leaving(
                                *old(world),
                                m,
                                acted,
                                old(player).pos,
                                None,
                                p,
                            ) by {
                            assert(world.cell_at(p) == without_monster(decided, at, p));
                            assert(decided.cell_at(p) == after_decision(
                                *old(world),
                                m,
                                acted,
                                old(player).pos,
                                p,
                            ));
                        }
                    }
                    None
                } else {
                    Some(acted)
                }
            } else {
                Some(acted)
            }
        },
        Action::Use(_) => Some(acted),
    };
    proof {
        lemma_monster_acted_well(
            *old(world),
            *old(player),
            *old(rng),
            at,
            *world,
            *player,
            *rng,
            place_of(moved),
        );
    }
    moved
}

/// What the tile `p` holds when the turn of the monsters begins: a monster
/// within `ACTIVE_RADIUS` steps of `center` has its action points back.
pub open spec fn rested_cell(world: World, center: Point, p: Point) -> CellView {
    match world.monster_at(p) {
        Some(m) => if tile_distance_spec(p, center) <= ACTIVE_RADIUS {
            CellView { monster: Some(Monster { ap: m.max_ap, ..m }), ..world.cell_at(p) }
        } else {
            world.cell_at(p)
        },
        None => world.cell_at(p),
    }
}

/// `rested` is `world` as the turn of the monsters begins.
pub open spec fn is_rested(rested: World, world: World, center: Point) -> bool {
    &&& rested.settings() == world.settings()
    &&& rested.first_dose() == world.first_dose()
    &&& forall|p: Point|
        #![trigger rested.cell_at(p)]
        rested.cell_at(p) == rested_cell(world, center, p)
}

/// The line in which the monsters wait for their turn: the tiles of those
/// of `monsters` that can have an action point at all, in their order.
pub open spec fn line_up(monsters: Seq<Monster>) -> Seq<Point>
    decreases monsters.len(),
{
    if monsters.len() == 0 {
        Seq::empty()
    } else if monsters.last().max_ap >= 1 {
        line_up(monsters.drop_last()).push(monsters.last().position)
    } else {
        line_up(monsters.drop_last())
    }
}

/// The line after the monster at its head has acted: the monster goes to
/// the end of the line if it is still there and has an action point left.
pub open spec fn line_after(line: Seq<Point>, now: World, now_at: Option<Point>) -> Seq<Point> {
    match now_at {
        Some(p) => if ap_at(now, p) >= 1 {
            line.drop_first().push(p)
        } else {
            line.drop_first()
        },
        None => line.drop_first(),
    }
}

/// The monsters in `line` act in turn, `turns` times in all, until none
/// waits any more: each time the monster at the head of the line acts once
/// and, if it can act again, goes to the end of the line.
pub open spec fn monsters_ran(
    world: World,
    player: Player,
    rng: Random,
    line: Seq<Point>,
    turns: nat,
    now: World,
    after: Player,
    rng_after: Random,
) -> bool
    decreases turns,
{
    if turns == 0 {
        &&& line.len() == 0
        &&& after == player
        &&& rng_after == rng
        &&& now.settings() == world.settings()
        &&& now.first_dose() == world.first_dose()
        &&& forall|p: Point| #![trigger now.cell_at(p)] now.cell_at(p) == world.cell_at(p)
    } else {
        &&& line.len() > 0
        &&& exists|mid: World, hurt: Player, drawn: Random, now_at: Option<Point>|
            #![trigger monster_acted(world, player, rng, line[0], mid, hurt, drawn, now_at)]
            monster_acted(world, player, rng, line[0], mid, hurt, drawn, now_at) && mid.settings()
                == world.settings() && mid.first_dose() == world.first_dose() && monsters_ran(
                mid,
                hurt,
                drawn,
                line_after(line, mid, now_at),
                (turns - 1) as nat,
                now,
                after,
                rng_after,
            )
    }
}

/// The action points of all the monsters in `line`.
pub open spec fn total_ap(world: World, line: Seq<Point>) -> int
    decreases line.len(),
{
    if line.len() == 0 {
        0
    } else {
        total_ap(world, line.drop_last()) + ap_at(world, line.last())
    }
}

/// The sum of the action points, read from the head of the line.
proof fn lemma_total_from_head(world: World, line: Seq<Point>)
    requires
        line.len() > 0,
    ensures
        total_ap(world, line) == ap_at(world, line[0]) + total_ap(world, line.drop_first()),
    decreases line.len(),
{
    if line.len() == 1 {
        assert(line.drop_last() =~= Seq::<Point>::empty());
        assert(line.drop_first() =~= Seq::<Point>::empty());
        assert(total_ap(world, line.drop_last()) == 0);
    } else {
        lemma_total_from_head(world, line.drop_last());
        assert(line.drop_last().drop_first() =~= line.drop_first().drop_last());
        assert(line.drop_first().last() == line.last());
        assert(line.drop_last()[0] == line[0]);
    }
}

/// Where the monsters of a line have the same action points, the sums are
/// the same; and no sum is negative where no monster is short of a point.
proof fn lemma_same_total(a: World, b: World, line: Seq<Point>)
    requires
        forall|i: int| 0 <= i < line.len() ==> ap_at(a, #[trigger] line[i]) == ap_at(b, line[i]),
        forall|i: int| 0 <= i < line.len() ==> ap_at(a, #[trigger] line[i]) >= 1,
    ensures
        total_ap(a, line) == total_ap(b, line),
        total_ap(a, line) >= 0,
    decreases line.len(),
{
    if line.len() > 0 {
        let front = line.drop_last();
        assert forall|i: int| 0 <= i < front.len() implies ap_at(a, #[trigger] front[i]) == ap_at(
            b,
            front[i],
        ) && ap_at(a, front[i]) >= 1 by {
            assert(front[i] == line[i]);
        }
        lemma_same_total(a, b, front);
        assert(line.last() == line[line.len() - 1]);
    }
}

/// The line of the monsters among `points` holds no tile twice, and on
/// each of its tiles stands a monster that can have an action point.
proof fn lemma_line_up(world: World, points: Seq<Point>)
    requires
        world.wf(),
        points.no_duplicates(),
    ensures
        line_up(crate::world::monsters_among(world, points)).no_duplicates(),
        forall|p: Point|
            #![trigger line_up(crate::world::monsters_among(world, points)).contains(p)]
            line_up(crate::world::monsters_among(world, points)).contains(p) ==> points.contains(p)
                && world.monster_at(p) is Some && world.monster_at(p)->0.max_ap >= 1,
    decreases points.len(),
{
    let line = line_up(crate::world::monsters_among(world, points));
    if points.len() > 0 {
        let front = points.drop_last();
        let last = points.last();
        let before = crate::world::monsters_among(world, front);
        let short = line_up(before);
        assert(front.no_duplicates()) by {
            assert forall|i: int, j: int|
                0 <= i < front.len() && 0 <= j < front.len() && i != j implies front[i]
                != front[j] by {
                assert(front[i] == points[i] && front[j] == points[j]);
            }
        }
        lemma_line_up(world, front);
        assert(!front.contains(last)) by {
            if front.contains(last) {
                let i = choose|i: int| 0 <= i < front.len() && front[i] == last;
                assert(points[i] == points[points.len() - 1]);
            }
        }
        assert forall|p: Point| front.contains(p) implies points.contains(p) by {
            let i = choose|i: int| 0 <= i < front.len() && front[i] == p;
            assert(points[i] == p);
        }
        assert(points[points.len() - 1] == last);
        match world.monster_at(last) {
            Some(m) => {
                world.lemma_monsters_know_their_place(last);
                assert(before.push(m).drop_last() =~= before);
                assert(before.push(m).last() == m);
                if m.max_ap >= 1 {
                    assert(line == short.push(last));
                    assert(!short.contains(last));
                    assert forall|i: int, j: int|
                        0 <= i < line.len() && 0 <= j < line.len() && i != j implies line[i]
                        != line[j] by {
                        if i < short.len() {
                            assert(short[i] == line[i]);
                            assert(short.contains(line[i]));
                        }
                        if j < short.len() {
                            assert(short[j] == line[j]);
                            assert(short.contains(line[j]));
                        }
                    }
                    assert forall|p: Point| line.contains(p) implies points.contains(p)
                        && world.monster_at(p) is Some && world.monster_at(p)->0.max_ap >= 1 by {
                        let i = choose|i: int| 0 <= i < line.len() && line[i] == p;
                        if i < short.len() {
                            assert(short[i] == p);
                            assert(short.contains(p));
                        }
                    }
                } else {
                    assert(line == short);
                }
            },
            None => {
                assert(line == short);
            },
        }
    }
}

/// A moment in the turn of the monsters: the world, the player, the stream
/// of random numbers, and the line of the monsters that wait.
pub struct Scene {
    pub world: World,
    pub player: Player,
    pub rng: Random,
    pub line: Seq<Point>,
}

/// Every run of the monsters from the scene `second` is the end of a run
/// from the scene `first` that is `done` turns longer.
#[verifier::opaque]
pub open spec fn continues(first: Scene, done: nat, second: Scene) -> bool {
    forall|turns: nat, now: World, after: Player, rng_after: Random|
        #![trigger monsters_ran(second.world, second.player, second.rng, second.line, turns, now, after, rng_after)]
        monsters_ran(
            second.world,
            second.player,
            second.rng,
            second.line,
            turns,
            now,
            after,
            rng_after,
        ) ==> monsters_ran(
            first.world,
            first.player,
            first.rng,
            first.line,
            (turns + done) as nat,
            now,
            after,
            rng_after,
        )
}

/// A scene continues itself.
proof fn lemma_continues_itself(scene: Scene)
    ensures
        continues(scene, 0, scene),
{
    reveal(continues);
}

/// One more action of the monster at the head of the line continues the
/// run.
proof fn lemma_continues_by_a_turn(
    first: Scene,
    done: nat,
    second: Scene,
    mid: World,
    hurt: Player,
    drawn: Random,
    now_at: Option<Point>,
)
    requires
        continues(first, done, second),
        second.line.len() > 0,
        monster_acted(
            second.world,
            second.player,
            second.rng,
            second.line[0],
            mid,
            hurt,
            drawn,
            now_at,
        ),
        mid.settings() == second.world.settings(),
        mid.first_dose() == second.world.first_dose(),
    ensures
        continues(
            first,
            done + 1,
            (Scene {
                world: mid,
                player: hurt,
                rng: drawn,
                line: line_after(second.line, mid, now_at),
            }),
        ),
{
    reveal(continues);
    let third = Scene {
        world: mid,
        player: hurt,
        rng: drawn,
        line: line_after(second.line, mid, now_at),
    };
    assert forall|turns: nat, now: World, after: Player, rng_after: Random|
        #![trigger monsters_ran(third.world, third.player, third.rng, third.line, turns, now, after, rng_after)]
        monsters_ran(
            third.world,
            third.player,
            third.rng,
            third.line,
            turns,
            now,
            after,
            rng_after,
        ) implies monsters_ran(
        first.world,
        first.player,
        first.rng,
        first.line,
        (turns + (done + 1)) as nat,
        now,
        after,
        rng_after,
    ) by {
        assert(monsters_ran(
            second.world,
            second.player,
            second.rng,
            second.line,
            (turns + 1) as nat,
            now,
            after,
            rng_after,
        ));
        assert((turns + 1 + done) as nat == (turns + (done + 1)) as nat);
    }
}

/// With nobody left in line the run is over.
proof fn lemma_continues_to_the_end(first: Scene, done: nat, second: Scene)
    requires
        continues(first, done, second),
        second.line.len() == 0,
    ensures
        monsters_ran(
            first.world,
            first.player,
            first.rng,
            first.line,
            done,
            second.world,
            second.player,
            second.rng,
        ),
{
    reveal(continues);
    assert(monsters_ran(
        second.world,
        second.player,
        second.rng,
        second.line,
        0,
        second.world,
        second.player,
        second.rng,
    ));
    assert((0 + done) as nat == done);
}

/// After the monster at the head of the line has acted, the line holds
/// no tile twice, everyone in it can act, and the action points of all in
/// line are fewer than before.
#[verifier::rlimit(40)]
proof fn lemma_line_moves_on(
    world: World,
    player: Player,
    rng: Random,
    line: Seq<Point>,
    now: World,
    after: Player,
    rng_after: Random,
    now_at: Option<Point>,
)
    requires
        world.wf(),
        monsters_placed_well(world, player.pos),
        line.len() > 0,
        line.no_duplicates(),
        forall|k: int| 0 <= k < line.len() ==> ap_at(world, #[trigger] line[k]) >= 1,
        now.settings() == world.settings(),
        now.first_dose() == world.first_dose(),
        monster_acted(world, player, rng, line[0], now, after, rng_after, now_at),
    ensures
        line_after(line, now, now_at).no_duplicates(),
        forall|k: int|
            0 <= k < line_after(line, now, now_at).len() ==> ap_at(
                now,
                #[trigger] line_after(line, now, now_at)[k],
            ) >= 1,
        0 <= total_ap(now, line_after(line, now, now_at)) < total_ap(world, line),
{
    let at = line[0];
    let rest = line.drop_first();
    let next = line_after(line, now, now_at);
    world.lemma_monsters_know_their_place(at);
    lemma_monster_acted_well(world, player, rng, at, now, after, rng_after, now_at);
    assert forall|k: int| 0 <= k < rest.len() implies ap_at(now, #[trigger] rest[k]) == ap_at(
        world,
        rest[k],
    ) && ap_at(world, rest[k]) >= 1 by {
        assert(rest[k] == line[k + 1]);
        assert(line[k + 1] != line[0]);
        assert(ap_at(world, line[k + 1]) >= 1);
    }
    assert forall|a: int, b: int| 0 <= a < rest.len() && 0 <= b < rest.len() && a != b implies rest[a]
        != rest[b] by {
        assert(rest[a] == line[a + 1] && rest[b] == line[b + 1]);
    }
    lemma_total_from_head(world, line);
    lemma_same_total(world, now, rest);
    if next.len() > rest.len() {
        let p = now_at->0;
        assert(next == rest.push(p));
        assert(next.drop_last() =~= rest);
        assert(next.last() == p);
        assert(!rest.contains(p)) by {
            if rest.contains(p) {
                let k = choose|k: int| 0 <= k < rest.len() && rest[k] == p;
                assert(ap_at(world, rest[k]) >= 1);
            }
        }
        assert forall|a: int, b: int|
            0 <= a < next.len() && 0 <= b < next.len() && a != b implies next[a] != next[b] by {
            if a < rest.len() {
                assert(rest[a] == next[a]);
                assert(rest.contains(next[a]));
            }
            if b < rest.len() {
                assert(rest[b] == next[b]);
                assert(rest.contains(next[b]));
            }
        }
        assert forall|k: int| 0 <= k < next.len() implies ap_at(now, #[trigger] next[k]) >= 1 by {
            if k < rest.len() {
                assert(rest[k] == next[k]);
            }
        }
    } else {
        assert(next == rest);
    }
    lemma_same_total(now, now, next);
}

/// The turn of the monsters: every monster within `ACTIVE_RADIUS` steps of
/// the player gets its action points back, and then they act in turns, one
/// action each, for as long as one of them has a point left. Nothing
/// happens if the player is dead.
#[verifier::rlimit(40)]
pub fn process_monsters(world: &mut World, player: &mut Player, rng: &mut Random)
    requires
        old(world).wf(),
        old(player).wf(),
        old(world).within_bounds_spec(old(player).pos),
        monsters_placed_well(*old(world), old(player).pos),
    ensures
        final(world).wf(),
        final(player).wf(),
        old(player).dead ==> final(world).same_as(old(world)) && *final(player) == *old(player)
            && *final(rng) == *old(rng),
        !old(player).dead ==> exists|rested: World, turns: nat|
            #![trigger monsters_ran(rested, *old(player), *old(rng), line_up(crate::world::monsters_among(*old(world), square_points(old(player).pos, ACTIVE_RADIUS as int))), turns, *final(world), *final(player), *final(rng))]
            is_rested(rested, *old(world), old(player).pos) && monsters_ran(
                rested,
                *old(player),
                *old(rng),
                line_up(
                    crate::world::monsters_among(
                        *old(world),
                        square_points(old(player).pos, ACTIVE_RADIUS as int),
                    ),
                ),
                turns,
                *final(world),
                *final(player),
                *final(rng),
            ),
        final(player).pos == old(player).pos,
        final(player).inventory == old(player).inventory,
        final(player).ap == old(player).ap,
        final(player).max_ap == old(player).max_ap,
        only_monsters_differ(*final(world), *old(world)),
        monsters_placed_well(*final(world), old(player).pos),
{
    if !player.alive() {
        return ;
    }
    proof {
        world.lemma_extent();
    }
    let center = player.pos;
    let monsters = world.monsters_around(center, ACTIVE_RADIUS);
    let ghost points = square_points(center, ACTIVE_RADIUS as int);
    let ghost line = line_up(monsters@);
    let mut queue: VecDeque<Point> = VecDeque::new();
    let mut i: usize = 0;
    while i < monsters.len()
        invariant
            world.wf(),
            i <= monsters@.len(),
            world.settings() == old(world).settings(),
            world.first_dose() == old(world).first_dose(),
            forall|k: int|
                0 <= k < monsters@.len() ==> (#[trigger] monsters@[k]).wf() && old(
                    world,
                ).monster_at(monsters@[k].position) == Some(monsters@[k]) && tile_distance_spec(
                    monsters@[k].position,
                    center,
                ) <= ACTIVE_RADIUS,
            forall|p: Point|
                #![trigger world.cell_at(p)]
                world.cell_at(p) == rested_cell(*old(world), center, p) || world.cell_at(p) == old(
                    world,
                ).cell_at(p),
            forall|k: int|
                0 <= k < i ==> world.cell_at((#[trigger] monsters@[k]).position) == rested_cell(
                    *old(world),
                    center,
                    monsters@[k].position,
                ),
            queue@ == line_up(monsters@.take(i as int)),
        decreases monsters@.len() - i,
    {
        let mut fresh = monsters[i];
        assert(old(world).monster_at(fresh.position) == Some(fresh));
        fresh.new_turn();
        let ghost before = *world;
        world.set_monster(fresh);
        if fresh.has_ap(1) {
            queue.push_back(fresh.position);
        }
        proof {
            assert(monsters@.take(i + 1).drop_last() =~= monsters@.take(i as int));
            assert(monsters@.take(i + 1).last() == monsters@[i as int]);
            assert forall|p: Point|
                #![trigger world.cell_at(p)]
                world.cell_at(p) == rested_cell(*old(world), center, p) || world.cell_at(p) == old(
                    world,
                ).cell_at(p) by {
                assert(before.cell_at(p) == rested_cell(*old(world), center, p) || before.cell_at(
                    p,
                ) == old(world).cell_at(p));
            }
            assert forall|k: int| 0 <= k < i + 1 implies world.cell_at(
                (#[trigger] monsters@[k]).position,
            ) == rested_cell(*old(world), center, monsters@[k].position) by {
                let q = monsters@[k].position;
                assert(before.cell_at(q) == rested_cell(*old(world), center, q) || before.cell_at(q)
                    == old(world).cell_at(q));
            }
        }
        i = i + 1;
    }
    let ghost rested = *world;
    proof {
        assert(monsters@.take(i as int) =~= monsters@);
        lemma_square_points_distinct(center, ACTIVE_RADIUS);
        lemma_line_up(*old(world), points);
        assert forall|p: Point|
            #![trigger rested.cell_at(p)]
            rested.cell_at(p) == rested_cell(*old(world), center, p) by {
            if rested.cell_at(p) != rested_cell(*old(world), center, p) {
                let m = old(world).monster_at(p)->0;
                assert(monsters@.contains(m));
                let k = choose|k: int| 0 <= k < monsters@.len() && monsters@[k] == m;
                old(world).lemma_monsters_know_their_place(p);
                assert(monsters@[k].position == p);
            }
        }
        assert forall|k: int| 0 <= k < queue@.len() implies ap_at(rested, #[trigger] queue@[k])
            >= 1 by {
            let p = queue@[k];
            assert(line.contains(p));
            lemma_square_points_contains(center, ACTIVE_RADIUS, p);
            assert(rested.cell_at(p) == rested_cell(*old(world), center, p));
        }
        assert forall|p: Point|
            #![trigger rested.cell_at(p)]
            rested.cell_at(p).tile == old(world).cell_at(p).tile && rested.cell_at(p).items == old(
                world,
            ).cell_at(p).items && rested.cell_at(p).explored == old(world).cell_at(p).explored && (
            rested.cell_at(p).monster is Some <==> old(world).cell_at(p).monster is Some) by {
            assert(rested.cell_at(p) == rested_cell(*old(world), center, p));
        }
    }
    let ghost first = Scene { world: rested, player: *player, rng: *rng, line };
    let ghost mut done: nat = 0;
    proof {
        lemma_continues_itself(first);
    }
    loop
        invariant
            world.wf(),
            player.wf(),
            world.settings() == old(world).settings(),
            world.first_dose() == old(world).first_dose(),
            player.pos == old(player).pos,
            player.inventory == old(player).inventory,
            player.ap == old(player).ap,
            player.max_ap == old(player).max_ap,
            world.within_bounds_spec(player.pos),
            only_monsters_differ(*world, *old(world)),
            monsters_placed_well(*world, player.pos),
            queue@.no_duplicates(),
            forall|k: int| 0 <= k < queue@.len() ==> ap_at(*world, #[trigger] queue@[k]) >= 1,
            continues(
                first,
                done,
                (Scene { world: *world, player: *player, rng: *rng, line: queue@ }),
            ),
        ensures
            queue@.len() == 0,
        decreases total_ap(*world, queue@),
    {
        let ghost before = Scene { world: *world, player: *player, rng: *rng, line: queue@ };
        match queue.pop_front() {
            None => {
                break ;
            },
            Some(at) => {
                let ghost rest = queue@;
                proof {
                    assert(rest =~= before.line.drop_first());
                    assert(ap_at(before.world, before.line[0]) >= 1);
                }
                let moved = monster_turn(world, player, rng, at);
                match moved {
                    Some(m) => {
                        if m.has_ap(1) {
                            queue.push_back(m.position);
                        }
                    },
                    None => {},
                }
                proof {
                    let now_at = place_of(moved);
                    assert(queue@ == line_after(before.line, *world, now_at));
                    lemma_line_moves_on(
                        before.world,
                        before.player,
                        before.rng,
                        before.line,
                        *world,
                        *player,
                        *rng,
                        now_at,
                    );
                    lemma_continues_by_a_turn(
                        first,
                        done,
                        before,
                        *world,
                        *player,
                        *rng,
                        now_at,
                    );
                    done = done + 1;
                }
            },
        }
    }
    proof {
        lemma_continues_to_the_end(
            first,
            done,
            (Scene { world: *world, player: *player, rng: *rng, line: queue@ }),
        );
    }
}

} // verus!
