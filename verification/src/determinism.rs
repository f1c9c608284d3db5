//! Two games that hold the same go the same way.
//!
//! Nothing in a game is left to chance that the seed does not decide: what
//! a step makes of a game is decided by what the game holds. So a game that
//! is played again from the same seed with the same commands comes by the
//! same places and the same turns, step for step.

use crate::ai::{decision_spec, Action};
use crate::game::{
    carried_out, command_action_spec, commanded, counted, empty_handed, first_of_kind,
    game_stepped, gather, is_new_game, looked_at, monsters_turned, next_turn, overruling,
    player_turned, pull_step, pulling_dose, rng_after_impulse, takes_command, used, walked,
    Explosion, GameState, DOSE_SEARCH_RADIUS,
};
use crate::horde::{
    after_decision, after_leaving, ap_at, committed, info_of, is_rested, line_after, line_up,
    monster_acted, monster_step, monsters_ran, rested_cell, ACTIVE_RADIUS, LONGEST_WAY,
};
use crate::item::Kind;
use crate::monster::{Monster, Walkability};
use crate::player::{lemma_same_values_same_player, same_player, Player};
use crate::point::{square_points, Point};
use crate::random::Random;
use crate::replay::{commands_text, log_text, replay_of, Command, NEWLINE};
use crate::ways::same_ground;
use crate::world::World;
use vstd::prelude::*;

verus! {

/// Walking to the same tile makes the same of the same player in the same
/// world.
#[verifier::rlimit(40)]
pub proof fn lemma_same_walk(
    pa: Player,
    pb: Player,
    wa: World,
    wb: World,
    dest: Point,
    pa2: Player,
    pb2: Player,
    wa2: World,
    wb2: World,
    ea: Option<Explosion>,
    eb: Option<Explosion>,
)
    requires
        pa.wf(),
        pb.wf(),
        same_player(pa, pb),
        wa.same_as(&wb),
        walked(pa, wa, dest, pa2, wa2, ea),
        walked(pb, wb, dest, pb2, wb2, eb),
    ensures
        same_player(pa2, pb2),
        wa2.same_as(&wb2),
        ea == eb,
{
    assert(wa.cell_at(dest) == wb.cell_at(dest));
    assert(wa.monster_at(dest) == wb.monster_at(dest));
    assert(wa.walkable_spec(dest, Walkability::BlockingMonsters) == wb.walkable_spec(
        dest,
        Walkability::BlockingMonsters,
    ));
    assert(empty_handed(pa) == empty_handed(pb));
    match wa.monster_at(dest) {
        Some(m) => {
            pa2.anxiety_counter.lemma_same_value_same_range(pb2.anxiety_counter);
            pa2.will.lemma_same_value_same_range(pb2.will);
            assert forall|p: Point| #[trigger] wa2.cell_at(p) == wb2.cell_at(p) by {
                assert(wa.cell_at(p) == wb.cell_at(p));
                assert(wb2.cell_at(p) == crate::game::without_monster(wb, dest, p));
            }
        },
        None => {
            if wa.walkable_spec(dest, Walkability::BlockingMonsters) {
                let h = gather(empty_handed(pa), wa.cell_at(dest).items);
                lemma_same_values_same_player(pa2, pb2);
                assert forall|p: Point| #[trigger] wa2.cell_at(p) == wb2.cell_at(p) by {
                    assert(wa.cell_at(p) == wb.cell_at(p));
                    assert(wb2.cell_at(p) == crate::game::after_gathering(wb, dest, h.widest, p));
                }
            } else {
                assert forall|p: Point| #[trigger] wa2.cell_at(p) == wb2.cell_at(p) by {
                    assert(wa.cell_at(p) == wb.cell_at(p));
                    assert(wb2.cell_at(p) == wb.cell_at(p));
                }
            }
        },
    }
}

/// Using a thing of the same kind makes the same of the same player in
/// the same world.
pub proof fn lemma_same_use(
    pa: Player,
    pb: Player,
    wa: World,
    wb: World,
    kind: Kind,
    pa2: Player,
    pb2: Player,
    wa2: World,
    wb2: World,
    ea: Option<Explosion>,
    eb: Option<Explosion>,
)
    requires
        pa.wf(),
        pb.wf(),
        same_player(pa, pb),
        wa.same_as(&wb),
        used(pa, wa, kind, pa2, wa2, ea),
        used(pb, wb, kind, pb2, wb2, eb),
    ensures
        same_player(pa2, pb2),
        wa2.same_as(&wb2),
        ea == eb,
{
    if exists|i: int| first_of_kind(pa.inventory@, kind, i) {
        let i = choose|i: int| first_of_kind(pa.inventory@, kind, i);
        assert(first_of_kind(pb.inventory@, kind, i));
        let item = pa.inventory@[i];
        lemma_same_values_same_player(pa2, pb2);
        assert forall|p: Point| #[trigger] wa2.cell_at(p) == wb2.cell_at(p) by {
            assert(wa.cell_at(p) == wb.cell_at(p));
            assert(wb2.cell_at(p) == crate::game::after_blast(
                wb,
                pb.pos,
                crate::game::blast_radius(item),
                p,
            ));
        }
    } else {
        assert forall|i: int| !#[trigger] first_of_kind(pb.inventory@, kind, i) by {
            assert(!first_of_kind(pa.inventory@, kind, i));
        }
        assert forall|p: Point| #[trigger] wa2.cell_at(p) == wb2.cell_at(p) by {
            assert(wa.cell_at(p) == wb.cell_at(p));
            assert(wb2.cell_at(p) == wb.cell_at(p));
        }
    }
}

/// Carrying out the same makes the same of the same player in the same
/// world.
pub proof fn lemma_same_outcome(
    pa: Player,
    pb: Player,
    wa: World,
    wb: World,
    action: Action,
    pa2: Player,
    pb2: Player,
    wa2: World,
    wb2: World,
    ea: Option<Explosion>,
    eb: Option<Explosion>,
)
    requires
        pa.wf(),
        pb.wf(),
        same_player(pa, pb),
        wa.same_as(&wb),
        carried_out(pa, wa, action, pa2, wa2, ea),
        carried_out(pb, wb, action, pb2, wb2, eb),
    ensures
        same_player(pa2, pb2),
        wa2.same_as(&wb2),
        ea == eb,
{
    match action {
        Action::Move(dest) => {
            lemma_same_walk(pa, pb, wa, wb, dest, pa2, pb2, wa2, wb2, ea, eb);
        },
        Action::Use(kind) => {
            lemma_same_use(pa, pb, wa, wb, kind, pa2, pb2, wa2, wb2, ea, eb);
        },
        Action::Attack(_, _) => {
            assert forall|p: Point| #[trigger] wa2.cell_at(p) == wb2.cell_at(p) by {
                assert(wa.cell_at(p) == wb.cell_at(p));
                assert(wb2.cell_at(p) == wb.cell_at(p));
            }
        },
    }
}

/// The same player in the same world does the same in place of what they
/// wanted, and draws as many random numbers.
pub proof fn lemma_same_impulse(pa: Player, pb: Player, wa: World, wb: World, wanted: Action, rng: Random)
    requires
        same_player(pa, pb),
        wa.same_as(&wb),
    ensures
        overruling(pa, wanted, wa, rng) == overruling(pb, wanted, wb, rng),
        rng_after_impulse(pa, wa, rng) == rng_after_impulse(pb, wb, rng),
{
    crate::ai::lemma_same_world_same_choices(
        wa,
        wb,
        rng,
        pa.pos,
        Walkability::WalkthroughMonsters,
        pa.pos,
    );
    crate::world::lemma_same_world_same_dose(
        wa,
        wb,
        pa.pos,
        square_points(pa.pos, DOSE_SEARCH_RADIUS as int),
    );
    assert(pulling_dose(wa, pa) == pulling_dose(wb, pb));
    assert(same_ground(wa, wb, Walkability::WalkthroughMonsters)) by {
        assert forall|p: Point| #[trigger]
            wa.walkable_spec(p, Walkability::WalkthroughMonsters) == wb.walkable_spec(
                p,
                Walkability::WalkthroughMonsters,
            ) by {
            assert(wa.cell_at(p) == wb.cell_at(p));
        }
    }
    match pulling_dose(wa, pa) {
        Some((at, reach)) => {
            crate::ways::lemma_same_ground_same_step(
                wa,
                wb,
                Walkability::WalkthroughMonsters,
                pa.pos,
                at,
                reach,
                0,
            );
        },
        None => {},
    }
    assert(pull_step(wa, pa) == pull_step(wb, pb));
    assert(crate::game::must_use(pa) == crate::game::must_use(pb));
}

/// The same command makes the same of the same player in the same world.
pub proof fn lemma_same_command(
    pa: Player,
    pb: Player,
    commands: Seq<Command>,
    wa: World,
    wb: World,
    rng: Random,
    log: Seq<u8>,
    pa2: Player,
    pb2: Player,
    ca2: Seq<Command>,
    cb2: Seq<Command>,
    wa2: World,
    wb2: World,
    ra2: Random,
    rb2: Random,
    la2: Seq<u8>,
    lb2: Seq<u8>,
    ea: Option<Explosion>,
    eb: Option<Explosion>,
)
    requires
        pa.wf(),
        pb.wf(),
        same_player(pa, pb),
        wa.same_as(&wb),
        commanded(pa, commands, wa, rng, log, pa2, ca2, wa2, ra2, la2, ea),
        commanded(pb, commands, wb, rng, log, pb2, cb2, wb2, rb2, lb2, eb),
    ensures
        same_player(pa2, pb2),
        wa2.same_as(&wb2),
        ca2 == cb2,
        ra2 == rb2,
        la2 == lb2,
        ea == eb,
{
    if takes_command(pa, commands) {
        let wanted = command_action_spec(pa.pos, commands[0]);
        lemma_same_impulse(pa, pb, wa, wb, wanted, rng);
        lemma_same_outcome(
            pa,
            pb,
            wa,
            wb,
            overruling(pa, wanted, wa, rng),
            pa2,
            pb2,
            wa2,
            wb2,
            ea,
            eb,
        );
    } else {
        assert forall|p: Point| #[trigger] wa2.cell_at(p) == wb2.cell_at(p) by {
            assert(wa2.cell_at(p) == wa.cell_at(p));
            assert(wa.cell_at(p) == wb.cell_at(p));
            assert(wb2.cell_at(p) == wb.cell_at(p));
        }
    }
}

/// The two games hold the same: the same player in the same place, the
/// same world with the same monsters, the same stream of random numbers,
/// the same commands and log, and the same count of turns.
pub open spec fn same_game(a: GameState, b: GameState) -> bool {
    &&& same_player(a.player, b.player)
    &&& a.world.same_as(&b.world)
    &&& a.rng == b.rng
    &&& a.commands@ == b.commands@
    &&& a.log@ == b.log@
    &&& a.scheduler == b.scheduler
    &&& a.explosion == b.explosion
}

/// The turn of the player makes the same of two games that hold the same.
#[verifier::rlimit(40)]
pub proof fn lemma_same_player_turn(a: GameState, b: GameState, a2: GameState, b2: GameState)
    requires
        a.player.wf(),
        b.player.wf(),
        same_game(a, b),
        player_turned(a, a2),
        player_turned(b, b2),
    ensures
        same_game(a2, b2),
{
    let (pa, wa, ea) = choose|acted: Player, seen: World, blast: Option<Explosion>|
        #![trigger commanded(a.player, a.commands@, a.world, a.rng, a.log@, acted, a2.commands@, seen, a2.rng, a2.log@, blast)]
        commanded(
            a.player,
            a.commands@,
            a.world,
            a.rng,
            a.log@,
            acted,
            a2.commands@,
            seen,
            a2.rng,
            a2.log@,
            blast,
        ) && counted(a.player, acted, a2.player) && a2.explosion == (if blast is Some {
            blast
        } else {
            a.explosion
        }) && (forall|p: Point|
            #![trigger a2.world.cell_at(p)]
            a2.world.cell_at(p) == looked_at(seen, acted.pos, acted.mind, p));
    let (pb, wb, eb) = choose|acted: Player, seen: World, blast: Option<Explosion>|
        #![trigger commanded(b.player, b.commands@, b.world, b.rng, b.log@, acted, b2.commands@, seen, b2.rng, b2.log@, blast)]
        commanded(
            b.player,
            b.commands@,
            b.world,
            b.rng,
            b.log@,
            acted,
            b2.commands@,
            seen,
            b2.rng,
            b2.log@,
            blast,
        ) && counted(b.player, acted, b2.player) && b2.explosion == (if blast is Some {
            blast
        } else {
            b.explosion
        }) && (forall|p: Point|
            #![trigger b2.world.cell_at(p)]
            b2.world.cell_at(p) == looked_at(seen, acted.pos, acted.mind, p));
    lemma_same_command(
        a.player,
        b.player,
        a.commands@,
        a.world,
        b.world,
        a.rng,
        a.log@,
        pa,
        pb,
        a2.commands@,
        b2.commands@,
        wa,
        wb,
        a2.rng,
        b2.rng,
        a2.log@,
        b2.log@,
        ea,
        eb,
    );
    a2.player.sobriety_counter.lemma_same_value_same_range(b2.player.sobriety_counter);
    assert forall|p: Point| #[trigger] a2.world.cell_at(p) == b2.world.cell_at(p) by {
        assert(wa.cell_at(p) == wb.cell_at(p));
        assert(b2.world.cell_at(p) == looked_at(wb, pb.pos, pb.mind, p));
    }
}

/// One action of the monster on the same tile makes the same of the same
/// world and the same player.
#[verifier::rlimit(40)]
pub proof fn lemma_same_monster_turn(
    wa: World,
    wb: World,
    pa: Player,
    pb: Player,
    rng: Random,
    at: Point,
    wa2: World,
    wb2: World,
    pa2: Player,
    pb2: Player,
    ra2: Random,
    rb2: Random,
    na: Option<Point>,
    nb: Option<Point>,
)
    requires
        same_player(pa, pb),
        wa.same_as(&wb),
        wa2.settings() == wa.settings(),
        wa2.first_dose() == wa.first_dose(),
        wb2.settings() == wb.settings(),
        wb2.first_dose() == wb.first_dose(),
        monster_acted(wa, pa, rng, at, wa2, pa2, ra2, na),
        monster_acted(wb, pb, rng, at, wb2, pb2, rb2, nb),
    ensures
        same_player(pa2, pb2),
        wa2.same_as(&wb2),
        ra2 == rb2,
        na == nb,
{
    reveal(monster_acted);
    assert(wa.cell_at(at) == wb.cell_at(at));
    let m = wa.monster_at(at)->0;
    assert(wb.monster_at(at)->0 == m);
    let info = info_of(pa);
    assert(info_of(pb) == info);
    crate::ai::lemma_same_world_same_decision(wa, wb, m, info, rng);
    let d = decision_spec(m, info, wa, rng);
    let acted = committed(m, d.update, d.action);
    assert forall|p: Point|
        after_decision(wa, m, acted, pa.pos, p) == after_decision(wb, m, acted, pb.pos, p) by {
        assert(wa.cell_at(p) == wb.cell_at(p));
    }
    assert forall|p: Point, next: Option<Point>|
        after_leaving(wa, m, acted, pa.pos, next, p) == after_leaving(
            wb,
            m,
            acted,
            pb.pos,
            next,
            p,
        ) by {
        assert(after_decision(wa, m, acted, pa.pos, p) == after_decision(wb, m, acted, pb.pos, p));
    }
    match d.action {
        Action::Move(dest) => {
            lemma_same_monster_step(wa, wb, m, pa.pos, dest);
            match monster_step(wa, m, pa.pos, dest) {
                Some(next) => {
                    assert forall|p: Point| #[trigger] wa2.cell_at(p) == wb2.cell_at(p) by {
                        assert(wb2.cell_at(p) == after_leaving(
                            wb,
                            m,
                            acted,
                            pb.pos,
                            Some(next),
                            p,
                        ));
                    }
                },
                None => {
                    assert forall|p: Point| #[trigger] wa2.cell_at(p) == wb2.cell_at(p) by {
                        assert(wb2.cell_at(p) == after_decision(wb, m, acted, pb.pos, p));
                    }
                },
            }
        },
        Action::Attack(target, damage) => {
            if target == pa.pos {
                lemma_same_values_same_player(pa2, pb2);
                if acted.die_after_attack {
                    assert forall|p: Point| #[trigger] wa2.cell_at(p) == wb2.cell_at(p) by {
                        assert(wb2.cell_at(p) == after_leaving(wb, m, acted, pb.pos, None, p));
                    }
                } else {
                    assert forall|p: Point| #[trigger] wa2.cell_at(p) == wb2.cell_at(p) by {
                        assert(wb2.cell_at(p) == after_decision(wb, m, acted, pb.pos, p));
                    }
                }
            } else {
                assert forall|p: Point| #[trigger] wa2.cell_at(p) == wb2.cell_at(p) by {
                    assert(wb2.cell_at(p) == after_decision(wb, m, acted, pb.pos, p));
                }
            }
        },
        Action::Use(_) => {
            assert forall|p: Point| #[trigger] wa2.cell_at(p) == wb2.cell_at(p) by {
                assert(wb2.cell_at(p) == after_decision(wb, m, acted, pb.pos, p));
            }
        },
    }
}

/// In worlds that hold the same a monster takes the same step.
pub proof fn lemma_same_monster_step(wa: World, wb: World, m: Monster, player: Point, dest: Point)
    requires
        wa.same_as(&wb),
    ensures
        monster_step(wa, m, player, dest) == monster_step(wb, m, player, dest),
{
    assert(same_ground(wa, wb, m.blockers)) by {
        assert forall|p: Point| #[trigger]
            wa.walkable_spec(p, m.blockers) == wb.walkable_spec(p, m.blockers) by {
            assert(wa.cell_at(p) == wb.cell_at(p));
        }
    }
    crate::ways::lemma_same_ground_same_step(
        wa,
        wb,
        m.blockers,
        m.position,
        dest,
        LONGEST_WAY as int,
        0,
    );
    match crate::ways::towards(wa, m.blockers, m.position, dest, LONGEST_WAY as int) {
        Some(next) => {
            assert(wa.cell_at(next) == wb.cell_at(next));
        },
        None => {},
    }
}

/// The monsters of the same line make the same of the same world and the
/// same player, in as many turns.
#[verifier::rlimit(40)]
pub proof fn lemma_same_run(
    wa: World,
    wb: World,
    pa: Player,
    pb: Player,
    rng: Random,
    line: Seq<Point>,
    ta: nat,
    tb: nat,
    wa2: World,
    wb2: World,
    pa2: Player,
    pb2: Player,
    ra2: Random,
    rb2: Random,
)
    requires
        same_player(pa, pb),
        wa.same_as(&wb),
        monsters_ran(wa, pa, rng, line, ta, wa2, pa2, ra2),
        monsters_ran(wb, pb, rng, line, tb, wb2, pb2, rb2),
    ensures
        ta == tb,
        same_player(pa2, pb2),
        wa2.same_as(&wb2),
        ra2 == rb2,
    decreases ta,
{
    if ta == 0 {
        assert(tb == 0);
        assert forall|p: Point| #[trigger] wa2.cell_at(p) == wb2.cell_at(p) by {
            assert(wa2.cell_at(p) == wa.cell_at(p));
            assert(wa.cell_at(p) == wb.cell_at(p));
            assert(wb2.cell_at(p) == wb.cell_at(p));
        }
    } else {
        assert(tb > 0);
        let (ma, ha, da, na) = choose|
            mid: World,
            hurt: Player,
            drawn: Random,
            now_at: Option<Point>,
        |
            #![trigger monster_acted(wa, pa, rng, line[0], mid, hurt, drawn, now_at)]
            monster_acted(wa, pa, rng, line[0], mid, hurt, drawn, now_at) && mid.settings()
                == wa.settings() && mid.first_dose() == wa.first_dose() && monsters_ran(
                mid,
                hurt,
                drawn,
                line_after(line, mid, now_at),
                (ta - 1) as nat,
                wa2,
                pa2,
                ra2,
            );
        let (mb, hb, db, nb) = choose|
            mid: World,
            hurt: Player,
            drawn: Random,
            now_at: Option<Point>,
        |
            #![trigger monster_acted(wb, pb, rng, line[0], mid, hurt, drawn, now_at)]
            monster_acted(wb, pb, rng, line[0], mid, hurt, drawn, now_at) && mid.settings()
                == wb.settings() && mid.first_dose() == wb.first_dose() && monsters_ran(
                mid,
                hurt,
                drawn,
                line_after(line, mid, now_at),
                (tb - 1) as nat,
                wb2,
                pb2,
                rb2,
            );
        lemma_same_monster_turn(wa, wb, pa, pb, rng, line[0], ma, mb, ha, hb, da, db, na, nb);
        match na {
            Some(p) => {
                assert(ma.cell_at(p) == mb.cell_at(p));
                assert(ap_at(ma, p) == ap_at(mb, p));
            },
            None => {},
        }
        assert(line_after(line, ma, na) == line_after(line, mb, nb));
        lemma_same_run(
            ma,
            mb,
            ha,
            hb,
            da,
            line_after(line, ma, na),
            (ta - 1) as nat,
            (tb - 1) as nat,
            wa2,
            wb2,
            pa2,
            pb2,
            ra2,
            rb2,
        );
    }
}

/// The turn of the monsters makes the same of two games that hold the
/// same.
#[verifier::rlimit(40)]
pub proof fn lemma_same_monsters_turn(a: GameState, b: GameState, a2: GameState, b2: GameState)
    requires
        same_game(a, b),
        monsters_turned(a, a2),
        monsters_turned(b, b2),
    ensures
        same_game(a2, b2),
{
    let center = a.player.pos;
    let points = square_points(center, ACTIVE_RADIUS as int);
    if a.player.dead {
        assert forall|p: Point| #[trigger] a2.world.cell_at(p) == b2.world.cell_at(p) by {
            assert(a2.world.cell_at(p) == a.world.cell_at(p));
            assert(a.world.cell_at(p) == b.world.cell_at(p));
            assert(b2.world.cell_at(p) == b.world.cell_at(p));
        }
        lemma_same_next_turn(a.player, b.player, a2.player, b2.player);
    } else {
        let la = line_up(crate::world::monsters_among(a.world, points));
        let lb = line_up(crate::world::monsters_among(b.world, points));
        crate::world::lemma_same_world_same_monsters(a.world, b.world, points);
        let (ra, ta, ha) = choose|rested: World, turns: nat, hurt: Player|
            #![trigger monsters_ran(rested, a.player, a.rng, la, turns, a2.world, hurt, a2.rng)]
            is_rested(rested, a.world, a.player.pos) && monsters_ran(
                rested,
                a.player,
                a.rng,
                la,
                turns,
                a2.world,
                hurt,
                a2.rng,
            ) && next_turn(hurt, a2.player);
        let (rb, tb, hb) = choose|rested: World, turns: nat, hurt: Player|
            #![trigger monsters_ran(rested, b.player, b.rng, lb, turns, b2.world, hurt, b2.rng)]
            is_rested(rested, b.world, b.player.pos) && monsters_ran(
                rested,
                b.player,
                b.rng,
                lb,
                turns,
                b2.world,
                hurt,
                b2.rng,
            ) && next_turn(hurt, b2.player);
        assert forall|p: Point| #[trigger] ra.cell_at(p) == rb.cell_at(p) by {
            assert(a.world.cell_at(p) == b.world.cell_at(p));
            assert(rb.cell_at(p) == rested_cell(b.world, center, p));
        }
        lemma_same_run(
            ra,
            rb,
            a.player,
            b.player,
            a.rng,
            la,
            ta,
            tb,
            a2.world,
            b2.world,
            ha,
            hb,
            a2.rng,
            b2.rng,
        );
        lemma_same_next_turn(ha, hb, a2.player, b2.player);
    }
}

/// The next turn of the same player begins the same.
pub proof fn lemma_same_next_turn(pa: Player, pb: Player, pa2: Player, pb2: Player)
    requires
        same_player(pa, pb),
        next_turn(pa, pa2),
        next_turn(pb, pb2),
    ensures
        same_player(pa2, pb2),
{
    pa2.stun.lemma_same_value_same_range(pb2.stun);
    pa2.panic.lemma_same_value_same_range(pb2.panic);
}

/// One step makes the same of two games that hold the same.
pub proof fn lemma_same_step(a: GameState, b: GameState, a2: GameState, b2: GameState)
    requires
        a.player.wf(),
        b.player.wf(),
        same_game(a, b),
        game_stepped(a, a2),
        game_stepped(b, b2),
    ensures
        same_game(a2, b2),
{
    reveal(game_stepped);
    if a.scheduler.victory {
        assert forall|p: Point| #[trigger] a2.world.cell_at(p) == b2.world.cell_at(p) by {
            assert(a2.world.cell_at(p) == a.world.cell_at(p));
            assert(a.world.cell_at(p) == b.world.cell_at(p));
            assert(b2.world.cell_at(p) == b.world.cell_at(p));
        }
    } else {
        let ma = choose|mid: GameState|
            #![trigger player_turned(a, mid)]
            player_turned(a, mid) && if mid.player.ap <= 0 {
                monsters_turned(mid, a2)
            } else {
                a2 == mid
            };
        let mb = choose|mid: GameState|
            #![trigger player_turned(b, mid)]
            player_turned(b, mid) && if mid.player.ap <= 0 {
                monsters_turned(mid, b2)
            } else {
                b2 == mid
            };
        lemma_same_player_turn(a, b, ma, mb);
        if ma.player.ap <= 0 {
            lemma_same_monsters_turn(ma, mb, a2, b2);
        }
    }
}

/// A game that is played twice goes the same way twice: where two runs of
/// steps begin with games that hold the same, they hold the same after
/// every step.
pub proof fn lemma_same_games_step_for_step(a: Seq<GameState>, b: Seq<GameState>, i: int)
    requires
        a.len() == b.len(),
        0 <= i < a.len(),
        same_game(a[0], b[0]),
        forall|k: int| 0 <= k < a.len() ==> (#[trigger] a[k]).player.wf(),
        forall|k: int| 0 <= k < b.len() ==> (#[trigger] b[k]).player.wf(),
        forall|k: int| 0 <= k < a.len() - 1 ==> game_stepped(#[trigger] a[k], a[k + 1]),
        forall|k: int| 0 <= k < b.len() - 1 ==> game_stepped(#[trigger] b[k], b[k + 1]),
    ensures
        same_game(a[i], b[i]),
    decreases i,
{
    if i > 0 {
        lemma_same_games_step_for_step(a, b, i - 1);
        assert(game_stepped(a[i - 1], a[i - 1 + 1]));
        assert(game_stepped(b[i - 1], b[i - 1 + 1]));
        lemma_same_step(a[i - 1], b[i - 1], a[i], b[i]);
    }
}

/// Two games that begin with the same seed, the same extent and the same
/// commands hold the same.
pub proof fn lemma_same_new_games(
    a: GameState,
    b: GameState,
    seed: u32,
    max_half_size: i32,
    commands: Seq<Command>,
)
    requires
        is_new_game(a, seed, max_half_size, commands),
        is_new_game(b, seed, max_half_size, commands),
    ensures
        same_game(a, b),
{
    assert(a.player.inventory@ =~= b.player.inventory@);
    lemma_same_values_same_player(a.player, b.player);
    a.world.lemma_same_seed_same_world(&b.world);
}

/// The text of some commands and one more.
pub proof fn lemma_one_more_command(commands: Seq<Command>, command: Command)
    ensures
        commands_text(commands.push(command)) == commands_text(commands) + command.token()
            + seq![NEWLINE],
    decreases commands.len(),
{
    let longer = commands.push(command);
    if commands.len() == 0 {
        assert(longer.drop_first() =~= Seq::<Command>::empty());
        assert(commands_text(longer.drop_first()) =~= Seq::<u8>::empty());
        assert(commands_text(longer) =~= command.token() + seq![NEWLINE]);
        assert(commands_text(commands) =~= Seq::<u8>::empty());
        assert(commands_text(longer) =~= commands_text(commands) + command.token() + seq![
            NEWLINE,
        ]);
    } else {
        lemma_one_more_command(commands.drop_first(), command);
        assert(longer.drop_first() =~= commands.drop_first().push(command));
        assert(longer[0] == commands[0]);
        assert(commands_text(longer) =~= commands_text(commands) + command.token() + seq![
            NEWLINE,
        ]);
    }
}

/// A step takes at most one command, the first that waits, and writes it
/// to the log.
pub proof fn lemma_step_logs_its_command(a: GameState, a2: GameState)
    requires
        game_stepped(a, a2),
    ensures
        (a2.commands@ == a.commands@ && a2.log@ == a.log@) || (a.commands@.len() > 0
            && a2.commands@ == a.commands@.drop_first() && a2.log@ == a.log@
            + a.commands@[0].token() + seq![NEWLINE]),
{
    reveal(game_stepped);
    if !a.scheduler.victory {
        let mid = choose|mid: GameState|
            #![trigger player_turned(a, mid)]
            player_turned(a, mid) && if mid.player.ap <= 0 {
                monsters_turned(mid, a2)
            } else {
                a2 == mid
            };
        assert(a2.commands@ == mid.commands@ && a2.log@ == mid.log@);
    }
}

/// The log of a game grows by the commands that are taken, in their
/// order; the others still wait.
#[verifier::rlimit(40)]
proof fn lemma_log_grows(games: Seq<GameState>, commands: Seq<Command>, i: int) -> (taken: int)
    requires
        0 <= i < games.len(),
        games[0].commands@ == commands,
        forall|k: int| 0 <= k < games.len() - 1 ==> game_stepped(#[trigger] games[k], games[k + 1]),
    ensures
        0 <= taken <= commands.len(),
        games[i].log@ == games[0].log@ + commands_text(commands.take(taken)),
        games[i].commands@ == commands.skip(taken),
    decreases i,
{
    if i == 0 {
        assert(commands.take(0) =~= Seq::<Command>::empty());
        assert(commands.skip(0) =~= commands);
        assert(commands_text(commands.take(0)) =~= Seq::<u8>::empty());
        assert(games[0].log@ + commands_text(commands.take(0)) =~= games[0].log@);
        0
    } else {
        let before = lemma_log_grows(games, commands, i - 1);
        assert(game_stepped(games[i - 1], games[i - 1 + 1]));
        lemma_step_logs_its_command(games[i - 1], games[i]);
        if games[i].commands@ == games[i - 1].commands@ && games[i].log@ == games[i - 1].log@ {
            before
        } else {
            let waiting = commands.skip(before);
            let taken = commands.take(before);
            let next = commands[before];
            assert(waiting[0] == next);
            assert(waiting.drop_first() =~= commands.skip(before + 1));
            assert(commands.take(before + 1) =~= taken.push(next));
            lemma_one_more_command(taken, next);
            assert(games[i].log@ == games[i - 1].log@ + next.token() + seq![NEWLINE]);
            assert(games[0].log@ + commands_text(taken) + next.token() + seq![NEWLINE]
                =~= games[0].log@ + (commands_text(taken) + next.token() + seq![NEWLINE]));
            before + 1
        }
    }
}

/// The log of a game holds its seed and the commands that were taken so
/// far, in their order; the others still wait.
pub proof fn lemma_log_records_the_game(
    games: Seq<GameState>,
    seed: u32,
    max_half_size: i32,
    commands: Seq<Command>,
    i: int,
) -> (taken: int)
    requires
        0 <= i < games.len(),
        is_new_game(games[0], seed, max_half_size, commands),
        forall|k: int| 0 <= k < games.len() - 1 ==> game_stepped(#[trigger] games[k], games[k + 1]),
    ensures
        0 <= taken <= commands.len(),
        games[i].log@ == log_text(seed, commands.take(taken)),
        games[i].commands@ == commands.skip(taken),
{
    let taken = lemma_log_grows(games, commands, i);
    let head = crate::replay::decimal(seed as nat) + seq![NEWLINE];
    assert(commands_text(Seq::<Command>::empty()) =~= Seq::<u8>::empty());
    assert(games[0].log@ =~= head);
    assert(log_text(seed, commands.take(taken)) =~= head + commands_text(commands.take(taken)));
    taken
}

/// A game that is played again from its record goes the way of the game
/// that was recorded. The record of a game with the seed `seed` in which
/// `commands` were taken reads as that seed and those commands; and two
/// games that begin with them hold the same after every step: the player
/// and every monster stand on the same tiles, and as many turns have
/// passed.
pub proof fn lemma_replay_goes_the_same_way(
    seed: u32,
    max_half_size: i32,
    commands: Seq<Command>,
    recorded: Seq<GameState>,
    replayed: Seq<GameState>,
    i: int,
)
    requires
        recorded.len() == replayed.len(),
        0 <= i < recorded.len(),
        is_new_game(recorded[0], seed, max_half_size, commands),
        replay_of(log_text(seed, commands)) matches Ok(read) && is_new_game(
            replayed[0],
            read.0,
            max_half_size,
            read.1,
        ),
        forall|k: int| 0 <= k < recorded.len() ==> (#[trigger] recorded[k]).player.wf(),
        forall|k: int| 0 <= k < replayed.len() ==> (#[trigger] replayed[k]).player.wf(),
        forall|k: int|
            0 <= k < recorded.len() - 1 ==> game_stepped(#[trigger] recorded[k], recorded[k + 1]),
        forall|k: int|
            0 <= k < replayed.len() - 1 ==> game_stepped(#[trigger] replayed[k], replayed[k + 1]),
    ensures
        same_game(recorded[i], replayed[i]),
{
    crate::replay::lemma_replay_round_trip(seed, commands);
    lemma_same_new_games(recorded[0], replayed[0], seed, max_half_size, commands);
    lemma_same_games_step_for_step(recorded, replayed, i);
}

} // verus!
