//! The turn scheduler: two sides take turns. A side keeps control while one
//! of its entities has action points left; when none has, control passes to
//! the other side, whose entities get their points back.

use crate::components::{Side, ID};
use crate::store::{ComponentManager, Entity};
use vstd::prelude::*;

verus! {

/// Whose turn it is, how many full rounds were played, and whether the game
/// was won. After a victory nothing moves any more.
#[derive(Clone, Copy, Debug, PartialEq, Eq, Structural)]
pub struct Scheduler {
    pub side: Side,
    pub turn: i32,
    pub victory: bool,
}

/// The entity takes turns, and for `side`.
pub open spec fn takes_turn_for(e: Entity, side: Side) -> bool {
    e.turn is Some && e.turn->0@.side == side
}

/// No entity of `side` has an action point left. A side without entities is
/// exhausted.
pub open spec fn side_exhausted(entities: Map<ID, Entity>, side: Side) -> bool {
    forall|id: ID|
        #![trigger entities[id]]
        entities.contains_key(id) && takes_turn_for(entities[id], side)
            ==> entities[id].turn->0@.ap == 0
}

/// The entity at the start of the slice of `side`: if it takes turns for
/// that side, it has all its points back and has spent nothing.
pub open spec fn refresh_entity(e: Entity, side: Side) -> Entity {
    if takes_turn_for(e, side) {
        Entity { turn: Some(e.turn->0.refreshed_spec()), ..e }
    } else {
        e
    }
}

/// All entities at the start of the slice of `side`.
pub open spec fn refresh_side(entities: Map<ID, Entity>, side: Side) -> Map<ID, Entity> {
    Map::new(|id: ID| entities.contains_key(id), |id: ID| refresh_entity(entities[id], side))
}

/// Every turn component among `entities` keeps its ledger within bounds.
pub open spec fn turns_wf(entities: Map<ID, Entity>) -> bool {
    forall|id: ID|
        #![trigger entities[id]]
        entities.contains_key(id) && entities[id].turn is Some ==> entities[id].turn->0.wf()
}

impl Scheduler {
    /// The scheduler at the start of a game: the player moves first.
    pub fn new() -> (s: Scheduler)
        ensures
            s == (Scheduler { side: Side::Player, turn: 0, victory: false }),
    {
        Scheduler { side: Side::Player, turn: 0, victory: false }
    }

    /// The scheduler after control has passed to the other side. A round is
    /// counted when control returns from the computer to the player.
    pub open spec fn switched(self) -> Scheduler {
        Scheduler {
            side: self.side.next_spec(),
            turn: if self.side == Side::Computer {
                (self.turn + 1) as i32
            } else {
                self.turn
            },
            victory: self.victory,
        }
    }

    /// Whether the active side is done: the game is not won and none of the
    /// side's entities has an action point left.
    pub open spec fn must_switch(self, entities: Map<ID, Entity>) -> bool {
        !self.victory && side_exhausted(entities, self.side)
    }

    /// Whether no entity of the active side has an action point left.
    pub fn active_side_exhausted(&self, ecm: &ComponentManager) -> (b: bool)
        requires
            ecm.wf(),
        ensures
            b == side_exhausted(ecm@, self.side),
    {
        let ids = ecm.iter();
        let mut exhausted = true;
        let mut i: usize = 0;
        while i < ids.len()
            invariant
                ecm.wf(),
                i <= ids@.len(),
                forall|id: ID| ids@.contains(id) <==> ecm@.contains_key(id),
                exhausted == (forall|j: int|
                    #![trigger ids@[j]]
                    0 <= j < i && takes_turn_for(ecm@[ids@[j]], self.side) ==> ecm@[ids@[j]].turn->0@.ap
                        == 0),
            decreases ids@.len() - i,
        {
            let id = ids[i];
            proof {
                assert(ids@.contains(id));
            }
            let e = ecm.components(id);
            match e.turn {
                Some(t) => {
                    if same_side(t.side(), self.side) && t.ap() != 0 {
                        exhausted = false;
                    }
                },
                None => {},
            }
            i = i + 1;
        }
        proof {
            if exhausted {
                assert forall|id: ID|
                    #![trigger ecm@[id]]
                    ecm@.contains_key(id) && takes_turn_for(ecm@[id], self.side) implies ecm@[id].turn->0@.ap
                    == 0 by {
                    assert(ids@.contains(id));
                    let j = choose|j: int| 0 <= j < ids@.len() && ids@[j] == id;
                    assert(takes_turn_for(ecm@[ids@[j]], self.side));
                }
            } else {
                let j = choose|j: int|
                    #![trigger ids@[j]]
                    0 <= j < i && takes_turn_for(ecm@[ids@[j]], self.side) && ecm@[ids@[j]].turn->0@.ap
                        != 0;
                assert(ids@.contains(ids@[j]));
                assert(ecm@.contains_key(ids@[j]));
            }
        }
        exhausted
    }

    /// Passes control to the other side if the active side is done, and says
    /// whether it did. On a switch every entity of the new side gets its
    /// action points back; nothing else changes. After a victory nothing
    /// happens.
    pub fn advance_if_exhausted(&mut self, ecm: &mut ComponentManager) -> (switched: bool)
        requires
            old(ecm).wf(),
            old(self).turn < i32::MAX,
        ensures
            final(ecm).wf(),
            switched == old(self).must_switch(old(ecm)@),
            switched ==> *final(self) == old(self).switched() && final(ecm)@ == refresh_side(
                old(ecm)@,
                final(self).side,
            ),
            !switched ==> *final(self) == *old(self) && final(ecm)@ == old(ecm)@,
            final(ecm).paths() == old(ecm).paths(),
            final(ecm).first_id() == old(ecm).first_id(),
            final(ecm).next_id() == old(ecm).next_id(),
            forall|pos: crate::components::Position| #[trigger]
                final(ecm).occupants(pos) == old(ecm).occupants(pos),
    {
        if self.victory {
            return false;
        }
        if !self.active_side_exhausted(ecm) {
            return false;
        }
        if self.side.is_last() {
            self.turn = self.turn + 1;
        }
        self.side = self.side.next();
        let side = self.side;
        let ids = ecm.iter();
        let mut i: usize = 0;
        while i < ids.len()
            invariant
                ecm.wf(),
                i <= ids@.len(),
                forall|id: ID| ids@.contains(id) <==> old(ecm)@.contains_key(id),
                forall|a: int, b: int| 0 <= a < b < ids@.len() ==> ids@[a].0 < ids@[b].0,
                ecm@.dom() == old(ecm)@.dom(),
                forall|id: ID|
                    #![trigger ecm@[id]]
                    old(ecm)@.contains_key(id) ==> ecm@[id] == if ids@.take(i as int).contains(id) {
                        refresh_entity(old(ecm)@[id], side)
                    } else {
                        old(ecm)@[id]
                    },
                ecm.paths() == old(ecm).paths(),
                ecm.first_id() == old(ecm).first_id(),
                ecm.next_id() == old(ecm).next_id(),
                forall|pos: crate::components::Position| #[trigger]
                    ecm.occupants(pos) == old(ecm).occupants(pos),
            decreases ids@.len() - i,
        {
            let id = ids[i];
            let ghost before = ecm@;
            proof {
                assert(ids@.contains(id));
                assert(ecm@.dom().contains(id));
                let prev = ids@.take(i as int);
                assert(!prev.contains(id)) by {
                    if prev.contains(id) {
                        let a = choose|a: int| 0 <= a < prev.len() && prev[a] == id;
                        assert(ids@[a].0 < ids@[i as int].0);
                    }
                }
            }
            let e = ecm.components(id);
            match e.turn {
                Some(t) => {
                    if same_side(t.side(), side) {
                        ecm.set_turn(id, t.refreshed());
                    }
                },
                None => {},
            }
            proof {
                let prev = ids@.take(i as int);
                let next = ids@.take(i + 1);
                assert(next == prev.push(id));
                assert(ecm@.dom() =~= old(ecm)@.dom());
                assert forall|other: ID|
                    #![trigger ecm@[other]]
                    old(ecm)@.contains_key(other) implies ecm@[other] == if next.contains(other) {
                    refresh_entity(old(ecm)@[other], side)
                } else {
                    old(ecm)@[other]
                } by {
                    if other == id {
                        assert(next[i as int] == id);
                    } else {
                        assert(ecm@[other] == before[other]);
                        if next.contains(other) {
                            let a = choose|a: int| 0 <= a < next.len() && next[a] == other;
                            assert(prev[a] == other);
                        }
                        if prev.contains(other) {
                            let a = choose|a: int| 0 <= a < prev.len() && prev[a] == other;
                            assert(next[a] == other);
                        }
                    }
                }
            }
            i = i + 1;
        }
        proof {
            assert(ids@.take(i as int) == ids@);
            assert(ecm@ =~= refresh_side(old(ecm)@, side));
        }
        true
    }

    /// Enters the terminal state: from now on neither side moves.
    pub fn declare_victory(&mut self)
        ensures
            *final(self) == (Scheduler { victory: true, ..*old(self) }),
    {
        self.victory = true;
    }
}

fn same_side(a: Side, b: Side) -> (r: bool)
    ensures
        r == (a == b),
{
    match (a, b) {
        (Side::Player, Side::Player) => true,
        (Side::Computer, Side::Computer) => true,
        _ => false,
    }
}

/// Control comes back after two switches, and exactly one round was counted
/// on the way.
pub proof fn lemma_two_switches_make_a_round(s: Scheduler)
    requires
        s.turn < i32::MAX,
    ensures
        s.switched().side != s.side,
        s.switched().switched().side == s.side,
        s.switched().switched().turn == s.turn + 1,
        s.switched().side == Side::Player ==> s.switched().turn == s.turn + 1,
        s.switched().side == Side::Computer ==> s.switched().turn == s.turn,
{
}

/// A side that was just given control keeps it: if one of its entities can
/// hold an action point at all, the side is not exhausted right after the
/// switch, so the next check does not switch back.
pub proof fn lemma_fresh_side_keeps_control(entities: Map<ID, Entity>, s: Scheduler, id: ID)
    requires
        entities.contains_key(id),
        takes_turn_for(entities[id], s.side),
        entities[id].turn->0@.max_ap > 0,
    ensures
        !s.must_switch(refresh_side(entities, s.side)),
{
    let fresh = refresh_side(entities, s.side);
    let t = entities[id].turn->0;
    t.lemma_updates(0);
    assert(fresh.contains_key(id));
    assert(fresh[id] == refresh_entity(entities[id], s.side));
    assert(fresh[id].turn->0@.ap == t@.max_ap);
    assert(takes_turn_for(fresh[id], s.side));
}

/// A side whose entities have spent all their points loses control at the
/// next check, whatever the other side holds: neither side can be passed
/// over.
pub proof fn lemma_exhausted_side_hands_over(entities: Map<ID, Entity>, s: Scheduler)
    requires
        !s.victory,
        side_exhausted(entities, s.side),
    ensures
        s.must_switch(entities),
        s.switched().side == s.side.next_spec(),
{
}

/// The two sides take turns. When the active side is exhausted, control
/// passes to the other side, which gets its points back. If one of its
/// entities can hold a point at all, it keeps control at the next check;
/// and once it is exhausted in its turn, control goes back to the first
/// side, and a round has been counted on the way.
pub proof fn lemma_sides_take_turns(
    entities: Map<ID, Entity>,
    later: Map<ID, Entity>,
    s: Scheduler,
    id: ID,
)
    requires
        !s.victory,
        s.turn < i32::MAX,
        side_exhausted(entities, s.side),
        entities.contains_key(id),
        takes_turn_for(entities[id], s.side.next_spec()),
        entities[id].turn->0@.max_ap > 0,
        side_exhausted(later, s.side.next_spec()),
    ensures
        s.must_switch(entities),
        s.switched().side != s.side,
        !s.switched().must_switch(refresh_side(entities, s.switched().side)),
        s.switched().must_switch(later),
        s.switched().switched().side == s.side,
        s.switched().switched().turn == s.turn + 1,
{
    lemma_exhausted_side_hands_over(entities, s);
    lemma_fresh_side_keeps_control(entities, s.switched(), id);
    lemma_two_switches_make_a_round(s);
}

/// Refreshing a side changes nothing for the entities of the other side and
/// for entities that take no turns.
pub proof fn lemma_refresh_leaves_others(entities: Map<ID, Entity>, side: Side, id: ID)
    requires
        entities.contains_key(id),
        !takes_turn_for(entities[id], side),
    ensures
        refresh_side(entities, side)[id] == entities[id],
{
}

/// Refreshing keeps every ledger within bounds.
pub proof fn lemma_refresh_keeps_turns_wf(entities: Map<ID, Entity>, side: Side)
    requires
        turns_wf(entities),
    ensures
        turns_wf(refresh_side(entities, side)),
{
    let fresh = refresh_side(entities, side);
    assert forall|id: ID|
        #![trigger fresh[id]]
        fresh.contains_key(id) && fresh[id].turn is Some implies fresh[id].turn->0.wf() by {
        assert(entities.contains_key(id));
        let e = entities[id];
        if takes_turn_for(e, side) {
            e.turn->0.lemma_updates(0);
        }
    }
}

} // verus!
