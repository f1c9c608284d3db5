//! The component kinds an entity can carry. Components are plain data; the
//! rules that keep them consistent with each other live with the store and
//! the systems.

use crate::ai::{AIState, Behavior};
use crate::point::Point;
use vstd::prelude::*;

verus! {

/// The identity of an entity. It means nothing by itself: it is a key into
/// the component store.
#[derive(Clone, Copy, Debug, PartialEq, Eq, Hash, Structural)]
pub struct ID(pub i32);

/// Who owns a turn.
#[derive(Clone, Copy, Debug, PartialEq, Eq, Structural)]
pub enum Side {
    Player,
    Computer,
}

impl Side {
    /// The side that moves after this one.
    pub fn next(&self) -> (s: Side)
        ensures
            s == self.next_spec(),
    {
        match *self {
            Side::Player => Side::Computer,
            Side::Computer => Side::Player,
        }
    }

    /// Whether a full round ends when this side is done.
    pub fn is_last(&self) -> (b: bool)
        ensures
            b == (*self == Side::Computer),
    {
        match *self {
            Side::Player => false,
            Side::Computer => true,
        }
    }

    pub open spec fn next_spec(self) -> Side {
        match self {
            Side::Player => Side::Computer,
            Side::Computer => Side::Player,
        }
    }
}

#[derive(Clone, Copy, Debug, PartialEq, Eq, Structural)]
pub enum MonsterKind {
    Anxiety,
    Depression,
    Hunger,
    Voices,
    Shadows,
}

/// How often an effect repeats.
#[derive(Clone, Copy, Debug, PartialEq, Eq, Structural)]
pub enum Repetitions {
    Infinite,
    Count(i32),
}

#[derive(Clone, Copy, Debug, PartialEq, Eq, Structural)]
pub struct Color {
    pub r: u8,
    pub g: u8,
    pub b: u8,
}

/// Marks the entity that the player steers.
#[derive(Clone, Copy, Debug, PartialEq, Eq, Structural)]
pub struct AcceptsUserInput;

/// Marks an entity that is drawn behind the others.
#[derive(Clone, Copy, Debug, PartialEq, Eq, Structural)]
pub struct Background;

/// The behaviour an entity was created with and what it is doing right now.
#[derive(Clone, Copy, Debug, PartialEq, Eq, Structural)]
pub struct AI {
    pub behaviour: Behavior,
    pub state: AIState,
}

#[derive(Clone, Copy, Debug, PartialEq, Eq, Structural)]
pub struct Position {
    pub x: i32,
    pub y: i32,
}

impl Position {
    pub open spec fn point(self) -> Point {
        Point { x: self.x, y: self.y }
    }

    pub fn to_point(self) -> (p: Point)
        ensures
            p == self.point(),
    {
        Point { x: self.x, y: self.y }
    }
}

/// Where an entity wants to be. Cleared once it was acted upon.
#[derive(Clone, Copy, Debug, PartialEq, Eq, Structural)]
pub struct Destination {
    pub x: i32,
    pub y: i32,
}

impl Destination {
    pub open spec fn point(self) -> Point {
        Point { x: self.x, y: self.y }
    }
}

#[derive(Clone, Copy, Debug, PartialEq, Eq, Structural)]
pub struct Health(pub i32);

/// Blocks movement onto its tile.
#[derive(Clone, Copy, Debug, PartialEq, Eq, Structural)]
pub struct Solid;

/// How an entity is drawn. No rule of the simulation reads it.
#[derive(Clone, Copy, Debug, PartialEq, Eq, Structural)]
pub struct Tile {
    pub level: u32,
    pub glyph: char,
    pub color: Color,
}

#[derive(Clone, Copy, Debug, PartialEq, Eq, Structural)]
pub struct Monster {
    pub kind: MonsterKind,
}

#[derive(Clone, Copy, Debug, PartialEq, Eq, Structural)]
pub struct Attributes {
    pub state_of_mind: i32,
    pub will: i32,
}

#[derive(Clone, Copy, Debug, PartialEq, Eq, Structural)]
pub struct AttributeModifier {
    pub state_of_mind: i32,
    pub will: i32,
}

#[derive(Clone, Copy, Debug, PartialEq, Eq, Structural)]
pub struct Addiction {
    pub tolerance: i32,
    pub drop_per_turn: i32,
    pub last_turn: i32,
}

#[derive(Clone, Copy, Debug, PartialEq, Eq, Structural)]
pub struct AnxietyKillCounter {
    pub count: i32,
    pub threshold: i32,
}

#[derive(Clone, Copy, Debug, PartialEq, Eq, Structural)]
pub struct Dose {
    pub tolerance_modifier: i32,
    pub resist_radius: i32,
}

#[derive(Clone, Copy, Debug, PartialEq, Eq, Structural)]
pub struct ExplosionEffect {
    pub radius: i32,
}

/// The entity that this one means to attack once movement is resolved.
#[derive(Clone, Copy, Debug, PartialEq, Eq, Structural)]
pub struct AttackTarget(pub ID);

/// The entity that this one walked into.
#[derive(Clone, Copy, Debug, PartialEq, Eq, Structural)]
pub struct Bump(pub ID);

#[derive(Clone, Copy, Debug, PartialEq, Eq, Structural)]
pub enum AttackType {
    Kill,
    Stun { duration: i32 },
    Panic { duration: i32 },
    ModifyAttributes,
}

/// What is left at `current_turn` of an effect that began at `turn` and
/// lasts `duration` turns.
pub open spec fn remaining_spec(turn: int, duration: int, current_turn: int) -> int {
    let left = turn + duration - current_turn;
    if left < 0 {
        0
    } else if left > i32::MAX {
        i32::MAX as int
    } else {
        left
    }
}

fn remaining_turns(turn: i32, duration: i32, current_turn: i32) -> (r: i32)
    ensures
        r == remaining_spec(turn as int, duration as int, current_turn as int),
{
    let left: i64 = turn as i64 + duration as i64 - current_turn as i64;
    if left < 0 {
        0
    } else if left > i32::MAX as i64 {
        i32::MAX
    } else {
        left as i32
    }
}

#[derive(Clone, Copy, Debug, PartialEq, Eq, Structural)]
pub struct Stunned {
    pub turn: i32,
    pub duration: i32,
}

impl Stunned {
    /// The number of turns the stun still lasts; never negative.
    pub fn remaining(&self, current_turn: i32) -> (r: i32)
        ensures
            r == remaining_spec(self.turn as int, self.duration as int, current_turn as int),
    {
        remaining_turns(self.turn, self.duration, current_turn)
    }
}

#[derive(Clone, Copy, Debug, PartialEq, Eq, Structural)]
pub struct Panicking {
    pub turn: i32,
    pub duration: i32,
}

impl Panicking {
    /// The number of turns the panic still lasts; never negative.
    pub fn remaining(&self, current_turn: i32) -> (r: i32)
        ensures
            r == remaining_spec(self.turn as int, self.duration as int, current_turn as int),
    {
        remaining_turns(self.turn, self.duration, current_turn)
    }
}

/// The action points of a turn-taking entity.
///
/// The ledger never goes negative and never holds more than `max_ap`: the
/// points still to spend and the points spent in this tick together never
/// exceed `max_ap`.
#[derive(Clone, Copy, Debug, PartialEq, Eq, Structural)]
pub struct Turn {
    side: Side,
    ap: i32,
    max_ap: i32,
    spent_this_tick: i32,
}

/// The plain values of a [`Turn`].
pub struct TurnView {
    pub side: Side,
    pub ap: int,
    pub max_ap: int,
    pub spent_this_tick: int,
}

impl Turn {
    #[verifier::type_invariant]
    pub closed spec fn wf(self) -> bool {
        &&& 0 <= self.ap
        &&& 0 <= self.spent_this_tick
        &&& self.ap + self.spent_this_tick <= self.max_ap
    }

    pub closed spec fn view(&self) -> TurnView {
        TurnView {
            side: self.side,
            ap: self.ap as int,
            max_ap: self.max_ap as int,
            spent_this_tick: self.spent_this_tick as int,
        }
    }

    /// What `wf` says over the plain values.
    pub proof fn lemma_wf(self)
        ensures
            self.wf() <==> (0 <= self@.ap && 0 <= self@.spent_this_tick && self@.ap
                + self@.spent_this_tick <= self@.max_ap),
            i32::MIN <= self@.ap <= i32::MAX,
            i32::MIN <= self@.max_ap <= i32::MAX,
            i32::MIN <= self@.spent_this_tick <= i32::MAX,
    {
    }

    /// The turn with all its points back and nothing spent.
    pub closed spec fn refreshed_spec(self) -> Turn {
        Turn { side: self.side, ap: self.max_ap, max_ap: self.max_ap, spent_this_tick: 0 }
    }

    /// The turn with the points spent in this tick forgotten.
    pub closed spec fn new_tick_spec(self) -> Turn {
        Turn { side: self.side, ap: self.ap, max_ap: self.max_ap, spent_this_tick: 0 }
    }

    /// The turn after `spend` points were spent.
    pub closed spec fn spend_spec(self, spend: int) -> Turn {
        Turn {
            side: self.side,
            ap: (self.ap - spend) as i32,
            max_ap: self.max_ap,
            spent_this_tick: (self.spent_this_tick + spend) as i32,
        }
    }

    /// The plain values of a refreshed turn, of a turn in a new tick and of
    /// a turn after spending. A ledger that is within bounds stays so.
    pub proof fn lemma_updates(self, spend: int)
        ensures
            self.refreshed_spec()@ == (TurnView {
                ap: self@.max_ap,
                spent_this_tick: 0,
                ..self@
            }),
            self.new_tick_spec()@ == (TurnView { spent_this_tick: 0, ..self@ }),
            self.wf() ==> self.refreshed_spec().wf() && self.new_tick_spec().wf(),
            self.wf() && 0 <= spend <= self@.ap ==> self.spend_spec(spend)@ == (TurnView {
                ap: self@.ap - spend,
                spent_this_tick: self@.spent_this_tick + spend,
                ..self@
            }) && self.spend_spec(spend).wf(),
    {
    }

    /// A turn of `side` with nothing spent in this tick.
    pub fn new(side: Side, ap: i32, max_ap: i32) -> (t: Turn)
        requires
            0 <= ap <= max_ap,
        ensures
            t@ == (TurnView { side, ap: ap as int, max_ap: max_ap as int, spent_this_tick: 0 }),
            t.wf(),
    {
        Turn { side, ap, max_ap, spent_this_tick: 0 }
    }

    pub fn side(&self) -> (s: Side)
        ensures
            s == self@.side,
    {
        self.side
    }

    /// The points still to spend: at least zero, at most `max_ap`.
    pub fn ap(&self) -> (ap: i32)
        ensures
            ap == self@.ap,
            0 <= ap <= self@.max_ap,
            self.wf(),
    {
        proof {
            use_type_invariant(self);
        }
        self.ap
    }

    pub fn max_ap(&self) -> (m: i32)
        ensures
            m == self@.max_ap,
            0 <= m,
            self.wf(),
    {
        proof {
            use_type_invariant(self);
        }
        self.max_ap
    }

    pub fn spent_this_tick(&self) -> (s: i32)
        ensures
            s == self@.spent_this_tick,
            0 <= s <= self@.max_ap,
            self.wf(),
    {
        proof {
            use_type_invariant(self);
        }
        self.spent_this_tick
    }

    /// The ledger after the points `spends` were spent, one after the other.
    pub open spec fn after_spends(self, spends: Seq<int>) -> Turn
        decreases spends.len(),
    {
        if spends.len() == 0 {
            self
        } else {
            self.after_spends(spends.drop_last()).spend_spec(spends.last())
        }
    }

    /// Each of `spends` is no more than what is left when it is spent, and
    /// none is negative.
    pub open spec fn spends_allowed(self, spends: Seq<int>) -> bool
        decreases spends.len(),
    {
        spends.len() == 0 || (self.spends_allowed(spends.drop_last()) && 0 <= spends.last()
            <= self.after_spends(spends.drop_last())@.ap)
    }

    /// However many times points are spent, each time no more than are
    /// left: the points left are never fewer than none and never more than
    /// `max_ap`.
    pub proof fn lemma_ap_stays_within_bounds(self, spends: Seq<int>)
        requires
            self.wf(),
            self.spends_allowed(spends),
        ensures
            self.after_spends(spends).wf(),
            0 <= self.after_spends(spends)@.ap <= self@.max_ap,
            self.after_spends(spends)@.max_ap == self@.max_ap,
            self.after_spends(spends)@.side == self@.side,
        decreases spends.len(),
    {
        self.lemma_wf();
        if spends.len() > 0 {
            let before = self.after_spends(spends.drop_last());
            self.lemma_ap_stays_within_bounds(spends.drop_last());
            before.lemma_updates(spends.last());
            before.spend_spec(spends.last()).lemma_wf();
        }
    }

    /// The turn after `spend` points were spent. Spending more than is left
    /// is a fault of the caller.
    pub fn spend_ap(&self, spend: i32) -> (t: Turn)
        requires
            0 <= spend <= self@.ap,
        ensures
            t@ == (TurnView {
                ap: self@.ap - spend,
                spent_this_tick: self@.spent_this_tick + spend,
                ..self@
            }),
            t == self.spend_spec(spend as int),
            t.wf(),
            0 <= t@.ap <= t@.max_ap,
    {
        proof {
            use_type_invariant(self);
        }
        Turn {
            side: self.side,
            ap: self.ap - spend,
            max_ap: self.max_ap,
            spent_this_tick: self.spent_this_tick + spend,
        }
    }

    /// The turn at the start of its side's slice: all points back, nothing
    /// spent.
    pub fn refreshed(&self) -> (t: Turn)
        ensures
            t@ == (TurnView { ap: self@.max_ap, spent_this_tick: 0, ..self@ }),
            t == self.refreshed_spec(),
            t.wf(),
    {
        proof {
            use_type_invariant(self);
        }
        Turn { side: self.side, ap: self.max_ap, max_ap: self.max_ap, spent_this_tick: 0 }
    }

    /// The turn at the start of a tick: the points spent are forgotten.
    pub fn new_tick(&self) -> (t: Turn)
        ensures
            t@ == (TurnView { spent_this_tick: 0, ..self@ }),
            t == self.new_tick_spec(),
            t.wf(),
    {
        proof {
            use_type_invariant(self);
        }
        Turn { side: self.side, ap: self.ap, max_ap: self.max_ap, spent_this_tick: 0 }
    }

    /// The turn with another ceiling. Points above the new ceiling are lost,
    /// first the spent ones.
    pub fn with_max_ap(&self, max_ap: i32) -> (t: Turn)
        requires
            0 <= max_ap,
        ensures
            t@.side == self@.side,
            t@.max_ap == max_ap,
            t@.ap == if self@.ap <= max_ap {
                self@.ap
            } else {
                max_ap as int
            },
            t@.spent_this_tick == if self@.ap + self@.spent_this_tick <= max_ap {
                self@.spent_this_tick
            } else {
                max_ap - t@.ap
            },
            t.wf(),
    {
        proof {
            use_type_invariant(self);
        }
        let ap = if self.ap <= max_ap {
            self.ap
        } else {
            max_ap
        };
        let spent = if self.spent_this_tick <= max_ap - ap {
            self.spent_this_tick
        } else {
            max_ap - ap
        };
        Turn { side: self.side, ap, max_ap, spent_this_tick: spent }
    }
}

/// The waypoints an entity still has to walk, the next one first.
#[derive(Debug)]
pub struct PathComponent {
    pub waypoints: Vec<Point>,
}

impl PathComponent {
    pub fn duplicate(&self) -> (p: PathComponent)
        ensures
            p.waypoints@ == self.waypoints@,
    {
        let mut waypoints: Vec<Point> = Vec::new();
        let mut i: usize = 0;
        while i < self.waypoints.len()
            invariant
                i <= self.waypoints.len(),
                waypoints@ == self.waypoints@.take(i as int),
            decreases self.waypoints.len() - i,
        {
            waypoints.push(self.waypoints[i]);
            proof {
                assert(self.waypoints@.take(i + 1) == self.waypoints@.take(i as int).push(
                    self.waypoints@[i as int],
                ));
            }
            i = i + 1;
        }
        proof {
            assert(self.waypoints@.take(i as int) == self.waypoints@);
        }
        PathComponent { waypoints }
    }
}

} // verus!
