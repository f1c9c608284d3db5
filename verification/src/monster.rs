//! The creatures of the world: what they are, what their attack does and
//! how many action points they have.

use crate::ai::{AIState, Behavior};
use crate::point::Point;
use vstd::prelude::*;

verus! {

#[derive(Clone, Copy, Debug, PartialEq, Eq, Structural)]
pub enum Kind {
    Anxiety,
    Depression,
    Hunger,
    Shadows,
    Voices,
    Npc,
    Signpost,
}

/// What an attack does to its target.
#[derive(Clone, Copy, Debug, PartialEq, Eq, Structural)]
pub enum Damage {
    Death,
    AttributeLoss { will: i32, state_of_mind: i32 },
    Panic(i32),
    Stun(i32),
}

/// Whether monsters stand in the way.
#[derive(Clone, Copy, Debug, PartialEq, Eq, Structural)]
pub enum Walkability {
    WalkthroughMonsters,
    BlockingMonsters,
}

#[derive(Clone, Copy, Debug, PartialEq, Eq, Structural)]
pub struct Monster {
    pub id: usize,
    pub kind: Kind,
    pub position: Point,
    pub dead: bool,
    pub die_after_attack: bool,
    pub behavior: Behavior,
    pub ai_state: AIState,
    pub max_ap: i32,
    pub ap: i32,
    pub blockers: Walkability,
    /// Where the monster was last heading.
    pub destination: Option<Point>,
    pub accompanying_player: bool,
}

/// Whether a monster of this kind dies with its own attack.
pub open spec fn dies_after_attack(kind: Kind) -> bool {
    kind == Kind::Shadows || kind == Kind::Voices
}

/// The action points a monster of this kind gets each turn.
pub open spec fn max_ap_of(kind: Kind) -> int {
    if kind == Kind::Depression {
        2
    } else {
        1
    }
}

/// The policy a monster of this kind follows.
pub open spec fn behavior_of(kind: Kind) -> Behavior {
    match kind {
        Kind::Hunger => Behavior::PackAttacker,
        Kind::Npc => Behavior::Friendly,
        Kind::Signpost => Behavior::Immobile,
        _ => Behavior::LoneAttacker,
    }
}

/// What the attack of a monster of this kind does.
pub open spec fn damage_of(kind: Kind) -> Damage {
    match kind {
        Kind::Anxiety => Damage::AttributeLoss { will: 1, state_of_mind: 0 },
        Kind::Depression => Damage::Death,
        Kind::Hunger => Damage::AttributeLoss { will: 0, state_of_mind: 20 },
        Kind::Shadows => Damage::Panic(4),
        Kind::Voices => Damage::Stun(4),
        Kind::Npc => Damage::AttributeLoss { will: 0, state_of_mind: 0 },
        Kind::Signpost => Damage::AttributeLoss { will: 0, state_of_mind: 0 },
    }
}

impl Monster {
    /// The action points are never negative and never above `max_ap`.
    pub open spec fn wf(self) -> bool {
        0 <= self.ap <= self.max_ap
    }

    /// A monster of the given kind as it enters the world at `position`:
    /// alive, idle, and without action points until its first turn.
    pub open spec fn spawned(kind: Kind, position: Point) -> Monster {
        Monster {
            id: 0,
            kind,
            position,
            dead: false,
            die_after_attack: dies_after_attack(kind),
            behavior: behavior_of(kind),
            ai_state: if kind == Kind::Signpost {
                AIState::NoOp
            } else {
                AIState::Idle
            },
            max_ap: max_ap_of(kind) as i32,
            ap: 0,
            blockers: Walkability::BlockingMonsters,
            destination: None,
            accompanying_player: false,
        }
    }

    pub fn new(kind: Kind, position: Point) -> (m: Monster)
        ensures
            m == Monster::spawned(kind, position),
            m.wf(),
    {
        let die_after_attack = match kind {
            Kind::Shadows | Kind::Voices => true,
            _ => false,
        };
        let max_ap: i32 = match kind {
            Kind::Depression => 2,
            _ => 1,
        };
        let behavior = match kind {
            Kind::Hunger => Behavior::PackAttacker,
            Kind::Npc => Behavior::Friendly,
            Kind::Signpost => Behavior::Immobile,
            _ => Behavior::LoneAttacker,
        };
        let ai_state = match kind {
            Kind::Signpost => AIState::NoOp,
            _ => AIState::Idle,
        };
        Monster {
            id: 0,
            kind,
            position,
            dead: false,
            die_after_attack,
            behavior,
            ai_state,
            max_ap,
            ap: 0,
            blockers: Walkability::BlockingMonsters,
            destination: None,
            accompanying_player: false,
        }
    }

    pub fn id(&self) -> (id: usize)
        ensures
            id == self.id,
    {
        self.id
    }

    pub fn set_id(&mut self, id: usize)
        ensures
            *final(self) == (Monster { id, ..*old(self) }),
    {
        self.id = id;
    }

    pub fn attack_damage(&self) -> (d: Damage)
        ensures
            d == damage_of(self.kind),
    {
        match self.kind {
            Kind::Anxiety => Damage::AttributeLoss { will: 1, state_of_mind: 0 },
            Kind::Depression => Damage::Death,
            Kind::Hunger => Damage::AttributeLoss { will: 0, state_of_mind: 20 },
            Kind::Shadows => Damage::Panic(4),
            Kind::Voices => Damage::Stun(4),
            Kind::Npc => Damage::AttributeLoss { will: 0, state_of_mind: 0 },
            Kind::Signpost => Damage::AttributeLoss { will: 0, state_of_mind: 0 },
        }
    }

    /// Spends `count` action points. Spending more than the monster has is
    /// a fault of the caller.
    pub fn spend_ap(&mut self, count: i32)
        requires
            0 <= count <= old(self).ap,
        ensures
            *final(self) == (Monster { ap: (old(self).ap - count) as i32, ..*old(self) }),
            old(self).wf() ==> final(self).wf(),
    {
        self.ap = self.ap - count;
    }

    pub fn has_ap(&self, count: i32) -> (b: bool)
        ensures
            b == (self.ap >= count),
    {
        self.ap >= count
    }

    /// Gives the monster its action points back.
    pub fn new_turn(&mut self)
        ensures
            *final(self) == (Monster { ap: old(self).max_ap, ..*old(self) }),
            old(self).max_ap >= 0 ==> final(self).wf(),
    {
        self.ap = self.max_ap;
    }
}

} // verus!
