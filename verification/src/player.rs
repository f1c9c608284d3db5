//! The player: where they stand, the state of their mind and will, what
//! they carry, and what the world does to them.

use crate::item::{Item, Kind, Modifier};
use crate::monster::Damage;
use crate::point::Point;
use crate::ranged_int::RangedInt;
use vstd::prelude::*;

verus! {

/// The lowest and highest value of each state of mind.
pub const MIND_MIN: i32 = 0;

pub const WITHDRAWAL_MAX: i32 = 15;

pub const SOBER_MAX: i32 = 20;

pub const HIGH_MAX: i32 = 80;

/// The will the player starts with, and its bounds.
pub const WILL_START: i32 = 2;

pub const WILL_MAX: i32 = 5;

/// How many anxieties have to be defeated for the will to grow.
pub const ANXIETIES_PER_WILL: i32 = 7;

/// How many sober turns in a row win the game.
pub const SOBRIETY_COUNTER_MAX: i32 = 100;

/// The action points the player has each turn.
pub const PLAYER_MAX_AP: i32 = 1;

/// The state of the player's mind: in withdrawal, sober or high, and how
/// far into that state.
#[derive(Clone, Copy, Debug, PartialEq, Eq)]
pub enum Mind {
    Withdrawal(RangedInt),
    Sober(RangedInt),
    High(RangedInt),
}

impl Mind {
    pub open spec fn is_high_spec(self) -> bool {
        self is High
    }

    pub fn is_high(&self) -> (b: bool)
        ensures
            b == self.is_high_spec(),
    {
        match self {
            Mind::High(_) => true,
            _ => false,
        }
    }

    pub fn is_sober(&self) -> (b: bool)
        ensures
            b == (*self is Sober),
    {
        match self {
            Mind::Sober(_) => true,
            _ => false,
        }
    }

    pub fn is_withdrawal(&self) -> (b: bool)
        ensures
            b == (*self is Withdrawal),
    {
        match self {
            Mind::Withdrawal(_) => true,
            _ => false,
        }
    }
}


/// How far along the way from the depth of withdrawal to an overdose a
/// mind stands: the three states of mind laid end to end.
pub open spec fn level_of(mind: Mind) -> int {
    match mind {
        Mind::Withdrawal(v) => v.value_spec(),
        Mind::Sober(v) => WITHDRAWAL_MAX + 1 + v.value_spec(),
        Mind::High(v) => WITHDRAWAL_MAX + 1 + SOBER_MAX + 1 + v.value_spec(),
    }
}

/// The highest level a mind can stand at: an overdose.
pub const LEVEL_MAX: i32 = 117;

/// The range of each state of mind is the one of that state.
pub open spec fn mind_wf(mind: Mind) -> bool {
    match mind {
        Mind::Withdrawal(v) => v.min_spec() == MIND_MIN && v.max_spec() == WITHDRAWAL_MAX
            && MIND_MIN <= v.value_spec() <= WITHDRAWAL_MAX,
        Mind::Sober(v) => v.min_spec() == MIND_MIN && v.max_spec() == SOBER_MAX && MIND_MIN
            <= v.value_spec() <= SOBER_MAX,
        Mind::High(v) => v.min_spec() == MIND_MIN && v.max_spec() == HIGH_MAX && MIND_MIN
            <= v.value_spec() <= HIGH_MAX,
    }
}

/// The level `level`, held between the depth of withdrawal and an
/// overdose.
pub open spec fn clamp_level(level: int) -> int {
    if level < 0 {
        0
    } else if level > LEVEL_MAX {
        LEVEL_MAX as int
    } else {
        level
    }
}

/// Two minds that stand at the same level are the same.
pub proof fn lemma_same_level_same_mind(a: Mind, b: Mind)
    requires
        mind_wf(a),
        mind_wf(b),
        level_of(a) == level_of(b),
    ensures
        a == b,
{
    match (a, b) {
        (Mind::Withdrawal(x), Mind::Withdrawal(y)) => {
            x.lemma_same_value_same_range(y);
        },
        (Mind::Sober(x), Mind::Sober(y)) => {
            x.lemma_same_value_same_range(y);
        },
        (Mind::High(x), Mind::High(y)) => {
            x.lemma_same_value_same_range(y);
        },
        _ => {},
    }
}

impl Mind {
    /// The level the mind stands at.
    pub fn level(&self) -> (l: i32)
        requires
            mind_wf(*self),
        ensures
            l == level_of(*self),
            0 <= l <= LEVEL_MAX,
    {
        match self {
            Mind::Withdrawal(v) => v.value(),
            Mind::Sober(v) => WITHDRAWAL_MAX + 1 + v.value(),
            Mind::High(v) => WITHDRAWAL_MAX + 1 + SOBER_MAX + 1 + v.value(),
        }
    }

    /// The mind that stands at `level`.
    pub fn at_level(level: i32) -> (mind: Mind)
        requires
            0 <= level <= LEVEL_MAX,
        ensures
            mind_wf(mind),
            level_of(mind) == level,
    {
        if level <= WITHDRAWAL_MAX {
            Mind::Withdrawal(RangedInt::new(level, MIND_MIN, WITHDRAWAL_MAX))
        } else if level <= WITHDRAWAL_MAX + 1 + SOBER_MAX {
            Mind::Sober(RangedInt::new(level - WITHDRAWAL_MAX - 1, MIND_MIN, SOBER_MAX))
        } else {
            Mind::High(
                RangedInt::new(level - WITHDRAWAL_MAX - SOBER_MAX - 2, MIND_MIN, HIGH_MAX),
            )
        }
    }

    /// The mind after its level has changed by `delta`. It cannot sink
    /// below the depth of withdrawal or rise above an overdose.
    pub fn shifted(&self, delta: i32) -> (mind: Mind)
        requires
            mind_wf(*self),
        ensures
            mind_wf(mind),
            level_of(mind) == clamp_level(level_of(*self) + delta),
    {
        let target: i64 = self.level() as i64 + delta as i64;
        let level: i32 = if target < 0 {
            0
        } else if target > LEVEL_MAX as i64 {
            LEVEL_MAX
        } else {
            target as i32
        };
        Mind::at_level(level)
    }
}

/// The player.
#[derive(Debug)]
pub struct Player {
    pub pos: Point,
    pub mind: Mind,
    pub will: RangedInt,
    pub tolerance: i32,
    pub stun: RangedInt,
    pub panic: RangedInt,
    pub anxiety_counter: RangedInt,
    pub sobriety_counter: RangedInt,
    pub inventory: Vec<Item>,
    pub dead: bool,
    pub max_ap: i32,
    pub ap: i32,
}

/// The longest a stun or a panic can last.
pub const EFFECT_MAX: i32 = 20;

/// What a [`Modifier`] does to the plain values of a player.
pub struct PlayerView {
    pub level: int,
    pub will: int,
    pub tolerance: int,
    pub stun: int,
    pub panic: int,
    pub dead: bool,
}

/// `v` held inside `[min, max]`.
pub open spec fn held(v: int, min: int, max: int) -> int {
    crate::ranged_int::clamp(v, min, max)
}

/// The dose that still works on a mind used to `tolerance`: never less
/// than nothing.
pub open spec fn effective_dose(state_of_mind: int, tolerance: int) -> int {
    if state_of_mind - tolerance < 0 {
        0
    } else if state_of_mind - tolerance > i32::MAX {
        i32::MAX as int
    } else {
        state_of_mind - tolerance
    }
}

/// The player after the effect `effect`. A player dies of a deadly effect,
/// of a will that is gone, of the depth of withdrawal and of an overdose.
pub open spec fn after_effect(p: PlayerView, effect: Modifier) -> PlayerView {
    match effect {
        Modifier::Death => PlayerView { dead: true, ..p },
        Modifier::Attribute { will, state_of_mind } => {
            let new_will = held(p.will + will, 0, WILL_MAX as int);
            let new_level = clamp_level(p.level + state_of_mind);
            PlayerView {
                will: new_will,
                level: new_level,
                dead: p.dead || new_will == 0 || new_level == 0 || new_level == LEVEL_MAX,
                ..p
            }
        },
        Modifier::Intoxication { state_of_mind, tolerance_increase } => {
            let new_level = clamp_level(
                p.level + effective_dose(state_of_mind as int, p.tolerance),
            );
            PlayerView {
                level: new_level,
                tolerance: held(p.tolerance + tolerance_increase, 0, i32::MAX as int),
                dead: p.dead || new_level == 0 || new_level == LEVEL_MAX,
                ..p
            }
        },
        Modifier::Panic(turns) => PlayerView {
            panic: held(p.panic + turns, 0, EFFECT_MAX as int),
            ..p
        },
        Modifier::Stun(turns) => PlayerView {
            stun: held(p.stun + turns, 0, EFFECT_MAX as int),
            ..p
        },
    }
}

impl Player {
    /// The ranges of the player's values are what they should be, and the
    /// action points are within bounds.
    pub open spec fn wf(&self) -> bool {
        &&& mind_wf(self.mind)
        &&& self.will.min_spec() == 0 && self.will.max_spec() == WILL_MAX
        &&& self.stun.min_spec() == 0 && self.stun.max_spec() == EFFECT_MAX
        &&& self.panic.min_spec() == 0 && self.panic.max_spec() == EFFECT_MAX
        &&& self.anxiety_counter.min_spec() == 0 && self.anxiety_counter.max_spec()
            == ANXIETIES_PER_WILL
        &&& self.sobriety_counter.min_spec() == 0 && self.sobriety_counter.max_spec()
            == SOBRIETY_COUNTER_MAX
        &&& 0 <= self.tolerance
        &&& 0 <= self.ap <= self.max_ap
    }

    pub open spec fn view(&self) -> PlayerView {
        PlayerView {
            level: level_of(self.mind),
            will: self.will.value_spec(),
            tolerance: self.tolerance as int,
            stun: self.stun.value_spec(),
            panic: self.panic.value_spec(),
            dead: self.dead,
        }
    }

    /// A sober player at `pos` with nothing in their hands.
    pub fn new(pos: Point) -> (player: Player)
        ensures
            player.wf(),
            player.pos == pos,
            !player.dead,
            player.inventory@.len() == 0,
            player.ap == PLAYER_MAX_AP,
            player.max_ap == PLAYER_MAX_AP,
            player.mind is Sober,
            player.mind->Sober_0.value_spec() == SOBER_MAX,
            player.will.value_spec() == WILL_START,
            player.tolerance == 0,
            player.stun.value_spec() == 0,
            player.panic.value_spec() == 0,
            player.anxiety_counter.value_spec() == 0,
            player.sobriety_counter.value_spec() == 0,
    {
        Player {
            pos,
            mind: Mind::Sober(RangedInt::new(SOBER_MAX, MIND_MIN, SOBER_MAX)),
            will: RangedInt::new(WILL_START, 0, WILL_MAX),
            tolerance: 0,
            stun: RangedInt::new(0, 0, EFFECT_MAX),
            panic: RangedInt::new(0, 0, EFFECT_MAX),
            anxiety_counter: RangedInt::new(0, 0, ANXIETIES_PER_WILL),
            sobriety_counter: RangedInt::new(0, 0, SOBRIETY_COUNTER_MAX),
            inventory: Vec::new(),
            dead: false,
            max_ap: PLAYER_MAX_AP,
            ap: PLAYER_MAX_AP,
        }
    }

    pub fn alive(&self) -> (b: bool)
        ensures
            b == !self.dead,
    {
        !self.dead
    }

    pub fn ap(&self) -> (ap: i32)
        ensures
            ap == self.ap,
    {
        self.ap
    }

    pub fn has_ap(&self, count: i32) -> (b: bool)
        ensures
            b == (self.ap >= count),
    {
        self.ap >= count
    }

    /// Spends `count` action points. Spending more than the player has is
    /// a fault of the caller.
    pub fn spend_ap(&mut self, count: i32)
        requires
            old(self).wf(),
            0 <= count <= old(self).ap,
        ensures
            final(self).wf(),
            *final(self) == (Player { ap: (old(self).ap - count) as i32, ..*old(self) }),
    {
        self.ap = self.ap - count;
    }

    /// Starts the player's next turn: the action points are back, and a
    /// stun and a panic have one turn less to go.
    pub fn new_turn(&mut self)
        requires
            old(self).wf(),
        ensures
            final(self).wf(),
            final(self).ap == old(self).max_ap,
            final(self).stun.value_spec() == held(old(self).stun.value_spec() - 1, 0, EFFECT_MAX as int),
            final(self).panic.value_spec() == held(
                old(self).panic.value_spec() - 1,
                0,
                EFFECT_MAX as int,
            ),
            final(self).pos == old(self).pos,
            final(self).mind == old(self).mind,
            final(self).will == old(self).will,
            final(self).dead == old(self).dead,
            final(self).inventory == old(self).inventory,
            final(self).max_ap == old(self).max_ap,
            final(self).tolerance == old(self).tolerance,
            final(self).anxiety_counter == old(self).anxiety_counter,
            final(self).sobriety_counter == old(self).sobriety_counter,
    {
        self.stun = self.stun.minus(1);
        self.panic = self.panic.minus(1);
        self.ap = self.max_ap;
    }

    pub fn move_to(&mut self, pos: Point)
        ensures
            *final(self) == (Player { pos, ..*old(self) }),
    {
        self.pos = pos;
    }

    /// Applies `effect` to the player.
    pub fn take_effect(&mut self, effect: Modifier)
        requires
            old(self).wf(),
        ensures
            final(self).wf(),
            final(self)@ == after_effect(old(self)@, effect),
            final(self).pos == old(self).pos,
            final(self).inventory == old(self).inventory,
            final(self).ap == old(self).ap,
            final(self).max_ap == old(self).max_ap,
            final(self).anxiety_counter == old(self).anxiety_counter,
            final(self).sobriety_counter == old(self).sobriety_counter,
    {
        match effect {
            Modifier::Death => {
                self.dead = true;
            },
            Modifier::Attribute { will, state_of_mind } => {
                self.will = self.will.plus(will);
                self.mind = self.mind.shifted(state_of_mind);
                let level = self.mind.level();
                if self.will.is_min() || level == 0 || level == LEVEL_MAX {
                    self.dead = true;
                }
            },
            Modifier::Intoxication { state_of_mind, tolerance_increase } => {
                let raw: i64 = state_of_mind as i64 - self.tolerance as i64;
                let dose: i32 = if raw < 0 {
                    0
                } else if raw > i32::MAX as i64 {
                    i32::MAX
                } else {
                    raw as i32
                };
                self.mind = self.mind.shifted(dose);
                let grown: i64 = self.tolerance as i64 + tolerance_increase as i64;
                self.tolerance = if grown < 0 {
                    0
                } else if grown > i32::MAX as i64 {
                    i32::MAX
                } else {
                    grown as i32
                };
                let level = self.mind.level();
                if level == 0 || level == LEVEL_MAX {
                    self.dead = true;
                }
            },
            Modifier::Panic(turns) => {
                self.panic = self.panic.plus(turns);
            },
            Modifier::Stun(turns) => {
                self.stun = self.stun.plus(turns);
            },
        }
    }

    /// The place of the first item of the kind `kind` that the player
    /// carries.
    pub fn find_item(&self, kind: Kind) -> (found: Option<usize>)
        ensures
            found matches Some(i) ==> i < self.inventory@.len() && self.inventory@[i as int].kind
                == kind && forall|j: int| 0 <= j < i ==> self.inventory@[j].kind != kind,
            found is None ==> forall|j: int|
                0 <= j < self.inventory@.len() ==> self.inventory@[j].kind != kind,
    {
        let mut i: usize = 0;
        while i < self.inventory.len()
            invariant
                i <= self.inventory@.len(),
                forall|j: int| 0 <= j < i ==> self.inventory@[j].kind != kind,
            decreases self.inventory@.len() - i,
        {
            if self.inventory[i].is_kind(kind) {
                return Some(i);
            }
            i = i + 1;
        }
        None
    }
}

/// The two players are the same in everything, and hold the same things.
pub open spec fn same_player(a: Player, b: Player) -> bool {
    &&& a.pos == b.pos
    &&& a.mind == b.mind
    &&& a.will == b.will
    &&& a.tolerance == b.tolerance
    &&& a.stun == b.stun
    &&& a.panic == b.panic
    &&& a.anxiety_counter == b.anxiety_counter
    &&& a.sobriety_counter == b.sobriety_counter
    &&& a.inventory@ == b.inventory@
    &&& a.dead == b.dead
    &&& a.max_ap == b.max_ap
    &&& a.ap == b.ap
}

/// Two players with the same plain values, in the same place, with the
/// same action points, the same counts and the same things in their
/// hands are the same.
pub proof fn lemma_same_values_same_player(a: Player, b: Player)
    requires
        a.wf(),
        b.wf(),
        a@ == b@,
        a.pos == b.pos,
        a.ap == b.ap,
        a.max_ap == b.max_ap,
        a.anxiety_counter.value_spec() == b.anxiety_counter.value_spec(),
        a.sobriety_counter.value_spec() == b.sobriety_counter.value_spec(),
        a.inventory@ == b.inventory@,
    ensures
        same_player(a, b),
{
    lemma_same_level_same_mind(a.mind, b.mind);
    a.will.lemma_same_value_same_range(b.will);
    a.stun.lemma_same_value_same_range(b.stun);
    a.panic.lemma_same_value_same_range(b.panic);
    a.anxiety_counter.lemma_same_value_same_range(b.anxiety_counter);
    a.sobriety_counter.lemma_same_value_same_range(b.sobriety_counter);
}

/// What the attack of a monster does to the player.
pub open spec fn effect_of(damage: Damage) -> Modifier {
    match damage {
        Damage::Death => Modifier::Death,
        Damage::AttributeLoss { will, state_of_mind } => Modifier::Attribute {
            will: if will == i32::MIN {
                i32::MAX
            } else {
                (-will) as i32
            },
            state_of_mind: if state_of_mind == i32::MIN {
                i32::MAX
            } else {
                (-state_of_mind) as i32
            },
        },
        Damage::Panic(turns) => Modifier::Panic(turns),
        Damage::Stun(turns) => Modifier::Stun(turns),
    }
}

/// The effect that the damage `damage` has on the one it hits.
pub fn damage_effect(damage: Damage) -> (effect: Modifier)
    ensures
        effect == effect_of(damage),
{
    match damage {
        Damage::Death => Modifier::Death,
        Damage::AttributeLoss { will, state_of_mind } => Modifier::Attribute {
            will: if will == i32::MIN {
                i32::MAX
            } else {
                -will
            },
            state_of_mind: if state_of_mind == i32::MIN {
                i32::MAX
            } else {
                -state_of_mind
            },
        },
        Damage::Panic(turns) => Modifier::Panic(turns),
        Damage::Stun(turns) => Modifier::Stun(turns),
    }
}

} // verus!
