//! The things that lie on the ground and what they do to whoever uses them.

use vstd::prelude::*;

verus! {

#[derive(Clone, Copy, Debug, PartialEq, Eq, Structural)]
pub enum Kind {
    Food,
    Dose,
    StrongDose,
}

/// A change to the one it is applied to.
#[derive(Clone, Copy, Debug, PartialEq, Eq, Structural)]
pub enum Modifier {
    Death,
    Attribute { will: i32, state_of_mind: i32 },
    Intoxication { state_of_mind: i32, tolerance_increase: i32 },
    Panic(i32),
    Stun(i32),
}

#[derive(Clone, Copy, Debug, PartialEq, Eq, Structural)]
pub struct Item {
    pub kind: Kind,
    pub modifier: Modifier,
    /// How far the pull of the item reaches against a will of zero.
    pub irresistible: i32,
}

impl Item {
    /// The item of the given kind.
    pub open spec fn of_kind(kind: Kind) -> Item {
        match kind {
            Kind::Food => Item {
                kind,
                modifier: Modifier::Attribute { will: 0, state_of_mind: 10 },
                irresistible: 0,
            },
            Kind::Dose => Item {
                kind,
                modifier: Modifier::Intoxication { state_of_mind: 70, tolerance_increase: 1 },
                irresistible: 2,
            },
            Kind::StrongDose => Item {
                kind,
                modifier: Modifier::Intoxication { state_of_mind: 130, tolerance_increase: 3 },
                irresistible: 4,
            },
        }
    }

    pub fn new(kind: Kind) -> (item: Item)
        ensures
            item == Item::of_kind(kind),
    {
        match kind {
            Kind::Food => Item {
                kind,
                modifier: Modifier::Attribute { will: 0, state_of_mind: 10 },
                irresistible: 0,
            },
            Kind::Dose => Item {
                kind,
                modifier: Modifier::Intoxication { state_of_mind: 70, tolerance_increase: 1 },
                irresistible: 2,
            },
            Kind::StrongDose => Item {
                kind,
                modifier: Modifier::Intoxication { state_of_mind: 130, tolerance_increase: 3 },
                irresistible: 4,
            },
        }
    }

    /// Whether the item is one of the two doses.
    pub fn is_dose(&self) -> (b: bool)
        ensures
            b == (self.kind == Kind::Dose || self.kind == Kind::StrongDose),
    {
        match self.kind {
            Kind::Food => false,
            Kind::Dose => true,
            Kind::StrongDose => true,
        }
    }

    /// Whether the item is of the kind `kind`.
    pub fn is_kind(&self, kind: Kind) -> (b: bool)
        ensures
            b == (self.kind == kind),
    {
        match (self.kind, kind) {
            (Kind::Food, Kind::Food) => true,
            (Kind::Dose, Kind::Dose) => true,
            (Kind::StrongDose, Kind::StrongDose) => true,
            _ => false,
        }
    }
}

} // verus!
