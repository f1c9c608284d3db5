//! The component store: for every live entity zero or one component of each
//! kind, and an index from grid coordinate to the entities that stand there.
//!
//! The index is a cache of the position components and never a second source
//! of truth. [`ComponentManager::wf`] says that the two agree, every
//! operation of the store keeps it, and
//! [`ComponentManager::lemma_index_matches_positions`] spells it out.

use crate::components::{
    AcceptsUserInput, Addiction, AnxietyKillCounter, AttackTarget, AttackType, AttributeModifier,
    Attributes, Background, Bump, Destination, Dose, ExplosionEffect, Monster, Panicking,
    PathComponent, Position, Solid, Stunned, Tile, Turn, AI, ID,
};
use crate::point::Point;
use crate::position_index::{
    lemma_filter_alike, lemma_filter_all, lemma_filter_twice, lemma_push_distinct,
    lemma_without_first, lemma_without_first_is_a_filter, without_first, PositionIndex,
};
use vstd::prelude::*;

verus! {

/// The kinds of component an entity can carry.
#[derive(Clone, Copy, Debug, PartialEq, Eq, Structural)]
pub enum ComponentType {
    AcceptsUserInput,
    Addiction,
    AI,
    AnxietyKillCounter,
    AttackTarget,
    AttackType,
    AttributeModifier,
    Attributes,
    Background,
    Bump,
    Destination,
    Dose,
    ExplosionEffect,
    Monster,
    Panicking,
    Path,
    Position,
    Solid,
    Stunned,
    Tile,
    Turn,
}

/// One component of any kind.
#[derive(Debug)]
pub enum Component {
    AcceptsUserInput(AcceptsUserInput),
    Addiction(Addiction),
    AI(AI),
    AnxietyKillCounter(AnxietyKillCounter),
    AttackTarget(AttackTarget),
    AttackType(AttackType),
    AttributeModifier(AttributeModifier),
    Attributes(Attributes),
    Background(Background),
    Bump(Bump),
    Destination(Destination),
    Dose(Dose),
    ExplosionEffect(ExplosionEffect),
    Monster(Monster),
    Panicking(Panicking),
    Path(PathComponent),
    Position(Position),
    Solid(Solid),
    Stunned(Stunned),
    Tile(Tile),
    Turn(Turn),
}

impl Component {
    pub open spec fn kind(self) -> ComponentType {
        match self {
            Component::AcceptsUserInput(_) => ComponentType::AcceptsUserInput,
            Component::Addiction(_) => ComponentType::Addiction,
            Component::AI(_) => ComponentType::AI,
            Component::AnxietyKillCounter(_) => ComponentType::AnxietyKillCounter,
            Component::AttackTarget(_) => ComponentType::AttackTarget,
            Component::AttackType(_) => ComponentType::AttackType,
            Component::AttributeModifier(_) => ComponentType::AttributeModifier,
            Component::Attributes(_) => ComponentType::Attributes,
            Component::Background(_) => ComponentType::Background,
            Component::Bump(_) => ComponentType::Bump,
            Component::Destination(_) => ComponentType::Destination,
            Component::Dose(_) => ComponentType::Dose,
            Component::ExplosionEffect(_) => ComponentType::ExplosionEffect,
            Component::Monster(_) => ComponentType::Monster,
            Component::Panicking(_) => ComponentType::Panicking,
            Component::Path(_) => ComponentType::Path,
            Component::Position(_) => ComponentType::Position,
            Component::Solid(_) => ComponentType::Solid,
            Component::Stunned(_) => ComponentType::Stunned,
            Component::Tile(_) => ComponentType::Tile,
            Component::Turn(_) => ComponentType::Turn,
        }
    }
}

/// The components of one entity, but for its path, which the store keeps
/// beside them.
#[derive(Clone, Copy, Debug)]
pub struct Entity {
    pub accepts_user_input: Option<AcceptsUserInput>,
    pub addiction: Option<Addiction>,
    pub ai: Option<AI>,
    pub anxiety_kill_counter: Option<AnxietyKillCounter>,
    pub attack_target: Option<AttackTarget>,
    pub attack_type: Option<AttackType>,
    pub attribute_modifier: Option<AttributeModifier>,
    pub attributes: Option<Attributes>,
    pub background: Option<Background>,
    pub bump: Option<Bump>,
    pub destination: Option<Destination>,
    pub dose: Option<Dose>,
    pub explosion_effect: Option<ExplosionEffect>,
    pub monster: Option<Monster>,
    pub panicking: Option<Panicking>,
    pub position: Option<Position>,
    pub solid: Option<Solid>,
    pub stunned: Option<Stunned>,
    pub tile: Option<Tile>,
    pub turn: Option<Turn>,
}

impl Entity {
    /// An entity without any component.
    pub open spec fn empty() -> Entity {
        Entity {
            accepts_user_input: None,
            addiction: None,
            ai: None,
            anxiety_kill_counter: None,
            attack_target: None,
            attack_type: None,
            attribute_modifier: None,
            attributes: None,
            background: None,
            bump: None,
            destination: None,
            dose: None,
            explosion_effect: None,
            monster: None,
            panicking: None,
            position: None,
            solid: None,
            stunned: None,
            tile: None,
            turn: None,
        }
    }

    pub fn new() -> (e: Entity)
        ensures
            e == Entity::empty(),
    {
        Entity {
            accepts_user_input: None,
            addiction: None,
            ai: None,
            anxiety_kill_counter: None,
            attack_target: None,
            attack_type: None,
            attribute_modifier: None,
            attributes: None,
            background: None,
            bump: None,
            destination: None,
            dose: None,
            explosion_effect: None,
            monster: None,
            panicking: None,
            position: None,
            solid: None,
            stunned: None,
            tile: None,
            turn: None,
        }
    }

    /// Whether the entity carries a component of the kind `ctype`. The path
    /// is not held here: for it the answer is `has_path`.
    pub open spec fn has_spec(self, ctype: ComponentType, has_path: bool) -> bool {
        match ctype {
            ComponentType::AcceptsUserInput => self.accepts_user_input is Some,
            ComponentType::Addiction => self.addiction is Some,
            ComponentType::AI => self.ai is Some,
            ComponentType::AnxietyKillCounter => self.anxiety_kill_counter is Some,
            ComponentType::AttackTarget => self.attack_target is Some,
            ComponentType::AttackType => self.attack_type is Some,
            ComponentType::AttributeModifier => self.attribute_modifier is Some,
            ComponentType::Attributes => self.attributes is Some,
            ComponentType::Background => self.background is Some,
            ComponentType::Bump => self.bump is Some,
            ComponentType::Destination => self.destination is Some,
            ComponentType::Dose => self.dose is Some,
            ComponentType::ExplosionEffect => self.explosion_effect is Some,
            ComponentType::Monster => self.monster is Some,
            ComponentType::Panicking => self.panicking is Some,
            ComponentType::Path => has_path,
            ComponentType::Position => self.position is Some,
            ComponentType::Solid => self.solid is Some,
            ComponentType::Stunned => self.stunned is Some,
            ComponentType::Tile => self.tile is Some,
            ComponentType::Turn => self.turn is Some,
        }
    }

    /// The entity with the component `c` set. A path is not held here and
    /// changes nothing.
    pub open spec fn with(self, c: Component) -> Entity {
        match c {
            Component::AcceptsUserInput(v) => Entity { accepts_user_input: Some(v), ..self },
            Component::Addiction(v) => Entity { addiction: Some(v), ..self },
            Component::AI(v) => Entity { ai: Some(v), ..self },
            Component::AnxietyKillCounter(v) => Entity { anxiety_kill_counter: Some(v), ..self },
            Component::AttackTarget(v) => Entity { attack_target: Some(v), ..self },
            Component::AttackType(v) => Entity { attack_type: Some(v), ..self },
            Component::AttributeModifier(v) => Entity { attribute_modifier: Some(v), ..self },
            Component::Attributes(v) => Entity { attributes: Some(v), ..self },
            Component::Background(v) => Entity { background: Some(v), ..self },
            Component::Bump(v) => Entity { bump: Some(v), ..self },
            Component::Destination(v) => Entity { destination: Some(v), ..self },
            Component::Dose(v) => Entity { dose: Some(v), ..self },
            Component::ExplosionEffect(v) => Entity { explosion_effect: Some(v), ..self },
            Component::Monster(v) => Entity { monster: Some(v), ..self },
            Component::Panicking(v) => Entity { panicking: Some(v), ..self },
            Component::Path(_) => self,
            Component::Position(v) => Entity { position: Some(v), ..self },
            Component::Solid(v) => Entity { solid: Some(v), ..self },
            Component::Stunned(v) => Entity { stunned: Some(v), ..self },
            Component::Tile(v) => Entity { tile: Some(v), ..self },
            Component::Turn(v) => Entity { turn: Some(v), ..self },
        }
    }

    /// The entity without a component of the kind `ctype`. A path is not
    /// held here and changes nothing.
    pub open spec fn without(self, ctype: ComponentType) -> Entity {
        match ctype {
            ComponentType::AcceptsUserInput => Entity { accepts_user_input: None, ..self },
            ComponentType::Addiction => Entity { addiction: None, ..self },
            ComponentType::AI => Entity { ai: None, ..self },
            ComponentType::AnxietyKillCounter => Entity { anxiety_kill_counter: None, ..self },
            ComponentType::AttackTarget => Entity { attack_target: None, ..self },
            ComponentType::AttackType => Entity { attack_type: None, ..self },
            ComponentType::AttributeModifier => Entity { attribute_modifier: None, ..self },
            ComponentType::Attributes => Entity { attributes: None, ..self },
            ComponentType::Background => Entity { background: None, ..self },
            ComponentType::Bump => Entity { bump: None, ..self },
            ComponentType::Destination => Entity { destination: None, ..self },
            ComponentType::Dose => Entity { dose: None, ..self },
            ComponentType::ExplosionEffect => Entity { explosion_effect: None, ..self },
            ComponentType::Monster => Entity { monster: None, ..self },
            ComponentType::Panicking => Entity { panicking: None, ..self },
            ComponentType::Path => self,
            ComponentType::Position => Entity { position: None, ..self },
            ComponentType::Solid => Entity { solid: None, ..self },
            ComponentType::Stunned => Entity { stunned: None, ..self },
            ComponentType::Tile => Entity { tile: None, ..self },
            ComponentType::Turn => Entity { turn: None, ..self },
        }
    }

    /// The component of the kind `ctype`, if the entity carries one. A path
    /// is not held here.
    pub open spec fn get_spec(self, ctype: ComponentType) -> Option<Component> {
        match ctype {
            ComponentType::AcceptsUserInput => match self.accepts_user_input {
                Some(v) => Some(Component::AcceptsUserInput(v)),
                None => None,
            },
            ComponentType::Addiction => match self.addiction {
                Some(v) => Some(Component::Addiction(v)),
                None => None,
            },
            ComponentType::AI => match self.ai {
                Some(v) => Some(Component::AI(v)),
                None => None,
            },
            ComponentType::AnxietyKillCounter => match self.anxiety_kill_counter {
                Some(v) => Some(Component::AnxietyKillCounter(v)),
                None => None,
            },
            ComponentType::AttackTarget => match self.attack_target {
                Some(v) => Some(Component::AttackTarget(v)),
                None => None,
            },
            ComponentType::AttackType => match self.attack_type {
                Some(v) => Some(Component::AttackType(v)),
                None => None,
            },
            ComponentType::AttributeModifier => match self.attribute_modifier {
                Some(v) => Some(Component::AttributeModifier(v)),
                None => None,
            },
            ComponentType::Attributes => match self.attributes {
                Some(v) => Some(Component::Attributes(v)),
                None => None,
            },
            ComponentType::Background => match self.background {
                Some(v) => Some(Component::Background(v)),
                None => None,
            },
            ComponentType::Bump => match self.bump {
                Some(v) => Some(Component::Bump(v)),
                None => None,
            },
            ComponentType::Destination => match self.destination {
                Some(v) => Some(Component::Destination(v)),
                None => None,
            },
            ComponentType::Dose => match self.dose {
                Some(v) => Some(Component::Dose(v)),
                None => None,
            },
            ComponentType::ExplosionEffect => match self.explosion_effect {
                Some(v) => Some(Component::ExplosionEffect(v)),
                None => None,
            },
            ComponentType::Monster => match self.monster {
                Some(v) => Some(Component::Monster(v)),
                None => None,
            },
            ComponentType::Panicking => match self.panicking {
                Some(v) => Some(Component::Panicking(v)),
                None => None,
            },
            ComponentType::Path => None,
            ComponentType::Position => match self.position {
                Some(v) => Some(Component::Position(v)),
                None => None,
            },
            ComponentType::Solid => match self.solid {
                Some(v) => Some(Component::Solid(v)),
                None => None,
            },
            ComponentType::Stunned => match self.stunned {
                Some(v) => Some(Component::Stunned(v)),
                None => None,
            },
            ComponentType::Tile => match self.tile {
                Some(v) => Some(Component::Tile(v)),
                None => None,
            },
            ComponentType::Turn => match self.turn {
                Some(v) => Some(Component::Turn(v)),
                None => None,
            },
        }
    }
}

/// The test whether an entity stands on `p`.
pub open spec fn stands_on(entities: Map<ID, Entity>, p: Position) -> spec_fn(ID) -> bool {
    |i: ID| entities.contains_key(i) && entities[i].position == Some(p)
}

pub struct ComponentManager {
    entities: Vec<Option<Entity>>,
    paths: Vec<Option<PathComponent>>,
    initial_id: i32,
    next_id: i32,
    index: PositionIndex,
}

impl ComponentManager {
    /// The smallest identity that may be alive. Identities below it were
    /// handed out before the last [`ComponentManager::remove_all_entities`].
    pub closed spec fn first_id(&self) -> int {
        self.initial_id as int
    }

    /// The identity that the next new entity gets. Identities only grow.
    pub closed spec fn next_id(&self) -> int {
        self.next_id as int
    }

    closed spec fn live(&self, id: ID) -> bool {
        &&& self.initial_id <= id.0 < self.next_id
        &&& id.0 - self.initial_id < self.entities@.len()
        &&& self.entities@[id.0 - self.initial_id] is Some
    }

    /// The live entities and their components.
    pub closed spec fn view(&self) -> Map<ID, Entity> {
        Map::new(|id: ID| self.live(id), |id: ID| self.entities@[id.0 - self.initial_id]->0)
    }

    /// The paths of the live entities that have one.
    pub closed spec fn paths(&self) -> Map<ID, Seq<Point>> {
        Map::new(
            |id: ID|
                self.live(id) && id.0 - self.initial_id < self.paths@.len() && self.paths@[id.0
                    - self.initial_id] is Some,
            |id: ID| self.paths@[id.0 - self.initial_id]->0.waypoints@,
        )
    }

    /// What the index holds for `pos`.
    pub closed spec fn occupants(&self, pos: Position) -> Seq<ID> {
        self.index.at(pos.x, pos.y)
    }

    /// The store is consistent: the index holds an entity under a
    /// coordinate if and only if the entity is alive and its position is
    /// that coordinate, and it holds no entity twice.
    pub closed spec fn wf(&self) -> bool {
        &&& 0 <= self.initial_id <= self.next_id
        &&& self.entities@.len() == self.next_id - self.initial_id
        &&& self.paths@.len() == self.entities@.len()
        &&& forall|i: int|
            0 <= i < self.entities@.len() && self.entities@[i] is None ==> #[trigger] self.paths@[i]
                is None
        &&& forall|x: i32, y: i32, id: ID| #[trigger]
            self.index.at(x, y).contains(id) <==> (self.live(id) && self.entities@[id.0
                - self.initial_id]->0.position == Some(Position { x, y }))
        &&& forall|x: i32, y: i32| #[trigger] self.index.at(x, y).no_duplicates()
    }

    /// An entity stands in the index under a position if and only if it is
    /// alive and that is its position.
    pub proof fn lemma_index_matches_positions(&self, pos: Position, id: ID)
        requires
            self.wf(),
        ensures
            self.occupants(pos).contains(id) <==> (self@.contains_key(id) && self@[id].position
                == Some(pos)),
    {
        assert(self.index.at(pos.x, pos.y).contains(id) <==> (self.live(id) && self.entities@[id.0
            - self.initial_id]->0.position == Some(Position { x: pos.x, y: pos.y })));
    }

    /// The index holds no entity twice under one position.
    pub proof fn lemma_occupants_distinct(&self, pos: Position)
        requires
            self.wf(),
        ensures
            self.occupants(pos).no_duplicates(),
    {
        assert(self.index.at(pos.x, pos.y).no_duplicates());
    }

    pub fn new() -> (ecm: ComponentManager)
        ensures
            ecm.wf(),
            ecm@ == Map::<ID, Entity>::empty(),
            ecm.paths() == Map::<ID, Seq<Point>>::empty(),
            ecm.first_id() == 0,
            ecm.next_id() == 0,
            forall|pos: Position| #[trigger] ecm.occupants(pos) == Seq::<ID>::empty(),
    {
        let ecm = ComponentManager {
            entities: Vec::new(),
            paths: Vec::new(),
            initial_id: 0,
            next_id: 0,
            index: PositionIndex::new(),
        };
        proof {
            assert(ecm@ =~= Map::<ID, Entity>::empty());
            assert(ecm.paths() =~= Map::<ID, Seq<Point>>::empty());
            assert forall|x: i32, y: i32, id: ID| !(#[trigger] ecm.index.at(x, y).contains(id)) by {
                assert(ecm.index.at(x, y) == Seq::<ID>::empty());
            }
            assert forall|pos: Position| #[trigger] ecm.occupants(pos) == Seq::<ID>::empty() by {
                assert(ecm.index.at(pos.x, pos.y) == Seq::<ID>::empty());
            }
        }
        ecm
    }

    /// A fresh entity without components.
    pub fn new_entity(&mut self) -> (id: ID)
        requires
            old(self).wf(),
            old(self).next_id() < i32::MAX,
        ensures
            final(self).wf(),
            id.0 == old(self).next_id(),
            !old(self)@.contains_key(id),
            final(self)@ == old(self)@.insert(id, Entity::empty()),
            final(self).paths() == old(self).paths(),
            final(self).first_id() == old(self).first_id(),
            final(self).next_id() == old(self).next_id() + 1,
            forall|pos: Position| #[trigger] final(self).occupants(pos) == old(self).occupants(pos),
    {
        self.add_entity(Entity::new())
    }

    /// A fresh entity with the components of `entity`.
    pub fn add_entity(&mut self, entity: Entity) -> (id: ID)
        requires
            old(self).wf(),
            old(self).next_id() < i32::MAX,
        ensures
            final(self).wf(),
            id.0 == old(self).next_id(),
            !old(self)@.contains_key(id),
            final(self)@ == old(self)@.insert(id, entity),
            final(self).paths() == old(self).paths(),
            final(self).first_id() == old(self).first_id(),
            final(self).next_id() == old(self).next_id() + 1,
            forall|pos: Position|
                #![trigger final(self).occupants(pos)]
                final(self).occupants(pos) == if entity.position == Some(pos) {
                    old(self).occupants(pos).push(id)
                } else {
                    old(self).occupants(pos)
                },
    {
        let id = ID(self.next_id);
        self.entities.push(Some(entity));
        self.paths.push(None);
        self.next_id = self.next_id + 1;
        match entity.position {
            Some(pos) => {
                proof {
                    assert(!old(self).index.at(pos.x, pos.y).contains(id));
                    lemma_push_distinct(old(self).index.at(pos.x, pos.y), id);
                }
                self.index.add(pos.x, pos.y, id);
                proof {
                    assert forall|x: i32, y: i32, other: ID| #[trigger]
                        self.index.at(x, y).contains(other) <==> (self.live(other)
                            && self.entities@[other.0 - self.initial_id]->0.position == Some(
                            Position { x, y },
                        )) by {
                        assert(old(self).index.at(x, y).contains(other) <==> (old(self).live(other)
                            && old(self).entities@[other.0 - self.initial_id]->0.position == Some(
                            Position { x, y },
                        )));
                        if x == pos.x && y == pos.y {
                            if other != id {
                                assert(self.index.at(x, y).contains(other) <==> old(self).index.at(
                                    x,
                                    y,
                                ).contains(other));
                            }
                        }
                    }
                    assert forall|x: i32, y: i32| #[trigger] self.index.at(x, y).no_duplicates() by {
                        assert(old(self).index.at(x, y).no_duplicates());
                    }
                }
            },
            None => {
                proof {
                    assert forall|x: i32, y: i32, other: ID| #[trigger]
                        self.index.at(x, y).contains(other) <==> (self.live(other)
                            && self.entities@[other.0 - self.initial_id]->0.position == Some(
                            Position { x, y },
                        )) by {
                        assert(old(self).index.at(x, y).contains(other) <==> (old(self).live(other)
                            && old(self).entities@[other.0 - self.initial_id]->0.position == Some(
                            Position { x, y },
                        )));
                    }
                }
            },
        }
        proof {
            assert(self@ =~= old(self)@.insert(id, entity));
            assert(self.paths() =~= old(self).paths());
        }
        id
    }

    /// The place of a live entity in the store.
    pub fn index(&self, id: ID) -> (i: usize)
        requires
            self.wf(),
            self@.contains_key(id),
        ensures
            i == id.0 - self.first_id(),
    {
        (id.0 - self.initial_id) as usize
    }

    /// Whether `id` is the identity of a live entity.
    pub fn has_entity(&self, id: ID) -> (b: bool)
        requires
            self.wf(),
        ensures
            b == self@.contains_key(id),
    {
        if id.0 < self.initial_id || id.0 >= self.next_id {
            return false;
        }
        let i = (id.0 - self.initial_id) as usize;
        self.entities[i].is_some()
    }

    /// The components of a live entity.
    pub fn components(&self, id: ID) -> (e: Entity)
        requires
            self.wf(),
            self@.contains_key(id),
        ensures
            e == self@[id],
    {
        let i = self.index(id);
        match self.entities[i] {
            Some(e) => e,
            None => Entity::new(),
        }
    }

    /// Writes the components of a live entity back. The position is not
    /// among what may change here.
    fn put(&mut self, id: ID, entity: Entity)
        requires
            old(self).wf(),
            old(self)@.contains_key(id),
            entity.position == old(self)@[id].position,
        ensures
            final(self).wf(),
            final(self)@ == old(self)@.insert(id, entity),
            final(self).paths() == old(self).paths(),
            final(self).first_id() == old(self).first_id(),
            final(self).next_id() == old(self).next_id(),
            forall|pos: Position| #[trigger] final(self).occupants(pos) == old(self).occupants(pos),
    {
        let i = self.index(id);
        self.entities.set(i, Some(entity));
        proof {
            assert forall|x: i32, y: i32, other: ID| #[trigger]
                self.index.at(x, y).contains(other) <==> (self.live(other) && self.entities@[other.0
                    - self.initial_id]->0.position == Some(Position { x, y })) by {
                assert(old(self).index.at(x, y).contains(other) <==> (old(self).live(other)
                    && old(self).entities@[other.0 - self.initial_id]->0.position == Some(
                    Position { x, y },
                )));
            }
            assert(self@ =~= old(self)@.insert(id, entity));
            assert(self.paths() =~= old(self).paths());
        }
    }

    /// Those who stand on `p`, in the order in which they came, once the
    /// entity `id` has left where it stood and stands on `now`, or nowhere:
    /// it is the last to have come to `now`, and is gone from `p` else.
    pub open spec fn occupants_after(&self, id: ID, now: Option<Position>, p: Position) -> Seq<ID> {
        if now == Some(p) {
            without_first(self.occupants(p), id).push(id)
        } else {
            without_first(self.occupants(p), id)
        }
    }

    /// On every tile stand those who stood there in `before` and still
    /// stand there, in the order in which they came: nobody has come to
    /// stand anywhere.
    pub open spec fn thinned(&self, before: &ComponentManager) -> bool {
        forall|p: Position| #[trigger]
            self.occupants(p) == before.occupants(p).filter(stands_on(self@, p))
    }

    /// A store is its own thinning.
    pub proof fn lemma_thinned_itself(&self)
        requires
            self.wf(),
        ensures
            self.thinned(self),
    {
        assert forall|p: Position| #[trigger]
            self.occupants(p) == self.occupants(p).filter(stands_on(self@, p)) by {
            let here = self.occupants(p);
            assert forall|i: int| 0 <= i < here.len() implies stands_on(self@, p)(
                #[trigger] here[i],
            ) by {
                assert(here.contains(here[i]));
                self.lemma_index_matches_positions(p, here[i]);
            }
            lemma_filter_all(here, stands_on(self@, p));
        }
    }

    /// Where nobody has moved and nobody has come or gone, a thinning
    /// stays one.
    pub proof fn lemma_thinned_still(&self, mid: &ComponentManager, before: &ComponentManager)
        requires
            mid.thinned(before),
            forall|p: Position| #[trigger] self.occupants(p) == mid.occupants(p),
            self@.dom() == mid@.dom(),
            forall|i: ID|
                #![trigger self@[i]]
                mid@.contains_key(i) ==> self@[i].position == mid@[i].position,
        ensures
            self.thinned(before),
    {
        assert forall|p: Position| #[trigger]
            self.occupants(p) == before.occupants(p).filter(stands_on(self@, p)) by {
            assert(mid.occupants(p) == before.occupants(p).filter(stands_on(mid@, p)));
            let was = before.occupants(p);
            assert forall|i: int| 0 <= i < was.len() implies stands_on(self@, p)(
                #[trigger] was[i],
            ) == stands_on(mid@, p)(was[i]) by {
                assert(self@.contains_key(was[i]) == mid@.contains_key(was[i]));
            }
            lemma_filter_alike(was, stands_on(self@, p), stands_on(mid@, p));
        }
    }

    /// Where one entity has left its tile and nothing else has changed
    /// about who stands where, a thinning stays one.
    pub proof fn lemma_thinned_by_one(
        &self,
        mid: &ComponentManager,
        before: &ComponentManager,
        id: ID,
    )
        requires
            mid.wf(),
            mid.thinned(before),
            forall|p: Position| #[trigger] self.occupants(p) == mid.occupants_after(id, None, p),
            self@.dom() == mid@.dom(),
            self@.contains_key(id) ==> self@[id].position is None,
            forall|i: ID|
                #![trigger self@[i]]
                i != id && mid@.contains_key(i) ==> self@[i].position == mid@[i].position,
        ensures
            self.thinned(before),
    {
        assert forall|p: Position| #[trigger]
            self.occupants(p) == before.occupants(p).filter(stands_on(self@, p)) by {
            assert(mid.occupants(p) == before.occupants(p).filter(stands_on(mid@, p)));
            let was = before.occupants(p);
            let here = mid.occupants(p);
            let others = |x: ID| x != id;
            mid.lemma_occupants_distinct(p);
            lemma_without_first_is_a_filter(here, id);
            assert forall|i: int| 0 <= i < was.len() implies stands_on(self@, p)(
                #[trigger] was[i],
            ) == (stands_on(mid@, p)(was[i]) && others(was[i])) by {
                assert(self@.contains_key(was[i]) == mid@.contains_key(was[i]));
            }
            lemma_filter_twice(was, stands_on(mid@, p), others, stands_on(self@, p));
        }
    }

    /// A thinning of a thinning is a thinning.
    pub proof fn lemma_thinned_twice(&self, mid: &ComponentManager, before: &ComponentManager)
        requires
            self.thinned(mid),
            mid.thinned(before),
            forall|i: ID, p: Position|
                (#[trigger] stands_on(self@, p)(i)) ==> stands_on(mid@, p)(i),
        ensures
            self.thinned(before),
    {
        assert forall|p: Position| #[trigger]
            self.occupants(p) == before.occupants(p).filter(stands_on(self@, p)) by {
            assert(mid.occupants(p) == before.occupants(p).filter(stands_on(mid@, p)));
            assert(self.occupants(p) == mid.occupants(p).filter(stands_on(self@, p)));
            let was = before.occupants(p);
            lemma_filter_twice(was, stands_on(mid@, p), stands_on(self@, p), stands_on(self@, p));
        }
    }

    /// Sets the position of a live entity. The entity leaves the index at
    /// its former position, if it had one, and enters it at the new one.
    pub fn set_position(&mut self, id: ID, pos: Position)
        requires
            old(self).wf(),
            old(self)@.contains_key(id),
        ensures
            final(self).wf(),
            final(self)@ == old(self)@.insert(
                id,
                Entity { position: Some(pos), ..old(self)@[id] },
            ),
            final(self).paths() == old(self).paths(),
            final(self).first_id() == old(self).first_id(),
            final(self).next_id() == old(self).next_id(),
            forall|p: Position| #[trigger]
                final(self).occupants(p) == old(self).occupants_after(id, Some(pos), p),
    {
        let i = self.index(id);
        let mut entity = self.components(id);
        let ghost before = entity;
        match entity.position {
            Some(former) => {
                proof {
                    assert(old(self).index.at(former.x, former.y).no_duplicates());
                    lemma_without_first(old(self).index.at(former.x, former.y), id);
                }
                self.index.take(former.x, former.y, id);
            },
            None => {},
        }
        let ghost taken = self.index;
        proof {
            assert forall|x: i32, y: i32, other: ID| #[trigger]
                taken.at(x, y).contains(other) <==> (other != id && old(self).index.at(
                    x,
                    y,
                ).contains(other)) by {
                assert(old(self).index.at(x, y).contains(id) <==> (old(self).live(id)
                    && old(self).entities@[id.0 - self.initial_id]->0.position == Some(
                    Position { x, y },
                )));
            }
            assert forall|x: i32, y: i32| #[trigger] taken.at(x, y).no_duplicates() by {
                assert(old(self).index.at(x, y).no_duplicates());
            }
            assert(!taken.at(pos.x, pos.y).contains(id));
            lemma_push_distinct(taken.at(pos.x, pos.y), id);
        }
        entity.position = Some(pos);
        self.entities.set(i, Some(entity));
        self.index.add(pos.x, pos.y, id);
        proof {
            assert forall|x: i32, y: i32, other: ID| #[trigger]
                self.index.at(x, y).contains(other) <==> (self.live(other) && self.entities@[other.0
                    - self.initial_id]->0.position == Some(Position { x, y })) by {
                assert(old(self).index.at(x, y).contains(other) <==> (old(self).live(other)
                    && old(self).entities@[other.0 - self.initial_id]->0.position == Some(
                    Position { x, y },
                )));
                assert(taken.at(x, y).contains(other) <==> (other != id && old(self).index.at(
                    x,
                    y,
                ).contains(other)));
                if x == pos.x && y == pos.y {
                    if other != id {
                        assert(self.index.at(x, y).contains(other) <==> taken.at(x, y).contains(
                            other,
                        ));
                    }
                }
            }
            assert forall|x: i32, y: i32| #[trigger] self.index.at(x, y).no_duplicates() by {
                assert(taken.at(x, y).no_duplicates());
            }
            assert(self@ =~= old(self)@.insert(id, Entity { position: Some(pos), ..old(self)@[id] }));
            assert(self.paths() =~= old(self).paths());
            assert forall|p: Position| #[trigger]
                self.occupants(p) == old(self).occupants_after(id, Some(pos), p) by {
                assert(old(self).index.at(p.x, p.y).contains(id) <==> (old(self).live(id)
                    && old(self).entities@[id.0 - self.initial_id]->0.position == Some(
                    Position { x: p.x, y: p.y },
                )));
            }
        }
    }

    /// Removes the position of a live entity, and the entity from the index.
    pub fn remove_position(&mut self, id: ID)
        requires
            old(self).wf(),
            old(self)@.contains_key(id),
        ensures
            final(self).wf(),
            final(self)@ == old(self)@.insert(id, Entity { position: None, ..old(self)@[id] }),
            final(self).paths() == old(self).paths(),
            final(self).first_id() == old(self).first_id(),
            final(self).next_id() == old(self).next_id(),
            forall|p: Position| #[trigger]
                final(self).occupants(p) == old(self).occupants_after(id, None, p),
    {
        let i = self.index(id);
        let mut entity = self.components(id);
        match entity.position {
            Some(former) => {
                proof {
                    assert(old(self).index.at(former.x, former.y).no_duplicates());
                    lemma_without_first(old(self).index.at(former.x, former.y), id);
                }
                self.index.take(former.x, former.y, id);
            },
            None => {},
        }
        entity.position = None;
        self.entities.set(i, Some(entity));
        proof {
            assert forall|x: i32, y: i32, other: ID| #[trigger]
                self.index.at(x, y).contains(other) <==> (self.live(other) && self.entities@[other.0
                    - self.initial_id]->0.position == Some(Position { x, y })) by {
                assert(old(self).index.at(x, y).contains(other) <==> (old(self).live(other)
                    && old(self).entities@[other.0 - self.initial_id]->0.position == Some(
                    Position { x, y },
                )));
                assert(old(self).index.at(x, y).contains(id) <==> (old(self).live(id)
                    && old(self).entities@[id.0 - self.initial_id]->0.position == Some(
                    Position { x, y },
                )));
            }
            assert forall|x: i32, y: i32| #[trigger] self.index.at(x, y).no_duplicates() by {
                assert(old(self).index.at(x, y).no_duplicates());
            }
            assert(self@ =~= old(self)@.insert(id, Entity { position: None, ..old(self)@[id] }));
            assert(self.paths() =~= old(self).paths());
            assert forall|p: Position| #[trigger]
                self.occupants(p) == old(self).occupants_after(id, None, p) by {
                assert(old(self).index.at(p.x, p.y).contains(id) <==> (old(self).live(id)
                    && old(self).entities@[id.0 - self.initial_id]->0.position == Some(
                    Position { x: p.x, y: p.y },
                )));
            }
        }
    }

    /// The entities that stand at `pos`: each entity whose position is
    /// `pos`, once. None stand at an empty position.
    pub fn entities_on_pos(&self, pos: Position) -> (v: Vec<ID>)
        requires
            self.wf(),
        ensures
            v@ == self.occupants(pos),
            v@.no_duplicates(),
            forall|id: ID|
                v@.contains(id) <==> (self@.contains_key(id) && self@[id].position == Some(pos)),
    {
        let v = self.index.get(pos.x, pos.y);
        proof {
            assert(self.index.at(pos.x, pos.y).no_duplicates());
            assert forall|id: ID|
                v@.contains(id) <==> (self@.contains_key(id) && self@[id].position == Some(
                    pos,
                )) by {
                self.lemma_index_matches_positions(pos, id);
            }
        }
        v
    }

    /// Takes a live entity out of the store and hands its components back.
    /// Its identity is not used again.
    pub fn take_out(&mut self, id: ID) -> (entity: Entity)
        requires
            old(self).wf(),
            old(self)@.contains_key(id),
        ensures
            final(self).wf(),
            entity == old(self)@[id],
            final(self)@ == old(self)@.remove(id),
            final(self).paths() == old(self).paths().remove(id),
            final(self).first_id() == old(self).first_id(),
            final(self).next_id() == old(self).next_id(),
            forall|p: Position| #[trigger]
                final(self).occupants(p) == old(self).occupants_after(id, None, p),
    {
        let entity = self.components(id);
        self.remove_position(id);
        let i = self.index(id);
        let ghost mid = *self;
        self.entities.set(i, None);
        self.paths.set(i, None);
        proof {
            assert(mid.wf());
            assert(mid@.contains_key(id));
            assert(mid.live(id));
            assert(mid@[id] == mid.entities@[i as int]->0);
            assert(mid.entities@[i as int]->0.position is None);
            assert(self.initial_id == mid.initial_id && self.next_id == mid.next_id);
            assert(self.entities@ == mid.entities@.update(i as int, None));
            assert forall|x: i32, y: i32, other: ID| #[trigger]
                self.index.at(x, y).contains(other) <==> (self.live(other) && self.entities@[other.0
                    - self.initial_id]->0.position == Some(Position { x, y })) by {
                assert(mid.index.at(x, y).contains(other) <==> (mid.live(other)
                    && mid.entities@[other.0 - self.initial_id]->0.position == Some(
                    Position { x, y },
                )));
            }
            assert forall|other: ID| other != id implies (self.live(other) == old(self).live(other)
                && (self.live(other) ==> self.entities@[other.0 - self.initial_id]
                == old(self).entities@[other.0 - self.initial_id])) by {
                assert(mid@.contains_key(other) == old(self)@.contains_key(other));
                if old(self).live(other) {
                    assert(mid@[other] == old(self)@[other]);
                }
            }
            assert(self@ =~= old(self)@.remove(id));
            assert(self.paths() =~= old(self).paths().remove(id));
            assert forall|p: Position| #[trigger]
                self.occupants(p) == old(self).occupants_after(id, None, p) by {
                assert(mid.occupants(p) == old(self).occupants_after(id, None, p));
            }
        }
        entity
    }

    /// Removes a live entity with all its components. Its identity is not
    /// used again.
    pub fn remove_entity(&mut self, id: ID)
        requires
            old(self).wf(),
            old(self)@.contains_key(id),
        ensures
            final(self).wf(),
            final(self)@ == old(self)@.remove(id),
            final(self).paths() == old(self).paths().remove(id),
            final(self).first_id() == old(self).first_id(),
            final(self).next_id() == old(self).next_id(),
            forall|p: Position| #[trigger]
                final(self).occupants(p) == old(self).occupants_after(id, None, p),
    {
        let _ = self.take_out(id);
    }

    /// The identities of all live entities, in the order of their creation.
    pub fn iter(&self) -> (ids: Vec<ID>)
        requires
            self.wf(),
        ensures
            forall|id: ID| ids@.contains(id) <==> self@.contains_key(id),
            forall|a: int, b: int| 0 <= a < b < ids@.len() ==> ids@[a].0 < ids@[b].0,
    {
        let mut ids: Vec<ID> = Vec::new();
        let mut i: usize = 0;
        while i < self.entities.len()
            invariant
                self.wf(),
                i <= self.entities@.len(),
                forall|id: ID|
                    ids@.contains(id) <==> (self@.contains_key(id) && id.0 - self.initial_id < i),
                forall|a: int, b: int| 0 <= a < b < ids@.len() ==> ids@[a].0 < ids@[b].0,
                forall|a: int| 0 <= a < ids@.len() ==> (#[trigger] ids@[a]).0 - self.initial_id < i,
            decreases self.entities@.len() - i,
        {
            if self.entities[i].is_some() {
                let id = ID(self.initial_id + i as i32);
                let ghost before = ids@;
                ids.push(id);
                proof {
                    assert(ids@[before.len() as int] == id);
                    assert forall|other: ID|
                        ids@.contains(other) <==> (self@.contains_key(other) && other.0
                            - self.initial_id < i + 1) by {
                        if ids@.contains(other) {
                            let a = choose|a: int| 0 <= a < ids@.len() && ids@[a] == other;
                            if a < before.len() {
                                assert(before[a] == other);
                                assert(before.contains(other));
                            }
                        }
                        if self@.contains_key(other) && other.0 - self.initial_id < i + 1 {
                            if other.0 - self.initial_id < i {
                                assert(before.contains(other));
                                let a = choose|a: int| 0 <= a < before.len() && before[a] == other;
                                assert(ids@[a] == other);
                            } else {
                                assert(other == id);
                            }
                        }
                    }
                }
            } else {
                proof {
                    assert forall|other: ID|
                        ids@.contains(other) <==> (self@.contains_key(other) && other.0
                            - self.initial_id < i + 1) by {
                    }
                }
            }
            i = i + 1;
        }
        ids
    }

    /// Removes every entity. The identities handed out so far are not used
    /// again.
    pub fn remove_all_entities(&mut self)
        requires
            old(self).wf(),
        ensures
            final(self).wf(),
            final(self)@ == Map::<ID, Entity>::empty(),
            final(self).paths() == Map::<ID, Seq<Point>>::empty(),
            final(self).first_id() == old(self).next_id(),
            final(self).next_id() == old(self).next_id(),
            forall|pos: Position| #[trigger] final(self).occupants(pos) == Seq::<ID>::empty(),
    {
        self.entities.truncate(0);
        self.paths.truncate(0);
        self.index.clear();
        self.initial_id = self.next_id;
        proof {
            assert(self@ =~= Map::<ID, Entity>::empty());
            assert(self.paths() =~= Map::<ID, Seq<Point>>::empty());
            assert forall|x: i32, y: i32, id: ID| !(#[trigger] self.index.at(x, y).contains(id)) by {
                assert(self.index.at(x, y) == Seq::<ID>::empty());
            }
            assert forall|x: i32, y: i32| #[trigger] self.index.at(x, y).no_duplicates() by {
                assert(self.index.at(x, y) == Seq::<ID>::empty());
            }
            assert forall|pos: Position| #[trigger] self.occupants(pos) == Seq::<ID>::empty() by {
                assert(self.index.at(pos.x, pos.y) == Seq::<ID>::empty());
            }
        }
    }
}

impl ComponentManager {
    /// Whether a live entity carries a component of the kind `ctype`.
    pub fn has_component(&self, id: ID, ctype: ComponentType) -> (b: bool)
        requires
            self.wf(),
            self@.contains_key(id),
        ensures
            b == self@[id].has_spec(ctype, self.paths().contains_key(id)),
    {
        let e = self.components(id);
        match ctype {
            ComponentType::AcceptsUserInput => e.accepts_user_input.is_some(),
            ComponentType::Addiction => e.addiction.is_some(),
            ComponentType::AI => e.ai.is_some(),
            ComponentType::AnxietyKillCounter => e.anxiety_kill_counter.is_some(),
            ComponentType::AttackTarget => e.attack_target.is_some(),
            ComponentType::AttackType => e.attack_type.is_some(),
            ComponentType::AttributeModifier => e.attribute_modifier.is_some(),
            ComponentType::Attributes => e.attributes.is_some(),
            ComponentType::Background => e.background.is_some(),
            ComponentType::Bump => e.bump.is_some(),
            ComponentType::Destination => e.destination.is_some(),
            ComponentType::Dose => e.dose.is_some(),
            ComponentType::ExplosionEffect => e.explosion_effect.is_some(),
            ComponentType::Monster => e.monster.is_some(),
            ComponentType::Panicking => e.panicking.is_some(),
            ComponentType::Path => self.has_path(id),
            ComponentType::Position => e.position.is_some(),
            ComponentType::Solid => e.solid.is_some(),
            ComponentType::Stunned => e.stunned.is_some(),
            ComponentType::Tile => e.tile.is_some(),
            ComponentType::Turn => e.turn.is_some(),
        }
    }

    /// The component of the kind `ctype` of a live entity, if it carries
    /// one.
    pub fn get(&self, id: ID, ctype: ComponentType) -> (c: Option<Component>)
        requires
            self.wf(),
            self@.contains_key(id),
        ensures
            ctype != ComponentType::Path ==> c == self@[id].get_spec(ctype),
            ctype == ComponentType::Path ==> (c is Some <==> self.paths().contains_key(id)),
            ctype == ComponentType::Path ==> (c matches Some(found) ==> found matches Component::Path(
                p,
            ) && p.waypoints@ == self.paths()[id]),
    {
        let e = self.components(id);
        match ctype {
            ComponentType::AcceptsUserInput => match e.accepts_user_input {
                Some(v) => Some(Component::AcceptsUserInput(v)),
                None => None,
            },
            ComponentType::Addiction => match e.addiction {
                Some(v) => Some(Component::Addiction(v)),
                None => None,
            },
            ComponentType::AI => match e.ai {
                Some(v) => Some(Component::AI(v)),
                None => None,
            },
            ComponentType::AnxietyKillCounter => match e.anxiety_kill_counter {
                Some(v) => Some(Component::AnxietyKillCounter(v)),
                None => None,
            },
            ComponentType::AttackTarget => match e.attack_target {
                Some(v) => Some(Component::AttackTarget(v)),
                None => None,
            },
            ComponentType::AttackType => match e.attack_type {
                Some(v) => Some(Component::AttackType(v)),
                None => None,
            },
            ComponentType::AttributeModifier => match e.attribute_modifier {
                Some(v) => Some(Component::AttributeModifier(v)),
                None => None,
            },
            ComponentType::Attributes => match e.attributes {
                Some(v) => Some(Component::Attributes(v)),
                None => None,
            },
            ComponentType::Background => match e.background {
                Some(v) => Some(Component::Background(v)),
                None => None,
            },
            ComponentType::Bump => match e.bump {
                Some(v) => Some(Component::Bump(v)),
                None => None,
            },
            ComponentType::Destination => match e.destination {
                Some(v) => Some(Component::Destination(v)),
                None => None,
            },
            ComponentType::Dose => match e.dose {
                Some(v) => Some(Component::Dose(v)),
                None => None,
            },
            ComponentType::ExplosionEffect => match e.explosion_effect {
                Some(v) => Some(Component::ExplosionEffect(v)),
                None => None,
            },
            ComponentType::Monster => match e.monster {
                Some(v) => Some(Component::Monster(v)),
                None => None,
            },
            ComponentType::Panicking => match e.panicking {
                Some(v) => Some(Component::Panicking(v)),
                None => None,
            },
            ComponentType::Path => match self.path(id) {
                Some(p) => Some(Component::Path(p)),
                None => None,
            },
            ComponentType::Position => match e.position {
                Some(v) => Some(Component::Position(v)),
                None => None,
            },
            ComponentType::Solid => match e.solid {
                Some(v) => Some(Component::Solid(v)),
                None => None,
            },
            ComponentType::Stunned => match e.stunned {
                Some(v) => Some(Component::Stunned(v)),
                None => None,
            },
            ComponentType::Tile => match e.tile {
                Some(v) => Some(Component::Tile(v)),
                None => None,
            },
            ComponentType::Turn => match e.turn {
                Some(v) => Some(Component::Turn(v)),
                None => None,
            },
        }
    }

    /// Sets a component of a live entity, in place of the one of its kind
    /// that the entity may carry. A position goes through
    /// [`ComponentManager::set_position`], so that the index follows.
    pub fn set(&mut self, id: ID, component: Component)
        requires
            old(self).wf(),
            old(self)@.contains_key(id),
        ensures
            final(self).wf(),
            final(self)@ == old(self)@.insert(id, old(self)@[id].with(component)),
            final(self).paths() == match component {
                Component::Path(p) => old(self).paths().insert(id, p.waypoints@),
                _ => old(self).paths(),
            },
            final(self).first_id() == old(self).first_id(),
            final(self).next_id() == old(self).next_id(),
            forall|p: Position| #[trigger]
                final(self).occupants(p) == match component {
                    Component::Position(pos) => old(self).occupants_after(id, Some(pos), p),
                    _ => old(self).occupants(p),
                },
    {
        let mut e = self.components(id);
        match component {
            Component::AcceptsUserInput(v) => {
                e.accepts_user_input = Some(v);
                self.put(id, e);
            },
            Component::Addiction(v) => {
                e.addiction = Some(v);
                self.put(id, e);
            },
            Component::AI(v) => {
                e.ai = Some(v);
                self.put(id, e);
            },
            Component::AnxietyKillCounter(v) => {
                e.anxiety_kill_counter = Some(v);
                self.put(id, e);
            },
            Component::AttackTarget(v) => {
                e.attack_target = Some(v);
                self.put(id, e);
            },
            Component::AttackType(v) => {
                e.attack_type = Some(v);
                self.put(id, e);
            },
            Component::AttributeModifier(v) => {
                e.attribute_modifier = Some(v);
                self.put(id, e);
            },
            Component::Attributes(v) => {
                e.attributes = Some(v);
                self.put(id, e);
            },
            Component::Background(v) => {
                e.background = Some(v);
                self.put(id, e);
            },
            Component::Bump(v) => {
                e.bump = Some(v);
                self.put(id, e);
            },
            Component::Destination(v) => {
                e.destination = Some(v);
                self.put(id, e);
            },
            Component::Dose(v) => {
                e.dose = Some(v);
                self.put(id, e);
            },
            Component::ExplosionEffect(v) => {
                e.explosion_effect = Some(v);
                self.put(id, e);
            },
            Component::Monster(v) => {
                e.monster = Some(v);
                self.put(id, e);
            },
            Component::Panicking(v) => {
                e.panicking = Some(v);
                self.put(id, e);
            },
            Component::Path(p) => {
                self.set_path(id, p.waypoints);
                proof {
                    assert(self@ =~= old(self)@.insert(id, old(self)@[id]));
                }
            },
            Component::Position(v) => {
                self.set_position(id, v);
            },
            Component::Solid(v) => {
                e.solid = Some(v);
                self.put(id, e);
            },
            Component::Stunned(v) => {
                e.stunned = Some(v);
                self.put(id, e);
            },
            Component::Tile(v) => {
                e.tile = Some(v);
                self.put(id, e);
            },
            Component::Turn(v) => {
                e.turn = Some(v);
                self.put(id, e);
            },
        }
    }

    /// Removes the component of the kind `ctype` from a live entity. A
    /// position goes through [`ComponentManager::remove_position`], so that
    /// the index follows.
    pub fn remove(&mut self, id: ID, ctype: ComponentType)
        requires
            old(self).wf(),
            old(self)@.contains_key(id),
        ensures
            final(self).wf(),
            final(self)@ == old(self)@.insert(id, old(self)@[id].without(ctype)),
            final(self).paths() == if ctype == ComponentType::Path {
                old(self).paths().remove(id)
            } else {
                old(self).paths()
            },
            final(self).first_id() == old(self).first_id(),
            final(self).next_id() == old(self).next_id(),
            forall|p: Position| #[trigger]
                final(self).occupants(p) == if ctype == ComponentType::Position {
                    old(self).occupants_after(id, None, p)
                } else {
                    old(self).occupants(p)
                },
    {
        let mut e = self.components(id);
        match ctype {
            ComponentType::AcceptsUserInput => {
                e.accepts_user_input = None;
                self.put(id, e);
            },
            ComponentType::Addiction => {
                e.addiction = None;
                self.put(id, e);
            },
            ComponentType::AI => {
                e.ai = None;
                self.put(id, e);
            },
            ComponentType::AnxietyKillCounter => {
                e.anxiety_kill_counter = None;
                self.put(id, e);
            },
            ComponentType::AttackTarget => {
                e.attack_target = None;
                self.put(id, e);
            },
            ComponentType::AttackType => {
                e.attack_type = None;
                self.put(id, e);
            },
            ComponentType::AttributeModifier => {
                e.attribute_modifier = None;
                self.put(id, e);
            },
            ComponentType::Attributes => {
                e.attributes = None;
                self.put(id, e);
            },
            ComponentType::Background => {
                e.background = None;
                self.put(id, e);
            },
            ComponentType::Bump => {
                e.bump = None;
                self.put(id, e);
            },
            ComponentType::Destination => {
                e.destination = None;
                self.put(id, e);
            },
            ComponentType::Dose => {
                e.dose = None;
                self.put(id, e);
            },
            ComponentType::ExplosionEffect => {
                e.explosion_effect = None;
                self.put(id, e);
            },
            ComponentType::Monster => {
                e.monster = None;
                self.put(id, e);
            },
            ComponentType::Panicking => {
                e.panicking = None;
                self.put(id, e);
            },
            ComponentType::Path => {
                self.remove_path(id);
                proof {
                    assert(self@ =~= old(self)@.insert(id, old(self)@[id]));
                }
            },
            ComponentType::Position => {
                self.remove_position(id);
            },
            ComponentType::Solid => {
                e.solid = None;
                self.put(id, e);
            },
            ComponentType::Stunned => {
                e.stunned = None;
                self.put(id, e);
            },
            ComponentType::Tile => {
                e.tile = None;
                self.put(id, e);
            },
            ComponentType::Turn => {
                e.turn = None;
                self.put(id, e);
            },
        }
    }

    /// Whether a live entity has a path.
    pub fn has_path(&self, id: ID) -> (b: bool)
        requires
            self.wf(),
            self@.contains_key(id),
        ensures
            b == self.paths().contains_key(id),
    {
        let i = self.index(id);
        self.paths[i].is_some()
    }

    /// A copy of the path of a live entity, if it has one.
    pub fn path(&self, id: ID) -> (p: Option<PathComponent>)
        requires
            self.wf(),
            self@.contains_key(id),
        ensures
            p is Some <==> self.paths().contains_key(id),
            p matches Some(found) ==> found.waypoints@ == self.paths()[id],
    {
        let i = self.index(id);
        match &self.paths[i] {
            Some(p) => Some(p.duplicate()),
            None => None,
        }
    }

    /// Gives a live entity the path `waypoints`, in place of the one it may
    /// have.
    pub fn set_path(&mut self, id: ID, waypoints: Vec<Point>)
        requires
            old(self).wf(),
            old(self)@.contains_key(id),
        ensures
            final(self).wf(),
            final(self)@ == old(self)@,
            final(self).paths() == old(self).paths().insert(id, waypoints@),
            final(self).first_id() == old(self).first_id(),
            final(self).next_id() == old(self).next_id(),
            forall|pos: Position| #[trigger] final(self).occupants(pos) == old(self).occupants(pos),
    {
        let i = self.index(id);
        self.paths.set(i, Some(PathComponent { waypoints }));
        proof {
            assert(self@ =~= old(self)@);
            assert(self.paths() =~= old(self).paths().insert(id, waypoints@));
        }
    }

    /// Takes the path from a live entity.
    pub fn remove_path(&mut self, id: ID)
        requires
            old(self).wf(),
            old(self)@.contains_key(id),
        ensures
            final(self).wf(),
            final(self)@ == old(self)@,
            final(self).paths() == old(self).paths().remove(id),
            final(self).first_id() == old(self).first_id(),
            final(self).next_id() == old(self).next_id(),
            forall|pos: Position| #[trigger] final(self).occupants(pos) == old(self).occupants(pos),
    {
        let i = self.index(id);
        self.paths.set(i, None);
        proof {
            assert(self@ =~= old(self)@);
            assert(self.paths() =~= old(self).paths().remove(id));
        }
    }

    /// Takes the next waypoint off the path of a live entity. `None` where
    /// the entity has no path or has walked it to its end.
    pub fn walk_one_step(&mut self, id: ID) -> (step: Option<Point>)
        requires
            old(self).wf(),
            old(self)@.contains_key(id),
        ensures
            final(self).wf(),
            final(self)@ == old(self)@,
            final(self).first_id() == old(self).first_id(),
            final(self).next_id() == old(self).next_id(),
            forall|pos: Position| #[trigger] final(self).occupants(pos) == old(self).occupants(pos),
            step is Some <==> (old(self).paths().contains_key(id) && old(self).paths()[id].len()
                > 0),
            step matches Some(p) ==> p == old(self).paths()[id][0] && final(self).paths() == old(
                self,
            ).paths().insert(id, old(self).paths()[id].drop_first()),
            step is None ==> final(self).paths() == old(self).paths(),
    {
        let i = self.index(id);
        let current = self.path(id);
        match current {
            Some(p) => {
                let mut waypoints = p.waypoints;
                if waypoints.len() == 0 {
                    None
                } else {
                    let first = waypoints.remove(0);
                    proof {
                        assert(waypoints@ == old(self).paths()[id].drop_first());
                    }
                    self.set_path(id, waypoints);
                    Some(first)
                }
            },
            None => None,
        }
    }

    /// The position of a live entity, if it has one.
    pub fn get_position(&self, id: ID) -> (p: Option<Position>)
        requires
            self.wf(),
            self@.contains_key(id),
        ensures
            p == self@[id].position,
    {
        self.components(id).position
    }

    /// Whether a live entity has a position.
    pub fn has_position(&self, id: ID) -> (b: bool)
        requires
            self.wf(),
            self@.contains_key(id),
        ensures
            b == self@[id].position is Some,
    {
        self.components(id).position.is_some()
    }

    /// The turn of a live entity, if it takes turns.
    pub fn get_turn(&self, id: ID) -> (t: Option<Turn>)
        requires
            self.wf(),
            self@.contains_key(id),
        ensures
            t == self@[id].turn,
    {
        self.components(id).turn
    }

    /// Sets the turn of a live entity.
    pub fn set_turn(&mut self, id: ID, turn: Turn)
        requires
            old(self).wf(),
            old(self)@.contains_key(id),
        ensures
            final(self).wf(),
            final(self)@ == old(self)@.insert(id, Entity { turn: Some(turn), ..old(self)@[id] }),
            final(self).paths() == old(self).paths(),
            final(self).first_id() == old(self).first_id(),
            final(self).next_id() == old(self).next_id(),
            forall|pos: Position| #[trigger] final(self).occupants(pos) == old(self).occupants(pos),
    {
        let mut e = self.components(id);
        e.turn = Some(turn);
        self.put(id, e);
    }

    /// Writes all components of a live entity but its position, which stays
    /// as it is.
    pub fn set_components(&mut self, id: ID, entity: Entity)
        requires
            old(self).wf(),
            old(self)@.contains_key(id),
        ensures
            final(self).wf(),
            final(self)@ == old(self)@.insert(
                id,
                Entity { position: old(self)@[id].position, ..entity },
            ),
            final(self).paths() == old(self).paths(),
            final(self).first_id() == old(self).first_id(),
            final(self).next_id() == old(self).next_id(),
            forall|pos: Position| #[trigger] final(self).occupants(pos) == old(self).occupants(pos),
    {
        let mut e = entity;
        e.position = self.components(id).position;
        self.put(id, e);
    }
}

} // verus!
