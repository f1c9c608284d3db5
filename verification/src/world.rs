//! The world: one unbounded grid of tiles, backed by chunks that are made
//! the first time something asks for one of their tiles.
//!
//! What a tile holds is a function of the world seed until something changes
//! it, whether its chunk was made already or not. So asking never changes
//! what the world holds, and the order in which chunks are made does not
//! show: [`World::cell_at`] is the world as callers see it, and every
//! operation says what it does to it.

use crate::generators::{
    cell_index, cell_index_of, cell_position, chunk_from_world_pos, chunk_in_range, chunk_of,
    first_dose_position, first_dose_spec, generate_item, generate_monster, generate_tile,
    generated_item, generated_monster, generated_tile, lemma_cell_of_point,
    position_of_cell, well_inside, TileKind, WORLD_LIMIT,
};
use crate::item::Item;
use crate::monster::{Monster, Walkability};
use crate::point::{
    closer_than, lemma_square_points_contains, square_points,
    tile_distance_spec, Point, SquareArea,
};
use crate::random::Random;
use crate::position_index::{key, key_spec, lemma_key_injective};
use std::collections::HashMap;
use vstd::prelude::*;
use vstd::std_specs::hash::*;

verus! {

broadcast use vstd::std_specs::hash::group_hash_axioms;

/// One tile of the world and what is on it.
#[derive(Debug)]
pub struct Cell {
    pub tile: TileKind,
    pub items: Vec<Item>,
    pub explored: bool,
    pub monster: Option<Monster>,
}

/// The plain values of a [`Cell`].
pub struct CellView {
    pub tile: TileKind,
    pub items: Seq<Item>,
    pub explored: bool,
    pub monster: Option<Monster>,
}

impl View for Cell {
    type V = CellView;

    open spec fn view(&self) -> CellView {
        CellView {
            tile: self.tile,
            items: self.items@,
            explored: self.explored,
            monster: self.monster,
        }
    }
}

/// What the tile `p` holds before anything has changed it.
pub open spec fn generated_cell(seed: u32, spawn: Point, first_dose: Point, p: Point) -> CellView {
    CellView {
        tile: generated_tile(seed, spawn, p),
        items: match generated_item(seed, spawn, first_dose, p) {
            Some(kind) => seq![Item::of_kind(kind)],
            None => Seq::empty(),
        },
        explored: false,
        monster: match generated_monster(seed, spawn, p) {
            Some(kind) => Some(Monster::spawned(kind, p)),
            None => None,
        },
    }
}

/// A square of tiles of the world.
#[derive(Debug)]
pub struct Chunk {
    /// Which chunk this is: the coordinates of its tiles, divided by the
    /// chunk size.
    pub position: Point,
    pub cells: Vec<Cell>,
}

/// The chunk `chunk` is the chunk `position` of the world of seed `seed`
/// as it is before anything has changed it.
pub open spec fn fresh_chunk(
    chunk: Chunk,
    seed: u32,
    spawn: Point,
    first_dose: Point,
    position: Point,
) -> bool {
    &&& chunk.position == position
    &&& chunk.cells@.len() == 1024
    &&& forall|i: int|
        0 <= i < 1024 ==> (#[trigger] chunk.cells@[i])@ == generated_cell(
            seed,
            spawn,
            first_dose,
            cell_position(position, i),
        )
}

/// A chunk comes out the same whenever it is made: two chunks made for the
/// same seed and the same place hold the same tiles, monsters and items.
pub proof fn lemma_chunk_generation_is_deterministic(
    a: Chunk,
    b: Chunk,
    seed: u32,
    spawn: Point,
    first_dose: Point,
    position: Point,
)
    requires
        fresh_chunk(a, seed, spawn, first_dose, position),
        fresh_chunk(b, seed, spawn, first_dose, position),
    ensures
        a.position == b.position,
        a.cells@.len() == b.cells@.len(),
        forall|i: int| 0 <= i < 1024 ==> (#[trigger] a.cells@[i])@ == b.cells@[i]@,
{
}

impl Chunk {
    /// The chunk `position` of the world of seed `seed`, as it is before
    /// anything has changed it.
    pub fn new(seed: u32, spawn: Point, first_dose: Point, position: Point) -> (chunk: Chunk)
        requires
            chunk_in_range(position),
            well_inside(spawn),
        ensures
            fresh_chunk(chunk, seed, spawn, first_dose, position),
            chunk.position == position,
            chunk.cells@.len() == 1024,
            forall|i: int|
                0 <= i < 1024 ==> (#[trigger] chunk.cells@[i])@ == generated_cell(
                    seed,
                    spawn,
                    first_dose,
                    cell_position(position, i),
                ),
    {
        let mut cells: Vec<Cell> = Vec::new();
        let mut i: usize = 0;
        while i < 1024
            invariant
                chunk_in_range(position),
                well_inside(spawn),
                i <= 1024,
                cells@.len() == i,
                forall|j: int|
                    0 <= j < i ==> (#[trigger] cells@[j])@ == generated_cell(
                        seed,
                        spawn,
                        first_dose,
                        cell_position(position, j),
                    ),
            decreases 1024 - i,
        {
            let p = position_of_cell(position, i);
            let tile = generate_tile(seed, spawn, p);
            let mut items: Vec<Item> = Vec::new();
            match generate_item(seed, spawn, first_dose, p) {
                Some(kind) => {
                    items.push(Item::new(kind));
                },
                None => {},
            }
            let monster = match generate_monster(seed, spawn, p) {
                Some(kind) => Some(Monster::new(kind, p)),
                None => None,
            };
            let cell = Cell { tile, items, explored: false, monster };
            proof {
                assert(cell@.items =~= generated_cell(seed, spawn, first_dose, p).items);
            }
            cells.push(cell);
            i = i + 1;
        }
        Chunk { position, cells }
    }
}

/// What does not change while a world lasts.
pub struct WorldSettings {
    pub seed: u32,
    pub max_half_size: i32,
    pub spawn: Point,
}

pub struct World {
    seed: u32,
    max_half_size: i32,
    spawn: Point,
    first_dose: Point,
    chunks: Vec<Chunk>,
    index: HashMap<u64, usize>,
}

impl World {
    /// The seed, the extent and the player's entry.
    pub closed spec fn settings(&self) -> WorldSettings {
        WorldSettings { seed: self.seed, max_half_size: self.max_half_size, spawn: self.spawn }
    }

    /// Whether the chunk `chunk` was made already.
    pub closed spec fn loaded(&self, chunk: Point) -> bool {
        self.index@.contains_key(key_spec(chunk.x, chunk.y) as u64)
    }

    /// The chunks that are made are those that were made in `before` and
    /// the chunk of the tile `pos`: a chunk is made when a tile of it is
    /// first looked at, and none is ever lost.
    pub open spec fn made_for(&self, before: &World, pos: Point) -> bool {
        forall|chunk: Point| #[trigger]
            self.loaded(chunk) == (before.loaded(chunk) || chunk == chunk_of(pos))
    }

    /// The chunks that are made are those that were made in `before`.
    pub open spec fn same_chunks(&self, before: &World) -> bool {
        forall|chunk: Point| #[trigger] self.loaded(chunk) == before.loaded(chunk)
    }

    /// Every chunk that was made in `before` is still there.
    pub open spec fn keeps_chunks(&self, before: &World) -> bool {
        forall|chunk: Point| before.loaded(chunk) ==> #[trigger] self.loaded(chunk)
    }

    /// One of the tiles `tiles` lies within the world and in the chunk
    /// `chunk`.
    pub open spec fn holds_one_of(&self, tiles: Set<Point>, chunk: Point) -> bool {
        exists|p: Point| #[trigger]
            tiles.contains(p) && self.within_bounds_spec(p) && chunk_of(p) == chunk
    }

    /// The chunks that are made are those that were made in `before` and
    /// the chunks of those of the tiles `tiles` that lie within the world.
    pub open spec fn made_for_all(&self, before: &World, tiles: Set<Point>) -> bool {
        forall|chunk: Point| #[trigger]
            self.loaded(chunk) == (before.loaded(chunk) || before.holds_one_of(tiles, chunk))
    }

    /// The chunks that are made are those that were made in `before` and
    /// the chunks of the tiles `tiles`, within the world or beyond it.
    pub open spec fn made_over(&self, before: &World, tiles: Set<Point>) -> bool {
        forall|chunk: Point| #[trigger]
            self.loaded(chunk) == (before.loaded(chunk) || exists|p: Point| #[trigger]
                tiles.contains(p) && chunk_of(p) == chunk)
    }

    /// One more tile was looked at, within the world or beyond it.
    proof fn lemma_one_more_look(&self, mid: &World, before: &World, tiles: Set<Point>, p: Point)
        requires
            mid.made_over(before, tiles),
            self.made_for(mid, p),
        ensures
            self.made_over(before, tiles.insert(p)),
    {
        let more = tiles.insert(p);
        assert forall|chunk: Point| #[trigger]
            self.loaded(chunk) == (before.loaded(chunk) || exists|q: Point| #[trigger]
                more.contains(q) && chunk_of(q) == chunk) by {
            assert(mid.loaded(chunk) == (before.loaded(chunk) || exists|q: Point| #[trigger]
                tiles.contains(q) && chunk_of(q) == chunk));
            if exists|q: Point| #[trigger] tiles.contains(q) && chunk_of(q) == chunk {
                let q = choose|q: Point| #[trigger] tiles.contains(q) && chunk_of(q) == chunk;
                assert(more.contains(q));
            }
            if exists|q: Point| #[trigger] more.contains(q) && chunk_of(q) == chunk {
                let q = choose|q: Point| #[trigger] more.contains(q) && chunk_of(q) == chunk;
                if q != p {
                    assert(tiles.contains(q));
                }
            }
            if chunk == chunk_of(p) {
                assert(more.contains(p));
            }
        }
    }

    /// No chunk is ever lost: whatever tiles were looked at, every chunk
    /// that was made before is still there.
    pub proof fn lemma_no_chunk_is_lost(&self, before: &World, tiles: Set<Point>)
        requires
            self.made_for_all(before, tiles),
        ensures
            self.keeps_chunks(before),
    {
    }

    /// A look at a tile whose chunk was made already makes no chunk: the
    /// chunk that is there is the one that is looked at.
    pub proof fn lemma_second_look_makes_nothing(&self, before: &World, pos: Point)
        requires
            self.made_for(before, pos),
            before.loaded(chunk_of(pos)),
        ensures
            self.same_chunks(before),
    {
    }

    /// One more tile was looked at.
    proof fn lemma_one_more_tile(&self, mid: &World, before: &World, tiles: Set<Point>, p: Point)
        requires
            mid.settings() == before.settings(),
            mid.made_for_all(before, tiles),
            before.within_bounds_spec(p) ==> self.made_for(mid, p),
            !before.within_bounds_spec(p) ==> self.same_chunks(mid),
        ensures
            self.made_for_all(before, tiles.insert(p)),
    {
        let more = tiles.insert(p);
        assert forall|chunk: Point| #[trigger]
            self.loaded(chunk) == (before.loaded(chunk) || before.holds_one_of(more, chunk)) by {
            assert(mid.loaded(chunk) == (before.loaded(chunk) || before.holds_one_of(
                tiles,
                chunk,
            )));
            if before.holds_one_of(tiles, chunk) {
                let q = choose|q: Point| #[trigger]
                    tiles.contains(q) && before.within_bounds_spec(q) && chunk_of(q) == chunk;
                assert(more.contains(q));
            }
            if before.holds_one_of(more, chunk) {
                let q = choose|q: Point| #[trigger]
                    more.contains(q) && before.within_bounds_spec(q) && chunk_of(q) == chunk;
                if q != p {
                    assert(tiles.contains(q));
                }
            }
            if before.within_bounds_spec(p) && chunk == chunk_of(p) {
                assert(more.contains(p));
            }
        }
    }

    /// A tile was passed over.
    proof fn lemma_no_more_tiles(&self, mid: &World, before: &World, tiles: Set<Point>)
        requires
            mid.made_for_all(before, tiles),
            self.same_chunks(mid),
        ensures
            self.made_for_all(before, tiles),
    {
        assert forall|chunk: Point| #[trigger]
            self.loaded(chunk) == (before.loaded(chunk) || before.holds_one_of(tiles, chunk)) by {
            assert(mid.loaded(chunk) == (before.loaded(chunk) || before.holds_one_of(
                tiles,
                chunk,
            )));
        }
    }

    /// Nothing was looked at yet.
    proof fn lemma_no_tiles_yet(&self)
        ensures
            self.made_for_all(self, Set::empty()),
    {
    }

    /// What a look at the tile `pos` does to the chunks: the chunk of a
    /// tile within the world is made; a tile beyond it is not looked at.
    pub open spec fn made_within(&self, before: &World, pos: Point) -> bool {
        if before.within_bounds_spec(pos) {
            self.made_for(before, pos)
        } else {
            self.same_chunks(before)
        }
    }

    /// What the tile `p` holds.
    pub closed spec fn cell_at(&self, p: Point) -> CellView {
        let chunk = chunk_of(p);
        let k = key_spec(chunk.x, chunk.y) as u64;
        if self.index@.contains_key(k) {
            self.chunks@[self.index@[k] as int].cells@[cell_index(p)]@
        } else {
            generated_cell(self.seed, self.spawn, self.first_dose, p)
        }
    }

    /// The tile the first dose was put on.
    pub closed spec fn first_dose(&self) -> Point {
        self.first_dose
    }

    pub closed spec fn wf(&self) -> bool {
        &&& 0 < self.max_half_size <= WORLD_LIMIT
        &&& well_inside(self.spawn)
        &&& self.first_dose == first_dose_spec(self.seed, self.spawn)
        &&& forall|i: int|
            0 <= i < self.chunks@.len() ==> {
                let chunk = #[trigger] self.chunks@[i];
                &&& chunk.cells@.len() == 1024
                &&& chunk_in_range(chunk.position)
                &&& self.index@.contains_key(key_spec(chunk.position.x, chunk.position.y) as u64)
                &&& self.index@[key_spec(chunk.position.x, chunk.position.y) as u64] == i
            }
        &&& forall|k: u64| #[trigger]
            self.index@.contains_key(k) ==> self.index@[k] < self.chunks@.len() && key_spec(
                self.chunks@[self.index@[k] as int].position.x,
                self.chunks@[self.index@[k] as int].position.y,
            ) == k
        &&& forall|i: int, j: int|
            0 <= i < self.chunks@.len() && 0 <= j < 1024 ==> (
            #[trigger] self.chunks@[i].cells@[j].monster matches Some(m) ==> m.position
                == cell_position(self.chunks@[i].position, j) && m.wf())
    }

    /// Whether `pos` lies inside the extent of the world.
    pub open spec fn within_bounds_spec(&self, pos: Point) -> bool {
        let m = self.settings().max_half_size;
        pos.x < m && pos.x > -m && pos.y < m && pos.y > -m
    }

    /// Whether one can step on `pos`: it lies inside the world, it is open
    /// ground, and no monster stands there if monsters are in the way.
    pub open spec fn walkable_spec(&self, pos: Point, walkability: Walkability) -> bool {
        &&& self.within_bounds_spec(pos)
        &&& self.cell_at(pos).tile == TileKind::Empty
        &&& (walkability == Walkability::WalkthroughMonsters || self.cell_at(pos).monster is None)
    }

    /// The monster that stands on `pos`, if `pos` lies inside the world.
    pub open spec fn monster_at(&self, pos: Point) -> Option<Monster> {
        if self.within_bounds_spec(pos) {
            self.cell_at(pos).monster
        } else {
            None
        }
    }

    /// The two worlds hold the same on every tile.
    pub open spec fn same_as(&self, other: &World) -> bool {
        &&& self.settings() == other.settings()
        &&& self.first_dose() == other.first_dose()
        &&& forall|p: Point| #[trigger] self.cell_at(p) == other.cell_at(p)
    }

    /// The world holds `cell` on `pos` and on every other tile what `other`
    /// holds there.
    pub open spec fn same_but_at(&self, other: &World, pos: Point, cell: CellView) -> bool {
        &&& self.settings() == other.settings()
        &&& self.first_dose() == other.first_dose()
        &&& forall|p: Point|
            #![trigger self.cell_at(p)]
            self.cell_at(p) == if p == pos {
                cell
            } else {
                other.cell_at(p)
            }
    }

    /// Nothing has changed the world yet: every tile holds what the seed
    /// gives it.
    pub open spec fn pristine(&self) -> bool {
        forall|p: Point| #[trigger]
            self.cell_at(p) == generated_cell(
                self.settings().seed,
                self.settings().spawn,
                self.first_dose(),
                p,
            )
    }

    /// Two worlds of the same seed that nothing has changed hold the same
    /// on every tile, whichever of their chunks were made and in whatever
    /// order.
    pub proof fn lemma_same_seed_same_world(&self, other: &World)
        requires
            self.pristine(),
            other.pristine(),
            self.settings() == other.settings(),
            self.first_dose() == other.first_dose(),
        ensures
            self.same_as(other),
    {
        assert forall|p: Point| #[trigger] self.cell_at(p) == other.cell_at(p) by {
            assert(other.cell_at(p) == generated_cell(
                other.settings().seed,
                other.settings().spawn,
                other.first_dose(),
                p,
            ));
        }
    }

    /// Asking leaves a world that nothing has changed as it is.
    pub proof fn lemma_asking_keeps_pristine(&self, before: &World)
        requires
            before.pristine(),
            self.same_as(before),
        ensures
            self.pristine(),
    {
        assert forall|p: Point| #[trigger]
            self.cell_at(p) == generated_cell(
                self.settings().seed,
                self.settings().spawn,
                self.first_dose(),
                p,
            ) by {
            assert(before.cell_at(p) == generated_cell(
                before.settings().seed,
                before.settings().spawn,
                before.first_dose(),
                p,
            ));
        }
    }

    /// The world is not empty and no larger than what coordinates can
    /// hold, and the player's entry lies inside it.
    pub proof fn lemma_extent(&self)
        requires
            self.wf(),
        ensures
            0 < self.settings().max_half_size <= WORLD_LIMIT,
            well_inside(self.settings().spawn),
    {
    }

    /// A tile that nothing has touched yet holds what the seed gives it.
    pub proof fn lemma_untouched_cell(&self, p: Point)
        requires
            !self.loaded(chunk_of(p)),
        ensures
            self.cell_at(p) == generated_cell(
                self.settings().seed,
                self.settings().spawn,
                self.first_dose(),
                p,
            ),
    {
    }

    /// A monster knows where it stands, and its action points are within
    /// bounds.
    pub proof fn lemma_monsters_know_their_place(&self, p: Point)
        requires
            self.wf(),
        ensures
            self.cell_at(p).monster matches Some(m) ==> m.position == p && m.wf(),
    {
        lemma_cell_of_point(p);
        let chunk = chunk_of(p);
        let k = key_spec(chunk.x, chunk.y) as u64;
        if self.index@.contains_key(k) {
            let i = self.index@[k] as int;
            assert(self.chunks@[i].cells@[cell_index(p)].monster matches Some(m) ==> m.position
                == cell_position(self.chunks@[i].position, cell_index(p)) && m.wf());
            lemma_key_injective(
                chunk.x,
                chunk.y,
                self.chunks@[i].position.x,
                self.chunks@[i].position.y,
            );
        }
    }

    /// A world of the given seed and extent that the player enters at
    /// `spawn`. No chunk is made yet.
    pub fn new(seed: u32, max_half_size: i32, spawn: Point) -> (world: World)
        requires
            0 < max_half_size <= WORLD_LIMIT,
            well_inside(spawn),
        ensures
            world.wf(),
            world.settings() == (WorldSettings { seed, max_half_size, spawn }),
            world.first_dose() == first_dose_spec(seed, spawn),
            world.pristine(),
            forall|chunk: Point| !world.loaded(chunk),
            forall|p: Point| #[trigger]
                world.cell_at(p) == generated_cell(seed, spawn, first_dose_spec(seed, spawn), p),
    {
        let first_dose = first_dose_position(seed, spawn);
        World {
            seed,
            max_half_size,
            spawn,
            first_dose,
            chunks: Vec::new(),
            index: HashMap::new(),
        }
    }

    pub fn seed(&self) -> (seed: u32)
        ensures
            seed == self.settings().seed,
    {
        self.seed
    }

    pub fn spawn(&self) -> (spawn: Point)
        ensures
            spawn == self.settings().spawn,
    {
        self.spawn
    }

    /// The place among the chunks of the chunk that holds `pos`. The chunk
    /// is made if it was not yet; the world holds the same afterwards.
    fn chunk_index(&mut self, pos: Point) -> (i: usize)
        requires
            old(self).wf(),
        ensures
            final(self).wf(),
            final(self).same_as(old(self)),
            i < final(self).chunks@.len(),
            final(self).chunks@[i as int].position == chunk_of(pos),
            final(self).loaded(chunk_of(pos)),
            final(self).index@[key_spec(chunk_of(pos).x, chunk_of(pos).y) as u64] == i,
            forall|chunk: Point|
                chunk != chunk_of(pos) ==> final(self).loaded(chunk) == old(self).loaded(chunk),
    {
        let chunk = chunk_from_world_pos(pos);
        let k = key(chunk.x, chunk.y);
        match self.index.get(&k) {
            Some(i) => {
                let i = *i;
                proof {
                    lemma_key_injective(
                        chunk.x,
                        chunk.y,
                        self.chunks@[i as int].position.x,
                        self.chunks@[i as int].position.y,
                    );
                }
                i
            },
            None => {
                let made = Chunk::new(self.seed, self.spawn, self.first_dose, chunk);
                let i = self.chunks.len();
                self.chunks.push(made);
                self.index.insert(k, i);
                proof {
                    assert forall|j: int| 0 <= j < self.chunks@.len() implies {
                        let c = #[trigger] self.chunks@[j];
                        &&& c.cells@.len() == 1024
                        &&& chunk_in_range(c.position)
                        &&& self.index@.contains_key(key_spec(c.position.x, c.position.y) as u64)
                        &&& self.index@[key_spec(c.position.x, c.position.y) as u64] == j
                    } by {
                        if j < i {
                            let c = old(self).chunks@[j];
                            lemma_key_injective(chunk.x, chunk.y, c.position.x, c.position.y);
                        }
                    }
                    assert forall|k2: u64| #[trigger] self.index@.contains_key(k2) implies self.index@[k2]
                        < self.chunks@.len() && key_spec(
                        self.chunks@[self.index@[k2] as int].position.x,
                        self.chunks@[self.index@[k2] as int].position.y,
                    ) == k2 by {
                        if k2 != k {
                            assert(old(self).index@.contains_key(k2));
                        }
                    }
                    assert forall|a: int, b: int|
                        0 <= a < self.chunks@.len() && 0 <= b < 1024 implies (
                    #[trigger] self.chunks@[a].cells@[b].monster matches Some(m) ==> m.position
                        == cell_position(self.chunks@[a].position, b) && m.wf()) by {
                        if a == i {
                            assert(self.chunks@[a].cells@[b]@ == generated_cell(
                                self.seed,
                                self.spawn,
                                self.first_dose,
                                cell_position(chunk, b),
                            ));
                        } else {
                            assert(self.chunks@[a] == old(self).chunks@[a]);
                        }
                    }
                    assert forall|p: Point| #[trigger] self.cell_at(p) == old(self).cell_at(p) by {
                        lemma_cell_of_point(p);
                        let c = chunk_of(p);
                        lemma_key_injective(chunk.x, chunk.y, c.x, c.y);
                        let kp = key_spec(c.x, c.y) as u64;
                        if c == chunk {
                            assert(self.chunks@[i as int].cells@[cell_index(p)]@ == generated_cell(
                                self.seed,
                                self.spawn,
                                self.first_dose,
                                cell_position(chunk, cell_index(p)),
                            ));
                        } else {
                            if old(self).index@.contains_key(kp) {
                                assert(self.chunks@[old(self).index@[kp] as int] == old(self).chunks@[old(self).index@[kp] as int]);
                            }
                        }
                    }
                    assert forall|other: Point| other != chunk implies self.loaded(other) == old(self).loaded(other) by {
                        lemma_key_injective(chunk.x, chunk.y, other.x, other.y);
                    }
                }
                i
            },
        }
    }

    /// Check whether the given position is within the bounds of the world.
    pub fn within_bounds(&self, pos: Point) -> (b: bool)
        requires
            self.wf(),
        ensures
            b == self.within_bounds_spec(pos),
    {
        pos.x < self.max_half_size && pos.x > -self.max_half_size && pos.y < self.max_half_size
            && pos.y > -self.max_half_size
    }

    /// Check whether the given position is walkable. Points outside of the
    /// world are not.
    pub fn walkable(&mut self, pos: Point, walkability: Walkability) -> (b: bool)
        requires
            old(self).wf(),
        ensures
            final(self).wf(),
            final(self).same_as(old(self)),
            final(self).made_within(old(self), pos),
            b == old(self).walkable_spec(pos, walkability),
    {
        if !self.within_bounds(pos) {
            return false;
        }
        let i = self.chunk_index(pos);
        let j = cell_index_of(pos);
        let cell = &self.chunks[i].cells[j];
        proof {
            assert(cell@ == self.cell_at(pos));
        }
        let open_ground = match cell.tile {
            TileKind::Empty => true,
            TileKind::Tree => false,
        };
        let free = match walkability {
            Walkability::WalkthroughMonsters => true,
            Walkability::BlockingMonsters => cell.monster.is_none(),
        };
        open_ground && free
    }

    /// The kind of the tile `pos`.
    pub fn tile(&mut self, pos: Point) -> (kind: TileKind)
        requires
            old(self).wf(),
        ensures
            final(self).wf(),
            final(self).same_as(old(self)),
            final(self).made_for(old(self), pos),
            kind == old(self).cell_at(pos).tile,
    {
        let i = self.chunk_index(pos);
        let j = cell_index_of(pos);
        proof {
            assert(self.chunks@[i as int].cells@[j as int]@ == self.cell_at(pos));
        }
        self.chunks[i].cells[j].tile
    }

    /// Whether the tile `pos` was seen already.
    pub fn explored(&mut self, pos: Point) -> (b: bool)
        requires
            old(self).wf(),
        ensures
            final(self).wf(),
            final(self).same_as(old(self)),
            final(self).made_for(old(self), pos),
            b == old(self).cell_at(pos).explored,
    {
        let i = self.chunk_index(pos);
        let j = cell_index_of(pos);
        proof {
            assert(self.chunks@[i as int].cells@[j as int]@ == self.cell_at(pos));
        }
        self.chunks[i].cells[j].explored
    }

    /// A copy of the items that lie on the tile `pos`, the top one last.
    pub fn items(&mut self, pos: Point) -> (items: Vec<Item>)
        requires
            old(self).wf(),
        ensures
            final(self).wf(),
            final(self).same_as(old(self)),
            final(self).made_for(old(self), pos),
            items@ == old(self).cell_at(pos).items,
    {
        let i = self.chunk_index(pos);
        let j = cell_index_of(pos);
        proof {
            assert(self.chunks@[i as int].cells@[j as int]@ == self.cell_at(pos));
        }
        let source = &self.chunks[i].cells[j].items;
        let mut items: Vec<Item> = Vec::new();
        let mut n: usize = 0;
        while n < source.len()
            invariant
                n <= source@.len(),
                items@ == source@.take(n as int),
            decreases source@.len() - n,
        {
            items.push(source[n]);
            proof {
                assert(source@.take(n + 1) == source@.take(n as int).push(source@[n as int]));
            }
            n = n + 1;
        }
        proof {
            assert(source@.take(n as int) == source@);
        }
        items
    }

    /// Changing one tile of a chunk that was made changes that tile of the
    /// world and nothing else.
    proof fn lemma_one_cell_changed(&self, before: &World, i: int, j: int, pos: Point)
        requires
            before.wf(),
            self.seed == before.seed,
            self.max_half_size == before.max_half_size,
            self.spawn == before.spawn,
            self.first_dose == before.first_dose,
            self.index@ == before.index@,
            self.chunks@.len() == before.chunks@.len(),
            0 <= i < before.chunks@.len(),
            0 <= j < 1024,
            before.chunks@[i].position == chunk_of(pos),
            j == cell_index(pos),
            forall|a: int|
                0 <= a < self.chunks@.len() ==> (#[trigger] self.chunks@[a]).position
                    == before.chunks@[a].position && self.chunks@[a].cells@.len() == 1024,
            forall|a: int, b: int|
                0 <= a < self.chunks@.len() && 0 <= b < 1024 && !(a == i && b == j)
                    ==> #[trigger] self.chunks@[a].cells@[b] == before.chunks@[a].cells@[b],
            self.chunks@[i].cells@[j].monster matches Some(m) ==> m.position == pos && m.wf(),
        ensures
            self.wf(),
            self.same_but_at(before, pos, self.chunks@[i].cells@[j]@),
            forall|chunk: Point| self.loaded(chunk) == before.loaded(chunk),
    {
        lemma_cell_of_point(pos);
        assert forall|a: int| 0 <= a < self.chunks@.len() implies {
            let c = #[trigger] self.chunks@[a];
            &&& c.cells@.len() == 1024
            &&& chunk_in_range(c.position)
            &&& self.index@.contains_key(key_spec(c.position.x, c.position.y) as u64)
            &&& self.index@[key_spec(c.position.x, c.position.y) as u64] == a
        } by {
            let c = before.chunks@[a];
        }
        assert forall|k2: u64| #[trigger] self.index@.contains_key(k2) implies self.index@[k2]
            < self.chunks@.len() && key_spec(
            self.chunks@[self.index@[k2] as int].position.x,
            self.chunks@[self.index@[k2] as int].position.y,
        ) == k2 by {
            assert(before.index@.contains_key(k2));
        }
        assert forall|a: int, b: int| 0 <= a < self.chunks@.len() && 0 <= b < 1024 implies (
        #[trigger] self.chunks@[a].cells@[b].monster matches Some(m) ==> m.position
            == cell_position(self.chunks@[a].position, b) && m.wf()) by {
            if a == i && b == j {
            } else {
                assert(self.chunks@[a].cells@[b] == before.chunks@[a].cells@[b]);
            }
        }
        assert forall|p: Point|
            #![trigger self.cell_at(p)]
            self.cell_at(p) == if p == pos {
                self.chunks@[i].cells@[j]@
            } else {
                before.cell_at(p)
            } by {
            lemma_cell_of_point(p);
            let c = chunk_of(p);
            let kp = key_spec(c.x, c.y) as u64;
            let kpos = key_spec(chunk_of(pos).x, chunk_of(pos).y) as u64;
            assert(before.index@.contains_key(kpos) && before.index@[kpos] == i);
            if before.index@.contains_key(kp) {
                let a = before.index@[kp] as int;
                if a == i {
                    lemma_key_injective(c.x, c.y, chunk_of(pos).x, chunk_of(pos).y);
                    if cell_index(p) != j {
                        assert(self.chunks@[a].cells@[cell_index(p)] == before.chunks@[a].cells@[cell_index(
                            p,
                        )]);
                    }
                } else {
                    assert(self.chunks@[a].cells@[cell_index(p)] == before.chunks@[a].cells@[cell_index(
                        p,
                    )]);
                }
            }
        }
    }

    /// Two changes in a row, each to one tile, seen from the start.
    proof fn lemma_same_then_changed(&self, mid: &World, before: &World, pos: Point, cell: CellView)
        requires
            mid.same_as(before),
            self.same_but_at(mid, pos, cell),
        ensures
            self.same_but_at(before, pos, cell),
    {
        assert forall|p: Point|
            #![trigger self.cell_at(p)]
            self.cell_at(p) == if p == pos {
                cell
            } else {
                before.cell_at(p)
            } by {
            assert(mid.cell_at(p) == before.cell_at(p));
        }
    }

    /// Change the tile on the given position. If the position is not within
    /// bounds, nothing happens.
    pub fn set_tile(&mut self, pos: Point, tile: TileKind)
        requires
            old(self).wf(),
        ensures
            final(self).wf(),
            final(self).made_within(old(self), pos),
            old(self).within_bounds_spec(pos) ==> final(self).same_but_at(
                old(self),
                pos,
                CellView { tile, ..old(self).cell_at(pos) },
            ),
            !old(self).within_bounds_spec(pos) ==> final(self).same_as(old(self)),
    {
        if self.within_bounds(pos) {
            proof {
                old(self).lemma_monsters_know_their_place(pos);
            }
            let i = self.chunk_index(pos);
            let j = cell_index_of(pos);
            let ghost mid = *self;
            proof {
                assert(mid.chunks@[i as int].cells@[j as int]@ == mid.cell_at(pos));
            }
            self.chunks[i].cells[j].tile = tile;
            proof {
                self.lemma_one_cell_changed(&mid, i as int, j as int, pos);
                self.lemma_same_then_changed(
                    &mid,
                    old(self),
                    pos,
                    CellView { tile, ..old(self).cell_at(pos) },
                );
            }
        }
    }

    /// Put an item on the tile at the given position, on top of what lies
    /// there. If the position is not within bounds, nothing happens.
    pub fn add_item(&mut self, pos: Point, item: Item)
        requires
            old(self).wf(),
        ensures
            final(self).wf(),
            final(self).made_within(old(self), pos),
            old(self).within_bounds_spec(pos) ==> final(self).same_but_at(
                old(self),
                pos,
                CellView { items: old(self).cell_at(pos).items.push(item), ..old(self).cell_at(pos) },
            ),
            !old(self).within_bounds_spec(pos) ==> final(self).same_as(old(self)),
    {
        if self.within_bounds(pos) {
            proof {
                old(self).lemma_monsters_know_their_place(pos);
            }
            let i = self.chunk_index(pos);
            let j = cell_index_of(pos);
            let ghost mid = *self;
            proof {
                assert(mid.chunks@[i as int].cells@[j as int]@ == mid.cell_at(pos));
            }
            self.chunks[i].cells[j].items.push(item);
            proof {
                self.lemma_one_cell_changed(&mid, i as int, j as int, pos);
                self.lemma_same_then_changed(
                    &mid,
                    old(self),
                    pos,
                    CellView {
                        items: old(self).cell_at(pos).items.push(item),
                        ..old(self).cell_at(pos)
                    },
                );
            }
        }
    }

    /// Pick up the top item stacked on the tile. If the position is not
    /// within bounds or nothing lies there, nothing happens.
    pub fn pickup_item(&mut self, pos: Point) -> (item: Option<Item>)
        requires
            old(self).wf(),
        ensures
            final(self).wf(),
            final(self).made_within(old(self), pos),
            item is Some <==> (old(self).within_bounds_spec(pos) && old(self).cell_at(
                pos,
            ).items.len() > 0),
            item matches Some(found) ==> found == old(self).cell_at(pos).items.last()
                && final(self).same_but_at(
                old(self),
                pos,
                CellView {
                    items: old(self).cell_at(pos).items.drop_last(),
                    ..old(self).cell_at(pos)
                },
            ),
            item is None ==> final(self).same_as(old(self)),
    {
        if self.within_bounds(pos) {
            proof {
                old(self).lemma_monsters_know_their_place(pos);
            }
            let i = self.chunk_index(pos);
            let j = cell_index_of(pos);
            let ghost mid = *self;
            proof {
                assert(mid.chunks@[i as int].cells@[j as int]@ == mid.cell_at(pos));
            }
            if self.chunks[i].cells[j].items.len() == 0 {
                return None;
            }
            let item = self.chunks[i].cells[j].items.pop();
            proof {
                self.lemma_one_cell_changed(&mid, i as int, j as int, pos);
                self.lemma_same_then_changed(
                    &mid,
                    old(self),
                    pos,
                    CellView {
                        items: old(self).cell_at(pos).items.drop_last(),
                        ..old(self).cell_at(pos)
                    },
                );
            }
            item
        } else {
            None
        }
    }

    /// If there's a monster at the given tile, return it. `None` if there is
    /// no monster or if `pos` is out of bounds.
    pub fn monster_on_pos(&mut self, pos: Point) -> (monster: Option<Monster>)
        requires
            old(self).wf(),
        ensures
            final(self).wf(),
            final(self).same_as(old(self)),
            final(self).made_within(old(self), pos),
            monster == old(self).monster_at(pos),
            monster matches Some(m) ==> m.position == pos && m.wf(),
    {
        if self.within_bounds(pos) {
            proof {
                old(self).lemma_monsters_know_their_place(pos);
            }
            let i = self.chunk_index(pos);
            let j = cell_index_of(pos);
            proof {
                assert(self.chunks@[i as int].cells@[j as int]@ == self.cell_at(pos));
            }
            self.chunks[i].cells[j].monster
        } else {
            None
        }
    }

    /// Puts `monster` on the tile it says it stands on, in place of the
    /// monster that may stand there. If that tile is not within bounds,
    /// nothing happens.
    pub fn set_monster(&mut self, monster: Monster)
        requires
            old(self).wf(),
            monster.wf(),
        ensures
            final(self).wf(),
            final(self).made_within(old(self), monster.position),
            old(self).within_bounds_spec(monster.position) ==> final(self).same_but_at(
                old(self),
                monster.position,
                CellView { monster: Some(monster), ..old(self).cell_at(monster.position) },
            ),
            !old(self).within_bounds_spec(monster.position) ==> final(self).same_as(old(self)),
    {
        let pos = monster.position;
        if self.within_bounds(pos) {
            let i = self.chunk_index(pos);
            let j = cell_index_of(pos);
            let ghost mid = *self;
            proof {
                assert(mid.chunks@[i as int].cells@[j as int]@ == mid.cell_at(pos));
            }
            self.chunks[i].cells[j].monster = Some(monster);
            proof {
                self.lemma_one_cell_changed(&mid, i as int, j as int, pos);
                self.lemma_same_then_changed(
                    &mid,
                    old(self),
                    pos,
                    CellView { monster: Some(monster), ..old(self).cell_at(pos) },
                );
            }
        }
    }

    /// Takes the monster, if any, off the tile `pos`. If the position is
    /// not within bounds, nothing happens.
    pub fn remove_monster(&mut self, pos: Point)
        requires
            old(self).wf(),
        ensures
            final(self).wf(),
            final(self).made_within(old(self), pos),
            old(self).within_bounds_spec(pos) ==> final(self).same_but_at(
                old(self),
                pos,
                CellView { monster: None, ..old(self).cell_at(pos) },
            ),
            !old(self).within_bounds_spec(pos) ==> final(self).same_as(old(self)),
    {
        if self.within_bounds(pos) {
            let i = self.chunk_index(pos);
            let j = cell_index_of(pos);
            let ghost mid = *self;
            proof {
                assert(mid.chunks@[i as int].cells@[j as int]@ == mid.cell_at(pos));
            }
            self.chunks[i].cells[j].monster = None;
            proof {
                self.lemma_one_cell_changed(&mid, i as int, j as int, pos);
                self.lemma_same_then_changed(
                    &mid,
                    old(self),
                    pos,
                    CellView { monster: None, ..old(self).cell_at(pos) },
                );
            }
        }
    }

    /// Marks the tile `pos` as seen. If the position is not within bounds,
    /// nothing happens.
    pub fn explore_tile(&mut self, pos: Point)
        requires
            old(self).wf(),
        ensures
            final(self).wf(),
            final(self).made_within(old(self), pos),
            old(self).within_bounds_spec(pos) ==> final(self).same_but_at(
                old(self),
                pos,
                CellView { explored: true, ..old(self).cell_at(pos) },
            ),
            !old(self).within_bounds_spec(pos) ==> final(self).same_as(old(self)),
    {
        if self.within_bounds(pos) {
            proof {
                old(self).lemma_monsters_know_their_place(pos);
            }
            let i = self.chunk_index(pos);
            let j = cell_index_of(pos);
            let ghost mid = *self;
            proof {
                assert(mid.chunks@[i as int].cells@[j as int]@ == mid.cell_at(pos));
            }
            self.chunks[i].cells[j].explored = true;
            proof {
                self.lemma_one_cell_changed(&mid, i as int, j as int, pos);
                self.lemma_same_then_changed(
                    &mid,
                    old(self),
                    pos,
                    CellView { explored: true, ..old(self).cell_at(pos) },
                );
            }
        }
    }

    /// Moves the monster that stands on `from` to `dest`. The monster must
    /// be there, and no other monster may stand on `dest`.
    pub fn move_monster(&mut self, from: Point, dest: Point)
        requires
            old(self).wf(),
            old(self).within_bounds_spec(from),
            old(self).within_bounds_spec(dest),
            old(self).cell_at(from).monster is Some,
            from != dest ==> old(self).cell_at(dest).monster is None,
        ensures
            final(self).wf(),
            final(self).made_for_all(
                old(self),
                if from == dest {
                    Set::empty()
                } else {
                    set![from, dest]
                },
            ),
            final(self).settings() == old(self).settings(),
            final(self).first_dose() == old(self).first_dose(),
            forall|p: Point|
                #![trigger final(self).cell_at(p)]
                final(self).cell_at(p) == old(self).moved(from, dest).cell(p),
    {
        if from.x == dest.x && from.y == dest.y {
            proof {
                old(self).lemma_monsters_know_their_place(from);
                self.lemma_no_tiles_yet();
            }
            return ;
        }
        match self.monster_on_pos(from) {
            Some(m) => {
                let ghost w1 = *self;
                self.remove_monster(from);
                let ghost w2 = *self;
                let mut moved = m;
                moved.position = dest;
                self.set_monster(moved);
                proof {
                    let none = Set::<Point>::empty();
                    old(self).lemma_no_tiles_yet();
                    w1.lemma_one_more_tile(old(self), old(self), none, from);
                    w2.lemma_one_more_tile(&w1, old(self), none.insert(from), from);
                    assert(none.insert(from).insert(from) =~= none.insert(from));
                    self.lemma_one_more_tile(&w2, old(self), none.insert(from), dest);
                    assert(none.insert(from).insert(dest) =~= set![from, dest]);
                    assert forall|p: Point|
                        #![trigger self.cell_at(p)]
                        self.cell_at(p) == old(self).moved(from, dest).cell(p) by {
                        assert(w1.cell_at(p) == old(self).cell_at(p));
                        assert(w2.cell_at(p) == if p == from {
                            CellView { monster: None, ..w1.cell_at(p) }
                        } else {
                            w1.cell_at(p)
                        });
                    }
                }
            },
            None => {},
        }
    }

    /// The world after the monster on `from` has moved to `dest`.
    pub open spec fn moved(&self, from: Point, dest: Point) -> WorldCells {
        WorldCells {
            cell: |p: Point|
                if from == dest {
                    self.cell_at(p)
                } else if p == from {
                    CellView { monster: None, ..self.cell_at(p) }
                } else if p == dest {
                    CellView {
                        monster: Some(
                            Monster { position: dest, ..self.cell_at(from).monster->0 },
                        ),
                        ..self.cell_at(p)
                    }
                } else {
                    self.cell_at(p)
                },
        }
    }

    /// Marks every tile within the world that lies strictly closer than
    /// `radius` to `pos` as seen.
    pub fn explore(&mut self, pos: Point, radius: i32)
        requires
            old(self).wf(),
            radius >= 0,
            i32::MIN <= pos.x - radius,
            pos.x + radius <= i32::MAX,
            i32::MIN <= pos.y - radius,
            pos.y + radius <= i32::MAX,
        ensures
            final(self).wf(),
            final(self).made_for_all(old(self), circle_tiles(pos, radius as int)),
            final(self).settings() == old(self).settings(),
            final(self).first_dose() == old(self).first_dose(),
            forall|p: Point|
                #![trigger final(self).cell_at(p)]
                final(self).cell_at(p) == if old(self).within_bounds_spec(p) && closer_than(
                    pos,
                    radius as int,
                )(p) {
                    CellView { explored: true, ..old(self).cell_at(p) }
                } else {
                    old(self).cell_at(p)
                },
    {
        let mut area = SquareArea::new(pos, radius);
        let ghost all = square_points(pos, radius as int);
        let ghost mut seen: Seq<Point> = Seq::empty();
        proof {
            assert(seen + area.remaining() == all);
            assert(seen.to_set().intersect(circle_tiles(pos, radius as int))
                =~= Set::<Point>::empty());
            self.lemma_no_tiles_yet();
        }
        loop
            invariant
                self.wf(),
                self.made_for_all(
                    old(self),
                    seen.to_set().intersect(circle_tiles(pos, radius as int)),
                ),
                self.settings() == old(self).settings(),
                self.first_dose() == old(self).first_dose(),
                seen + area.remaining() == all,
                forall|p: Point|
                    #![trigger self.cell_at(p)]
                    self.cell_at(p) == if old(self).within_bounds_spec(p) && closer_than(
                        pos,
                        radius as int,
                    )(p) && seen.contains(p) {
                        CellView { explored: true, ..old(self).cell_at(p) }
                    } else {
                        old(self).cell_at(p)
                    },
            ensures
                seen == all,
            decreases area.remaining().len(),
        {
            let ghost before = *self;
            let ghost seen_before = seen;
            match area.next() {
                None => {
                    proof {
                        assert(seen + Seq::<Point>::empty() == seen);
                    }
                    break ;
                },
                Some(p) => {
                    if p.within_radius(pos, radius) {
                        self.explore_tile(p);
                    }
                    proof {
                        let circle = circle_tiles(pos, radius as int);
                        lemma_seen_one_more(seen, p);
                        if circle.contains(p) {
                            self.lemma_one_more_tile(
                                &before,
                                old(self),
                                seen.to_set().intersect(circle),
                                p,
                            );
                            assert(seen.to_set().intersect(circle).insert(p) =~= seen.push(
                                p,
                            ).to_set().intersect(circle));
                        } else {
                            self.lemma_no_more_tiles(
                                &before,
                                old(self),
                                seen.to_set().intersect(circle),
                            );
                            assert(seen.to_set().intersect(circle) =~= seen.push(
                                p,
                            ).to_set().intersect(circle));
                        }
                        seen = seen.push(p);
                        assert(seen_before.push(p) + area.remaining() == seen_before + (seq![p]
                            + area.remaining()));
                        assert(seen[seen_before.len() as int] == p);
                        assert forall|q: Point|
                            #![trigger self.cell_at(q)]
                            self.cell_at(q) == if old(self).within_bounds_spec(q) && closer_than(
                                pos,
                                radius as int,
                            )(q) && seen.contains(q) {
                                CellView { explored: true, ..old(self).cell_at(q) }
                            } else {
                                old(self).cell_at(q)
                            } by {
                            assert(before.cell_at(q) == if old(self).within_bounds_spec(q)
                                && closer_than(pos, radius as int)(q) && seen_before.contains(q) {
                                CellView { explored: true, ..old(self).cell_at(q) }
                            } else {
                                old(self).cell_at(q)
                            });
                            if q != p {
                                if seen.contains(q) {
                                    let a = choose|a: int| 0 <= a < seen.len() && seen[a] == q;
                                    assert(seen_before[a] == q);
                                }
                                if seen_before.contains(q) {
                                    let a = choose|a: int|
                                        0 <= a < seen_before.len() && seen_before[a] == q;
                                    assert(seen[a] == q);
                                }
                            }
                        }
                    }
                },
            }
        }
        proof {
            assert forall|p: Point|
                #![trigger self.cell_at(p)]
                self.cell_at(p) == if old(self).within_bounds_spec(p) && closer_than(
                    pos,
                    radius as int,
                )(p) {
                    CellView { explored: true, ..old(self).cell_at(p) }
                } else {
                    old(self).cell_at(p)
                } by {
                lemma_square_points_contains(pos, radius, p);
                if closer_than(pos, radius as int)(p) {
                    lemma_closer_is_inside_square(pos, radius as int, p);
                }
            }
            assert(all.to_set().intersect(circle_tiles(pos, radius as int)) =~= circle_tiles(
                pos,
                radius as int,
            )) by {
                assert forall|q: Point| closer_than(pos, radius as int)(q) implies all.contains(
                    q,
                ) by {
                    lemma_square_points_contains(pos, radius, q);
                    lemma_closer_is_inside_square(pos, radius as int, q);
                }
            }
        }
    }

    /// What the tile `pos` shows: its kind, whether it was seen, and what
    /// lies on it.
    fn shown(&mut self, pos: Point) -> (entry: (Point, TileKind, bool, Vec<Item>))
        requires
            old(self).wf(),
        ensures
            final(self).wf(),
            final(self).same_as(old(self)),
            final(self).made_for(old(self), pos),
            shows(*old(self), entry, pos),
    {
        let ghost w0 = *self;
        let kind = self.tile(pos);
        let ghost w1 = *self;
        let seen = self.explored(pos);
        let ghost w2 = *self;
        let items = self.items(pos);
        proof {
            assert(w1.cell_at(pos) == w0.cell_at(pos));
            assert(w2.cell_at(pos) == w1.cell_at(pos));
            assert forall|chunk: Point| #[trigger]
                self.loaded(chunk) == (w0.loaded(chunk) || chunk == chunk_of(pos)) by {
                assert(w1.loaded(chunk) == (w0.loaded(chunk) || chunk == chunk_of(pos)));
                assert(w2.loaded(chunk) == (w1.loaded(chunk) || chunk == chunk_of(pos)));
            }
        }
        (pos, kind, seen, items)
    }

    /// What the tiles of a rectangle show, row by row from its top left
    /// corner `top_left`: for each tile its place, its kind, whether it
    /// was seen, and what lies on it, the top item last. `size` holds the
    /// number of columns and the number of rows.
    pub fn cells(&mut self, top_left: Point, size: Point) -> (cells: Vec<
        (Point, TileKind, bool, Vec<Item>),
    >)
        requires
            old(self).wf(),
            0 <= size.x,
            0 <= size.y,
            top_left.x + size.x <= i32::MAX,
            top_left.y + size.y <= i32::MAX,
        ensures
            final(self).wf(),
            final(self).same_as(old(self)),
            final(self).made_over(
                old(self),
                rectangle_points(top_left, size.x as nat, size.y as nat).to_set(),
            ),
            cells@.len() == rectangle_points(top_left, size.x as nat, size.y as nat).len(),
            forall|i: int|
                0 <= i < cells@.len() ==> shows(
                    *old(self),
                    #[trigger] cells@[i],
                    rectangle_points(top_left, size.x as nat, size.y as nat)[i],
                ),
    {
        let mut cells: Vec<(Point, TileKind, bool, Vec<Item>)> = Vec::new();
        let ghost mut points: Seq<Point> = Seq::empty();
        let mut row: i32 = 0;
        proof {
            assert(points.to_set() =~= Set::<Point>::empty());
        }
        while row < size.y
            invariant
                self.wf(),
                self.same_as(old(self)),
                0 <= row <= size.y,
                0 <= size.x,
                top_left.x + size.x <= i32::MAX,
                top_left.y + size.y <= i32::MAX,
                points == rectangle_points(top_left, size.x as nat, row as nat),
                self.made_over(old(self), points.to_set()),
                cells@.len() == points.len(),
                forall|i: int|
                    0 <= i < cells@.len() ==> shows(*old(self), #[trigger] cells@[i], points[i]),
            decreases size.y - row,
        {
            let left = Point { x: top_left.x, y: top_left.y + row };
            let ghost above = points;
            let mut column: i32 = 0;
            proof {
                assert(above + row_points(left, 0) =~= above);
            }
            while column < size.x
                invariant
                    self.wf(),
                    self.same_as(old(self)),
                    0 <= column <= size.x,
                    top_left.x + size.x <= i32::MAX,
                    left == (Point { x: top_left.x, y: (top_left.y + row) as i32 }),
                    points == above + row_points(left, column as nat),
                    self.made_over(old(self), points.to_set()),
                    cells@.len() == points.len(),
                    forall|i: int|
                        0 <= i < cells@.len() ==> shows(
                            *old(self),
                            #[trigger] cells@[i],
                            points[i],
                        ),
                decreases size.x - column,
            {
                let p = Point { x: left.x + column, y: left.y };
                let ghost mid = *self;
                let ghost shown_before = cells@;
                let entry = self.shown(p);
                cells.push(entry);
                proof {
                    assert(mid.cell_at(p) == old(self).cell_at(p));
                    self.lemma_one_more_look(&mid, old(self), points.to_set(), p);
                    lemma_seen_one_more(points, p);
                    assert(row_points(left, (column + 1) as nat) =~= row_points(
                        left,
                        column as nat,
                    ).push(p));
                    assert(above + row_points(left, (column + 1) as nat) =~= points.push(p));
                    points = points.push(p);
                    assert forall|i: int| 0 <= i < cells@.len() implies shows(
                        *old(self),
                        #[trigger] cells@[i],
                        points[i],
                    ) by {
                        if i < shown_before.len() {
                            assert(cells@[i] == shown_before[i]);
                        }
                    }
                }
                column = column + 1;
            }
            row = row + 1;
        }
        cells
    }

    /// The monsters that stand within `half_side` steps of `center`, row by
    /// row.
    pub fn monsters_around(&mut self, center: Point, half_side: i32) -> (found: Vec<Monster>)
        requires
            old(self).wf(),
            half_side >= 0,
            i32::MIN <= center.x - half_side,
            center.x + half_side <= i32::MAX,
            i32::MIN <= center.y - half_side,
            center.y + half_side <= i32::MAX,
        ensures
            final(self).wf(),
            final(self).same_as(old(self)),
            final(self).made_for_all(old(self), square_tiles(center, half_side as int)),
            found@ == monsters_among(*old(self), square_points(center, half_side as int)),
            forall|i: int|
                0 <= i < found@.len() ==> (#[trigger] found@[i]).wf() && old(self).monster_at(
                    found@[i].position,
                ) == Some(found@[i]) && tile_distance_spec(found@[i].position, center)
                    <= half_side,
            forall|p: Point|
                tile_distance_spec(p, center) <= half_side && (#[trigger] old(self).monster_at(
                    p,
                )) is Some ==> found@.contains(old(self).monster_at(p)->0),
    {
        let mut area = SquareArea::new(center, half_side);
        let ghost all = square_points(center, half_side as int);
        let ghost mut seen: Seq<Point> = Seq::empty();
        let mut found: Vec<Monster> = Vec::new();
        proof {
            assert(seen + area.remaining() == all);
            assert(seen.to_set() =~= Set::<Point>::empty());
            self.lemma_no_tiles_yet();
        }
        loop
            invariant
                self.wf(),
                self.made_for_all(old(self), seen.to_set()),
                self.same_as(old(self)),
                seen + area.remaining() == all,
                found@ == monsters_among(*old(self), seen),
                forall|i: int|
                    0 <= i < found@.len() ==> (#[trigger] found@[i]).wf() && old(self).monster_at(
                        found@[i].position,
                    ) == Some(found@[i]) && all.contains(found@[i].position),
                forall|q: Point|
                    seen.contains(q) && (#[trigger] old(self).monster_at(q)) is Some
                        ==> found@.contains(old(self).monster_at(q)->0),
            ensures
                seen == all,
            decreases area.remaining().len(),
        {
            let ghost seen_before = seen;
            let ghost mid = *self;
            match area.next() {
                None => {
                    proof {
                        assert(seen + Seq::<Point>::empty() == seen);
                    }
                    break ;
                },
                Some(p) => {
                    let monster = self.monster_on_pos(p);
                    proof {
                        self.lemma_one_more_tile(&mid, old(self), seen.to_set(), p);
                        lemma_seen_one_more(seen, p);
                        seen = seen.push(p);
                        assert(seen_before.push(p) + area.remaining() == seen_before + (seq![p]
                            + area.remaining()));
                        assert(seen.drop_last() == seen_before);
                        assert(mid.cell_at(p) == old(self).cell_at(p));
                        assert(monster == old(self).monster_at(p));
                        assert(all[seen_before.len() as int] == p);
                    }
                    let ghost found_before = found@;
                    match monster {
                        Some(m) => {
                            found.push(m);
                            proof {
                                assert(found@[found_before.len() as int] == m);
                            }
                        },
                        None => {},
                    }
                    proof {
                        assert forall|q: Point|
                            seen.contains(q) && (#[trigger] old(self).monster_at(q)) is Some implies found@.contains(
                            old(self).monster_at(q)->0,
                        ) by {
                            if q != p {
                                let a = choose|a: int| 0 <= a < seen.len() && seen[a] == q;
                                assert(seen_before[a] == q);
                                assert(found_before.contains(old(self).monster_at(q)->0));
                                let b = choose|b: int|
                                    0 <= b < found_before.len() && found_before[b] == old(self).monster_at(q)->0;
                                assert(found@[b] == found_before[b]);
                            }
                        }
                    }
                },
            }
        }
        proof {
            assert(all.to_set() =~= square_tiles(center, half_side as int)) by {
                assert forall|q: Point|
                    all.contains(q) <==> tile_distance_spec(q, center) <= half_side by {
                    lemma_square_points_contains(center, half_side, q);
                }
            }
            assert forall|i: int| 0 <= i < found@.len() implies tile_distance_spec(
                (#[trigger] found@[i]).position,
                center,
            ) <= half_side by {
                lemma_square_points_contains(center, half_side, found@[i].position);
            }
            assert forall|p: Point|
                tile_distance_spec(p, center) <= half_side && (#[trigger] old(self).monster_at(
                    p,
                )) is Some implies found@.contains(old(self).monster_at(p)->0) by {
                lemma_square_points_contains(center, half_side, p);
            }
        }
        found
    }

    /// The tiles next to `pos` that one can step on and on which the player
    /// does not stand, in the order north, south, west, east, north-west,
    /// north-east, south-west, south-east.
    pub fn open_neighbours(&mut self, pos: Point, walkability: Walkability, player: Point) -> (found:
        Vec<Point>)
        requires
            old(self).wf(),
        ensures
            final(self).wf(),
            final(self).same_as(old(self)),
            final(self).made_for_all(old(self), neighbour_tiles(pos)),
            found@ == open_among(*old(self), neighbours(pos), walkability, player),
            found@.len() <= 8,
    {
        let mut found: Vec<Point> = Vec::new();
        let mut k: usize = 0;
        let ghost all = neighbours(pos);
        let ghost mut looked: Set<Point> = Set::empty();
        proof {
            self.lemma_no_tiles_yet();
        }
        while k < 8
            invariant
                self.wf(),
                self.made_for_all(old(self), looked),
                forall|q: Point|
                    looked.contains(q) <==> #[trigger] all.take(k as int).contains(Some(q)),
                self.same_as(old(self)),
                k <= 8,
                all == neighbours(pos),
                found@ == open_among(*old(self), all.take(k as int), walkability, player),
                found@.len() <= k,
            decreases 8 - k,
        {
            let (dx, dy) = neighbour_offset(k);
            let ghost mid = *self;
            let ghost prefix = all.take(k as int);
            proof {
                assert(all.take(k + 1).drop_last() == prefix);
                assert(all.take(k + 1).last() == all[k as int]);
            }
            proof {
                assert forall|q: Point| #[trigger]
                    all.take(k + 1).contains(Some(q)) <==> (prefix.contains(Some(q)) || all[k as int]
                        == Some(q)) by {
                    let longer = all.take(k + 1);
                    assert(longer[k as int] == all[k as int]);
                    if longer.contains(Some(q)) {
                        let a = choose|a: int| 0 <= a < longer.len() && longer[a] == Some(q);
                        if a < k {
                            assert(prefix[a] == Some(q));
                        }
                    }
                    if prefix.contains(Some(q)) {
                        let a = choose|a: int| 0 <= a < prefix.len() && prefix[a] == Some(q);
                        assert(longer[a] == Some(q));
                    }
                }
            }
            match pos.offset(dx, dy) {
                Some(p) => {
                    let ok = self.walkable(p, walkability);
                    proof {
                        self.lemma_one_more_tile(&mid, old(self), looked, p);
                        looked = looked.insert(p);
                        assert(mid.cell_at(p) == old(self).cell_at(p));
                        assert(ok == old(self).walkable_spec(p, walkability));
                    }
                    if ok && !(p.x == player.x && p.y == player.y) {
                        found.push(p);
                    }
                },
                None => {},
            }
            k = k + 1;
        }
        proof {
            assert(all.take(8) == all);
            assert(looked =~= neighbour_tiles(pos));
        }
        found
    }

    /// A tile next to `pos` that one can step on and on which the player
    /// does not stand, picked by the next number of `rng`; `pos` itself,
    /// with no number drawn, where there is no such tile.
    pub fn random_neighbour_position(
        &mut self,
        rng: &mut Random,
        pos: Point,
        walkability: Walkability,
        player: Point,
    ) -> (dest: Point)
        requires
            old(self).wf(),
        ensures
            final(self).wf(),
            final(self).same_as(old(self)),
            final(self).made_for_all(old(self), neighbour_tiles(pos)),
            dest == random_neighbour_spec(*old(self), *old(rng), pos, walkability, player),
            *final(rng) == if open_among(
                *old(self),
                neighbours(pos),
                walkability,
                player,
            ).len() == 0 {
                *old(rng)
            } else {
                old(rng).advanced()
            },
            dest == pos || (old(self).walkable_spec(dest, walkability) && dest != player
                && tile_distance_spec(dest, pos) == 1),
    {
        let open = self.open_neighbours(pos, walkability, player);
        if open.len() == 0 {
            pos
        } else {
            let pick = rng.range(0, open.len() as i32);
            proof {
                lemma_open_among(
                    *old(self),
                    neighbours(pos),
                    walkability,
                    player,
                    pick as int,
                );
                lemma_neighbours_are_adjacent(pos, open@[pick as int]);
            }
            open[pick as usize]
        }
    }

    /// A tile that one can step on, on which the player does not stand, and
    /// that lies between `nearest` and `farthest` steps from `start`: up to
    /// `tries` times two numbers of `rng` choose a tile no more than
    /// `farthest` steps away along each axis, and the first that fits is
    /// taken. `None` where none of them fits.
    pub fn random_position_in_range(
        &mut self,
        rng: &mut Random,
        start: Point,
        nearest: i32,
        farthest: i32,
        tries: u32,
        walkability: Walkability,
        player: Point,
    ) -> (dest: Option<Point>)
        requires
            old(self).wf(),
            0 <= nearest <= farthest < i32::MAX,
        ensures
            final(self).wf(),
            final(self).same_as(old(self)),
            final(self).made_for_all(
                old(self),
                tiles_tried(
                    *old(self),
                    *old(rng),
                    start,
                    nearest,
                    farthest,
                    tries as nat,
                    walkability,
                    player,
                ),
            ),
            dest == position_in_range_spec(
                *old(self),
                *old(rng),
                start,
                nearest,
                farthest,
                tries as nat,
                walkability,
                player,
            ).0,
            *final(rng) == position_in_range_spec(
                *old(self),
                *old(rng),
                start,
                nearest,
                farthest,
                tries as nat,
                walkability,
                player,
            ).1,
            dest matches Some(p) ==> old(self).walkable_spec(p, walkability) && p != player
                && nearest <= tile_distance_spec(p, start) <= farthest,
    {
        let mut left = tries;
        let ghost mut looked: Set<Point> = Set::empty();
        proof {
            self.lemma_no_tiles_yet();
            assert(looked.union(
                tiles_tried(
                    *old(self),
                    *rng,
                    start,
                    nearest,
                    farthest,
                    left as nat,
                    walkability,
                    player,
                ),
            ) =~= tiles_tried(
                *old(self),
                *old(rng),
                start,
                nearest,
                farthest,
                tries as nat,
                walkability,
                player,
            ));
        }
        while left > 0
            invariant
                self.wf(),
                self.made_for_all(old(self), looked),
                looked.union(
                    tiles_tried(
                        *old(self),
                        *rng,
                        start,
                        nearest,
                        farthest,
                        left as nat,
                        walkability,
                        player,
                    ),
                ) == tiles_tried(
                    *old(self),
                    *old(rng),
                    start,
                    nearest,
                    farthest,
                    tries as nat,
                    walkability,
                    player,
                ),
                self.same_as(old(self)),
                0 <= nearest <= farthest < i32::MAX,
                position_in_range_spec(
                    *old(self),
                    *rng,
                    start,
                    nearest,
                    farthest,
                    left as nat,
                    walkability,
                    player,
                ) == position_in_range_spec(
                    *old(self),
                    *old(rng),
                    start,
                    nearest,
                    farthest,
                    tries as nat,
                    walkability,
                    player,
                ),
            decreases left,
        {
            let ghost rng_before = *rng;
            let ghost mid = *self;
            let ghost looked_before = looked;
            let ghost rest_before = tiles_tried(
                *old(self),
                rng_before,
                start,
                nearest,
                farthest,
                left as nat,
                walkability,
                player,
            );
            let dx = rng.range(-farthest, farthest + 1);
            let dy = rng.range(-farthest, farthest + 1);
            let ghost rest = tiles_tried(
                *old(self),
                *rng,
                start,
                nearest,
                farthest,
                (left - 1) as nat,
                walkability,
                player,
            );
            match start.offset(dx, dy) {
                Some(p) => {
                    let far_enough = p.tile_distance(start) >= nearest as u32;
                    let ok = self.walkable(p, walkability);
                    proof {
                        assert(mid.cell_at(p) == old(self).cell_at(p));
                        self.lemma_one_more_tile(&mid, old(self), looked, p);
                        looked = looked.insert(p);
                    }
                    if far_enough && ok && !(p.x == player.x && p.y == player.y) {
                        proof {
                            assert(rest_before =~= set![p]);
                            assert(looked =~= looked_before.union(rest_before));
                        }
                        return Some(p);
                    }
                    proof {
                        assert(rest_before =~= set![p].union(rest));
                        assert(looked.union(rest) =~= looked_before.union(rest_before));
                    }
                },
                None => {
                    proof {
                        assert(rest_before =~= Set::<Point>::empty().union(rest));
                        assert(looked.union(rest) =~= looked_before.union(rest_before));
                    }
                },
            }
            left = left - 1;
        }
        proof {
            assert(looked.union(Set::<Point>::empty()) =~= looked);
        }
        None
    }

    /// The dose nearest to `pos` among the tiles within the world that are
    /// no more than `radius` steps away, and where it lies. Of two doses
    /// that are equally near, the one that comes first when the tiles are
    /// read row by row; of the doses on one tile, the topmost.
    pub fn nearest_dose(&mut self, pos: Point, radius: i32) -> (found: Option<(Point, Item)>)
        requires
            old(self).wf(),
            radius >= 0,
            i32::MIN <= pos.x - radius,
            pos.x + radius <= i32::MAX,
            i32::MIN <= pos.y - radius,
            pos.y + radius <= i32::MAX,
        ensures
            final(self).wf(),
            final(self).same_as(old(self)),
            final(self).made_for_all(old(self), square_tiles(pos, radius as int)),
            found == nearest_dose_among(*old(self), pos, square_points(pos, radius as int)),
            found matches Some((p, item)) ==> old(self).within_bounds_spec(p)
                && tile_distance_spec(p, pos) <= radius && old(self).cell_at(p).items.contains(item)
                && (item.kind == crate::item::Kind::Dose || item.kind
                == crate::item::Kind::StrongDose),
    {
        let mut area = SquareArea::new(pos, radius);
        let ghost all = square_points(pos, radius as int);
        let ghost mut seen: Seq<Point> = Seq::empty();
        let mut best: Option<(Point, Item)> = None;
        proof {
            assert(seen + area.remaining() == all);
            assert(seen.to_set() =~= Set::<Point>::empty());
            self.lemma_no_tiles_yet();
        }
        loop
            invariant
                self.wf(),
                self.made_for_all(old(self), seen.to_set()),
                self.same_as(old(self)),
                seen + area.remaining() == all,
                best == nearest_dose_among(*old(self), pos, seen),
                best matches Some((p, item)) ==> old(self).within_bounds_spec(p) && all.contains(p)
                    && old(self).cell_at(p).items.contains(item) && (item.kind
                    == crate::item::Kind::Dose || item.kind == crate::item::Kind::StrongDose),
            ensures
                seen == all,
            decreases area.remaining().len(),
        {
            let ghost seen_before = seen;
            let ghost mid = *self;
            match area.next() {
                None => {
                    proof {
                        assert(seen + Seq::<Point>::empty() == seen);
                    }
                    break ;
                },
                Some(p) => {
                    proof {
                        seen = seen.push(p);
                        assert(seen_before.push(p) + area.remaining() == seen_before + (seq![p]
                            + area.remaining()));
                        assert(seen.drop_last() == seen_before);
                        assert(all[seen_before.len() as int] == p);
                        lemma_seen_one_more(seen_before, p);
                        if !self.within_bounds_spec(p) {
                            self.lemma_one_more_tile(&mid, old(self), seen_before.to_set(), p);
                        }
                    }
                    if self.within_bounds(p) {
                        let items = self.items(p);
                        proof {
                            assert(mid.cell_at(p) == old(self).cell_at(p));
                            self.lemma_one_more_tile(&mid, old(self), seen_before.to_set(), p);
                        }
                        match top_dose(&items) {
                            Some(dose) => {
                                let nearer = match best {
                                    Some((q, _)) => p.tile_distance(pos) < q.tile_distance(pos),
                                    None => true,
                                };
                                if nearer {
                                    best = Some((p, dose));
                                }
                            },
                            None => {},
                        }
                    }
                },
            }
        }
        proof {
            match best {
                Some((p, _)) => {
                    lemma_square_points_contains(pos, radius, p);
                },
                None => {},
            }
            assert(all.to_set() =~= square_tiles(pos, radius as int)) by {
                assert forall|q: Point| all.contains(q) <==> tile_distance_spec(q, pos) <= radius by {
                    lemma_square_points_contains(pos, radius, q);
                }
            }
        }
        best
    }
}

/// What every tile of a world holds.
pub struct WorldCells {
    pub cell: spec_fn(Point) -> CellView,
}

impl WorldCells {
    pub open spec fn cell(self, p: Point) -> CellView {
        (self.cell)(p)
    }
}

/// A tile that lies strictly closer than `radius` along the straight line
/// is fewer than `radius` steps away.
pub proof fn lemma_closer_is_inside_square(center: Point, radius: int, p: Point)
    requires
        closer_than(center, radius)(p),
    ensures
        tile_distance_spec(p, center) < radius,
{
    let dx = p.x - center.x;
    let dy = p.y - center.y;
    assert(dx * dx + dy * dy < radius * radius);
    assert(dx * dx >= 0 && dy * dy >= 0) by (nonlinear_arith);
    assert(-radius < dx < radius) by (nonlinear_arith)
        requires
            dx * dx < radius * radius,
            radius > 0,
    ;
    assert(-radius < dy < radius) by (nonlinear_arith)
        requires
            dy * dy < radius * radius,
            radius > 0,
    ;
}

/// The tiles no more than `half_side` steps from `center`.
pub open spec fn square_tiles(center: Point, half_side: int) -> Set<Point> {
    Set::new(|q: Point| tile_distance_spec(q, center) <= half_side)
}

/// The tiles that lie strictly closer than `radius` to `center`.
pub open spec fn circle_tiles(center: Point, radius: int) -> Set<Point> {
    Set::new(|q: Point| closer_than(center, radius)(q))
}

/// The tiles next to `pos`.
pub open spec fn neighbour_tiles(pos: Point) -> Set<Point> {
    Set::new(|q: Point| neighbours(pos).contains(Some(q)))
}

/// The tiles seen so far, and one more.
proof fn lemma_seen_one_more(seen: Seq<Point>, p: Point)
    ensures
        seen.push(p).to_set() == seen.to_set().insert(p),
{
    let more = seen.push(p);
    assert(more[seen.len() as int] == p);
    assert forall|q: Point| more.contains(q) <==> (seen.contains(q) || q == p) by {
        if more.contains(q) {
            let a = choose|a: int| 0 <= a < more.len() && more[a] == q;
            if a < seen.len() {
                assert(seen[a] == q);
            }
        }
        if seen.contains(q) {
            let a = choose|a: int| 0 <= a < seen.len() && seen[a] == q;
            assert(more[a] == q);
        }
    }
    assert(more.to_set() =~= seen.to_set().insert(p));
}

/// The `width` tiles of a row from its left end `left` on.
pub open spec fn row_points(left: Point, width: nat) -> Seq<Point> {
    Seq::new(width, |i: int| Point { x: (left.x + i) as i32, y: left.y })
}

/// The tiles of the rectangle of `width` columns and `height` rows whose
/// top left corner is `top_left`, row by row.
pub open spec fn rectangle_points(top_left: Point, width: nat, height: nat) -> Seq<Point>
    decreases height,
{
    if height == 0 {
        Seq::empty()
    } else {
        rectangle_points(top_left, width, (height - 1) as nat) + row_points(
            Point { x: top_left.x, y: (top_left.y + height - 1) as i32 },
            width,
        )
    }
}

/// The entry `entry` shows the tile `p` of `world`: its place, its kind,
/// whether it was seen, and what lies on it.
pub open spec fn shows(world: World, entry: (Point, TileKind, bool, Vec<Item>), p: Point) -> bool {
    &&& entry.0 == p
    &&& entry.1 == world.cell_at(p).tile
    &&& entry.2 == world.cell_at(p).explored
    &&& entry.3@ == world.cell_at(p).items
}

/// The monsters that stand on the tiles `points`, in the order of the
/// tiles.
pub open spec fn monsters_among(world: World, points: Seq<Point>) -> Seq<Monster>
    decreases points.len(),
{
    if points.len() == 0 {
        Seq::empty()
    } else {
        let rest = monsters_among(world, points.drop_last());
        match world.monster_at(points.last()) {
            Some(m) => rest.push(m),
            None => rest,
        }
    }
}

/// The step to the `k`-th neighbour: north, south, west, east, north-west,
/// north-east, south-west, south-east.
pub open spec fn neighbour_offset_spec(k: int) -> (int, int) {
    if k == 0 {
        (0, -1)
    } else if k == 1 {
        (0, 1)
    } else if k == 2 {
        (-1, 0)
    } else if k == 3 {
        (1, 0)
    } else if k == 4 {
        (-1, -1)
    } else if k == 5 {
        (1, -1)
    } else if k == 6 {
        (-1, 1)
    } else {
        (1, 1)
    }
}

fn neighbour_offset(k: usize) -> (d: (i32, i32))
    requires
        k < 8,
    ensures
        d.0 == neighbour_offset_spec(k as int).0,
        d.1 == neighbour_offset_spec(k as int).1,
{
    if k == 0 {
        (0, -1)
    } else if k == 1 {
        (0, 1)
    } else if k == 2 {
        (-1, 0)
    } else if k == 3 {
        (1, 0)
    } else if k == 4 {
        (-1, -1)
    } else if k == 5 {
        (1, -1)
    } else if k == 6 {
        (-1, 1)
    } else {
        (1, 1)
    }
}

/// The `k`-th neighbour of `pos`, if its coordinates can be written down.
pub open spec fn neighbour(pos: Point, k: int) -> Option<Point> {
    let (dx, dy) = neighbour_offset_spec(k);
    if i32::MIN <= pos.x + dx <= i32::MAX && i32::MIN <= pos.y + dy <= i32::MAX {
        Some(Point { x: (pos.x + dx) as i32, y: (pos.y + dy) as i32 })
    } else {
        None
    }
}

/// The `k`-th neighbour of `pos`, if its coordinates can be written down.
pub fn nth_neighbour(pos: Point, k: usize) -> (found: Option<Point>)
    requires
        k < 8,
    ensures
        found == neighbour(pos, k as int),
{
    let (dx, dy) = neighbour_offset(k);
    pos.offset(dx, dy)
}

/// Every tile one step away is one of the eight neighbours.
pub proof fn lemma_adjacent_is_a_neighbour(pos: Point, p: Point)
    requires
        tile_distance_spec(p, pos) == 1,
    ensures
        exists|k: int| 0 <= k < 8 && #[trigger] neighbour(pos, k) == Some(p),
{
    let dx = p.x - pos.x;
    let dy = p.y - pos.y;
    let k: int = if dx == 0 && dy == -1 {
        0
    } else if dx == 0 && dy == 1 {
        1
    } else if dx == -1 && dy == 0 {
        2
    } else if dx == 1 && dy == 0 {
        3
    } else if dx == -1 && dy == -1 {
        4
    } else if dx == 1 && dy == -1 {
        5
    } else if dx == -1 && dy == 1 {
        6
    } else {
        7
    };
    assert(neighbour(pos, k) == Some(p));
}

/// The eight neighbours of `pos`, in their order.
pub open spec fn neighbours(pos: Point) -> Seq<Option<Point>> {
    Seq::new(8, |k: int| neighbour(pos, k))
}

/// Those of `points` that one can step on and on which the player does not
/// stand, in their order.
pub open spec fn open_among(
    world: World,
    points: Seq<Option<Point>>,
    walkability: Walkability,
    player: Point,
) -> Seq<Point>
    decreases points.len(),
{
    if points.len() == 0 {
        Seq::empty()
    } else {
        let rest = open_among(world, points.drop_last(), walkability, player);
        match points.last() {
            Some(p) => if world.walkable_spec(p, walkability) && p != player {
                rest.push(p)
            } else {
                rest
            },
            None => rest,
        }
    }
}

/// Every tile of `open_among` is one of the given tiles, can be stepped on
/// and is not the player's.
pub proof fn lemma_open_among(
    world: World,
    points: Seq<Option<Point>>,
    walkability: Walkability,
    player: Point,
    i: int,
)
    requires
        0 <= i < open_among(world, points, walkability, player).len(),
    ensures
        world.walkable_spec(open_among(world, points, walkability, player)[i], walkability),
        open_among(world, points, walkability, player)[i] != player,
        points.contains(Some(open_among(world, points, walkability, player)[i])),
    decreases points.len(),
{
    let rest = open_among(world, points.drop_last(), walkability, player);
    if i < rest.len() {
        lemma_open_among(world, points.drop_last(), walkability, player, i);
        let p = rest[i];
        let a = choose|a: int| 0 <= a < points.drop_last().len() && points.drop_last()[a] == Some(p);
        assert(points[a] == Some(p));
    } else {
        assert(points[points.len() - 1] == points.last());
    }
}

/// A neighbour is one step away.
pub proof fn lemma_neighbours_are_adjacent(pos: Point, p: Point)
    requires
        neighbours(pos).contains(Some(p)),
    ensures
        tile_distance_spec(p, pos) == 1,
{
    let k = choose|k: int| 0 <= k < 8 && neighbours(pos)[k] == Some(p);
    assert(neighbour(pos, k) == Some(p));
}

/// The tile that [`World::random_neighbour_position`] picks.
pub open spec fn random_neighbour_spec(
    world: World,
    rng: Random,
    pos: Point,
    walkability: Walkability,
    player: Point,
) -> Point {
    let open = open_among(world, neighbours(pos), walkability, player);
    if open.len() == 0 {
        pos
    } else {
        open[rng.peek_range(0, open.len() as i32) as int]
    }
}

/// Whether the try that draws the steps `dx` and `dy` fits, and the tile it
/// chooses.
pub open spec fn try_fits(
    world: World,
    start: Point,
    dx: i32,
    dy: i32,
    nearest: i32,
    walkability: Walkability,
    player: Point,
) -> Option<Point> {
    if i32::MIN <= start.x + dx <= i32::MAX && i32::MIN <= start.y + dy <= i32::MAX {
        let p = Point { x: (start.x + dx) as i32, y: (start.y + dy) as i32 };
        if tile_distance_spec(p, start) >= nearest && world.walkable_spec(p, walkability) && p
            != player {
            Some(p)
        } else {
            None
        }
    } else {
        None
    }
}

/// The tile that [`World::random_position_in_range`] picks, and the stream
/// of random numbers after it.
pub open spec fn position_in_range_spec(
    world: World,
    rng: Random,
    start: Point,
    nearest: i32,
    farthest: i32,
    tries: nat,
    walkability: Walkability,
    player: Point,
) -> (Option<Point>, Random)
    decreases tries,
{
    if tries == 0 {
        (None, rng)
    } else {
        let dx = rng.peek_range((-farthest) as i32, (farthest + 1) as i32);
        let dy = rng.advanced().peek_range((-farthest) as i32, (farthest + 1) as i32);
        let after = rng.advanced().advanced();
        match try_fits(world, start, dx, dy, nearest, walkability, player) {
            Some(p) => (Some(p), after),
            None => position_in_range_spec(
                world,
                after,
                start,
                nearest,
                farthest,
                (tries - 1) as nat,
                walkability,
                player,
            ),
        }
    }
}

/// The tiles that [`World::random_position_in_range`] looks at: the tile
/// of each try, up to the first that fits.
pub open spec fn tiles_tried(
    world: World,
    rng: Random,
    start: Point,
    nearest: i32,
    farthest: i32,
    tries: nat,
    walkability: Walkability,
    player: Point,
) -> Set<Point>
    decreases tries,
{
    if tries == 0 {
        Set::empty()
    } else {
        let dx = rng.peek_range((-farthest) as i32, (farthest + 1) as i32);
        let dy = rng.advanced().peek_range((-farthest) as i32, (farthest + 1) as i32);
        let after = rng.advanced().advanced();
        let here = if i32::MIN <= start.x + dx <= i32::MAX && i32::MIN <= start.y + dy
            <= i32::MAX {
            set![Point { x: (start.x + dx) as i32, y: (start.y + dy) as i32 }]
        } else {
            Set::empty()
        };
        match try_fits(world, start, dx, dy, nearest, walkability, player) {
            Some(_) => here,
            None => here.union(
                tiles_tried(
                    world,
                    after,
                    start,
                    nearest,
                    farthest,
                    (tries - 1) as nat,
                    walkability,
                    player,
                ),
            ),
        }
    }
}

/// The topmost dose among `items`.
pub open spec fn top_dose_spec(items: Seq<Item>) -> Option<Item>
    decreases items.len(),
{
    if items.len() == 0 {
        None
    } else if items.last().kind == crate::item::Kind::Dose || items.last().kind
        == crate::item::Kind::StrongDose {
        Some(items.last())
    } else {
        top_dose_spec(items.drop_last())
    }
}

/// The topmost dose among `items`, if there is one.
pub fn top_dose(items: &Vec<Item>) -> (found: Option<Item>)
    ensures
        found == top_dose_spec(items@),
        found matches Some(item) ==> items@.contains(item) && (item.kind
            == crate::item::Kind::Dose || item.kind == crate::item::Kind::StrongDose),
{
    let mut n: usize = items.len();
    proof {
        assert(items@.take(n as int) == items@);
    }
    while n > 0
        invariant
            n <= items@.len(),
            top_dose_spec(items@) == top_dose_spec(items@.take(n as int)),
        decreases n,
    {
        let ghost prefix = items@.take(n as int);
        proof {
            assert(prefix.last() == items@[n - 1]);
            assert(prefix.drop_last() == items@.take(n - 1));
        }
        if items[n - 1].is_dose() {
            return Some(items[n - 1]);
        }
        n = n - 1;
    }
    proof {
        assert(items@.take(0).len() == 0);
    }
    None
}

/// The nearest dose to `pos` among the tiles `points`, as
/// [`World::nearest_dose`] finds it.
pub open spec fn nearest_dose_among(world: World, pos: Point, points: Seq<Point>) -> Option<
    (Point, Item),
>
    decreases points.len(),
{
    if points.len() == 0 {
        None
    } else {
        let best = nearest_dose_among(world, pos, points.drop_last());
        let p = points.last();
        if world.within_bounds_spec(p) {
            match top_dose_spec(world.cell_at(p).items) {
                Some(dose) => match best {
                    Some((q, _)) => if tile_distance_spec(p, pos) < tile_distance_spec(q, pos) {
                        Some((p, dose))
                    } else {
                        best
                    },
                    None => Some((p, dose)),
                },
                None => best,
            }
        } else {
            best
        }
    }
}

/// Worlds that hold the same have the same nearest dose.
pub proof fn lemma_same_world_same_dose(a: World, b: World, pos: Point, points: Seq<Point>)
    requires
        a.same_as(&b),
    ensures
        nearest_dose_among(a, pos, points) == nearest_dose_among(b, pos, points),
    decreases points.len(),
{
    if points.len() > 0 {
        lemma_same_world_same_dose(a, b, pos, points.drop_last());
        assert(a.cell_at(points.last()) == b.cell_at(points.last()));
    }
}

/// Worlds that hold the same have the same monsters.
pub proof fn lemma_same_world_same_monsters(a: World, b: World, points: Seq<Point>)
    requires
        a.same_as(&b),
    ensures
        monsters_among(a, points) == monsters_among(b, points),
    decreases points.len(),
{
    if points.len() > 0 {
        lemma_same_world_same_monsters(a, b, points.drop_last());
        assert(a.cell_at(points.last()) == b.cell_at(points.last()));
    }
}

/// The dose nearest to `pos` in `world`: see [`World::nearest_dose`].
pub fn nearest_dose(world: &mut World, pos: Point, radius: i32) -> (found: Option<(Point, Item)>)
    requires
        old(world).wf(),
        radius >= 0,
        i32::MIN <= pos.x - radius,
        pos.x + radius <= i32::MAX,
        i32::MIN <= pos.y - radius,
        pos.y + radius <= i32::MAX,
    ensures
        final(world).wf(),
        final(world).same_as(old(world)),
        final(world).made_for_all(old(world), square_tiles(pos, radius as int)),
        found == nearest_dose_among(*old(world), pos, square_points(pos, radius as int)),
{
    world.nearest_dose(pos, radius)
}

/// A free tile next to `pos` in `world`: see
/// [`World::random_neighbour_position`].
pub fn random_neighbour_position(
    world: &mut World,
    rng: &mut Random,
    pos: Point,
    walkability: Walkability,
    player: Point,
) -> (dest: Point)
    requires
        old(world).wf(),
    ensures
        final(world).wf(),
        final(world).same_as(old(world)),
        final(world).made_for_all(old(world), neighbour_tiles(pos)),
        dest == random_neighbour_spec(*old(world), *old(rng), pos, walkability, player),
        *final(rng) == if open_among(*old(world), neighbours(pos), walkability, player).len()
            == 0 {
            *old(rng)
        } else {
            old(rng).advanced()
        },
{
    world.random_neighbour_position(rng, pos, walkability, player)
}

} // verus!
