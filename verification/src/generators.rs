//! What the world holds before anyone has touched it.
//!
//! The world is cut into square chunks. What a tile of a chunk holds at
//! first is decided by numbers drawn at a place that the world seed, the
//! chunk and the tile give, so every chunk can be made on its own, at any
//! time, and always comes out the same.
//!
//! Tiles are ground or trees. Monsters and items are scattered on the ground
//! only. Near the spot where the player enters the world there are no
//! monsters and no strong doses, and nothing lies there that the player
//! cannot walk to. One dose lies within a few steps of the entry, or on it.

use crate::item;
use crate::monster;
use crate::pathfinding::{before_step, step_ok, valid_path, Grid, Path};
use crate::point::{
    adjacent, lemma_square_points_contains, square_points, tile_distance_spec, Point, SquareArea,
};
use crate::random::{
    draw, isaac_range, STREAM_FIRST_DOSE, STREAM_ITEMS, STREAM_MONSTERS, STREAM_TILES,
};
use vstd::prelude::*;

verus! {

/// The side of a chunk, in tiles.
pub const CHUNK_SIZE: i32 = 32;

/// The number of tiles of a chunk.
pub const CHUNK_CELLS: usize = 1024;

/// No monster spawns closer to the player's entry than this.
pub const SAFE_DISTANCE: u32 = 6;

/// The coordinates the world can hold lie strictly between `-WORLD_LIMIT`
/// and `WORLD_LIMIT`.
pub const WORLD_LIMIT: i32 = 0x4000_0000;

#[derive(Clone, Copy, Debug, PartialEq, Eq, Structural)]
pub enum TileKind {
    Empty,
    Tree,
}

/// The chunk that holds the tile `p`: the tile's coordinates divided by the
/// chunk size and rounded down.
pub open spec fn chunk_of(p: Point) -> Point {
    Point { x: ((p.x as int) / 32) as i32, y: ((p.y as int) / 32) as i32 }
}

/// The place of the tile `p` among the tiles of its chunk, counted row by
/// row.
pub open spec fn cell_index(p: Point) -> int {
    ((p.y as int) % 32) * 32 + ((p.x as int) % 32)
}

/// The tile that stands at place `index` of the chunk `chunk`.
pub open spec fn cell_position(chunk: Point, index: int) -> Point {
    Point { x: (chunk.x * 32 + index % 32) as i32, y: (chunk.y * 32 + index / 32) as i32 }
}

/// A chunk that holds tiles which the world can hold.
pub open spec fn chunk_in_range(chunk: Point) -> bool {
    &&& -0x0400_0000 <= chunk.x < 0x0400_0000
    &&& -0x0400_0000 <= chunk.y < 0x0400_0000
}

/// Chunk and place determine the tile, and the tile determines chunk and
/// place.
pub proof fn lemma_cell_position(chunk: Point, index: int)
    requires
        chunk_in_range(chunk),
        0 <= index < 1024,
    ensures
        chunk_of(cell_position(chunk, index)) == chunk,
        cell_index(cell_position(chunk, index)) == index,
{
}

/// Every tile stands at its place in its chunk.
pub proof fn lemma_cell_of_point(p: Point)
    ensures
        0 <= cell_index(p) < 1024,
        chunk_in_range(chunk_of(p)),
        cell_position(chunk_of(p), cell_index(p)) == p,
{
}

/// Return the position of the chunk which contains the point passed in.
pub fn chunk_from_world_pos(world_pos: Point) -> (chunk: Point)
    ensures
        chunk == chunk_of(world_pos),
        chunk_in_range(chunk),
{
    let x: i64 = (world_pos.x as i64 + 0x8000_0000) / 32 - 0x0400_0000;
    let y: i64 = (world_pos.y as i64 + 0x8000_0000) / 32 - 0x0400_0000;
    Point { x: x as i32, y: y as i32 }
}

/// The place of a tile among the tiles of its chunk.
pub fn cell_index_of(world_pos: Point) -> (index: usize)
    ensures
        index == cell_index(world_pos),
        index < 1024,
{
    let x: i64 = (world_pos.x as i64 + 0x8000_0000) % 32;
    let y: i64 = (world_pos.y as i64 + 0x8000_0000) % 32;
    (y * 32 + x) as usize
}

/// The tile at place `index` of the chunk `chunk`.
pub fn position_of_cell(chunk: Point, index: usize) -> (p: Point)
    requires
        chunk_in_range(chunk),
        index < 1024,
    ensures
        p == cell_position(chunk, index as int),
        chunk_of(p) == chunk,
        cell_index(p) == index,
{
    let column: i32 = (index % 32) as i32;
    let row: i32 = (index / 32) as i32;
    Point { x: chunk.x * 32 + column, y: chunk.y * 32 + row }
}

/// Of 1000 tiles, 610 are ground and 390 are trees.
pub open spec fn tile_for_sample(sample: int) -> TileKind {
    if sample < 610 {
        TileKind::Empty
    } else {
        TileKind::Tree
    }
}

/// Of 1000 tiles of open ground, 970 hold no monster, and six each hold one
/// of the five kinds that roam the woods.
pub open spec fn monster_for_sample(sample: int) -> Option<monster::Kind> {
    if sample < 970 {
        None
    } else if sample < 976 {
        Some(monster::Kind::Anxiety)
    } else if sample < 982 {
        Some(monster::Kind::Depression)
    } else if sample < 988 {
        Some(monster::Kind::Hunger)
    } else if sample < 994 {
        Some(monster::Kind::Shadows)
    } else {
        Some(monster::Kind::Voices)
    }
}

/// Near the player's entry, of 1022 tiles of open ground 1000 hold nothing,
/// 2 a dose and 20 food. None holds a strong dose.
pub open spec fn near_item_for_sample(sample: int) -> Option<item::Kind> {
    if sample < 1000 {
        None
    } else if sample < 1002 {
        Some(item::Kind::Dose)
    } else {
        Some(item::Kind::Food)
    }
}

/// Elsewhere, of 1015 tiles of open ground 1000 hold nothing, 7 a dose, 3 a
/// strong dose and 5 food.
pub open spec fn far_item_for_sample(sample: int) -> Option<item::Kind> {
    if sample < 1000 {
        None
    } else if sample < 1007 {
        Some(item::Kind::Dose)
    } else if sample < 1010 {
        Some(item::Kind::StrongDose)
    } else {
        Some(item::Kind::Food)
    }
}

pub fn tile_from_sample(sample: i32) -> (kind: TileKind)
    ensures
        kind == tile_for_sample(sample as int),
{
    if sample < 610 {
        TileKind::Empty
    } else {
        TileKind::Tree
    }
}

pub fn monster_from_sample(sample: i32) -> (kind: Option<monster::Kind>)
    ensures
        kind == monster_for_sample(sample as int),
{
    if sample < 970 {
        None
    } else if sample < 976 {
        Some(monster::Kind::Anxiety)
    } else if sample < 982 {
        Some(monster::Kind::Depression)
    } else if sample < 988 {
        Some(monster::Kind::Hunger)
    } else if sample < 994 {
        Some(monster::Kind::Shadows)
    } else {
        Some(monster::Kind::Voices)
    }
}

pub fn near_item_from_sample(sample: i32) -> (kind: Option<item::Kind>)
    ensures
        kind == near_item_for_sample(sample as int),
{
    if sample < 1000 {
        None
    } else if sample < 1002 {
        Some(item::Kind::Dose)
    } else {
        Some(item::Kind::Food)
    }
}

pub fn far_item_from_sample(sample: i32) -> (kind: Option<item::Kind>)
    ensures
        kind == far_item_for_sample(sample as int),
{
    if sample < 1000 {
        None
    } else if sample < 1007 {
        Some(item::Kind::Dose)
    } else if sample < 1010 {
        Some(item::Kind::StrongDose)
    } else {
        Some(item::Kind::Food)
    }
}

/// The tile kind at `p` in the world of seed `seed` that the player enters
/// at `spawn`. The player always enters on open ground.
pub open spec fn generated_tile(seed: u32, spawn: Point, p: Point) -> TileKind {
    if p == spawn {
        TileKind::Empty
    } else {
        tile_for_sample(
            isaac_range(
                seed,
                STREAM_TILES,
                chunk_of(p).x,
                chunk_of(p).y,
                cell_index(p) as u32,
                0,
                1000,
            ) as int,
        )
    }
}

/// How far from the player's entry a walk to what lies near it may lead.
pub const ENTRY_REACH: i32 = 8;

/// Whether a walk from the player's entry may lead over `q`: the tile is
/// open ground no more than `ENTRY_REACH` steps from the entry.
pub open spec fn open_near_entry(seed: u32, spawn: Point, q: Point) -> bool {
    tile_distance_spec(q, spawn) <= ENTRY_REACH && generated_tile(seed, spawn, q)
        == TileKind::Empty
}

/// `way` is a walk from the player's entry to `to` over open ground: each
/// of its tiles touches the one before, the first touches the entry, and
/// the last is `to`. The walk to the entry itself has no tiles.
pub open spec fn walk_from_entry(seed: u32, spawn: Point, to: Point, way: Seq<Point>) -> bool {
    &&& forall|i: int|
        0 <= i < way.len() ==> adjacent(before_step(spawn, way, i), #[trigger] way[i])
            && open_near_entry(seed, spawn, way[i])
    &&& if way.len() == 0 {
        to == spawn
    } else {
        way.last() == to
    }
}

/// The player can walk from their entry to `p` over open ground.
#[verifier::opaque]
pub open spec fn reachable_from_entry(seed: u32, spawn: Point, p: Point) -> bool {
    exists|way: Seq<Point>| #[trigger] walk_from_entry(seed, spawn, p, way)
}

/// The monster that stands at `p` at first, if any. Monsters stand on open
/// ground only, and none within `SAFE_DISTANCE` of the player's entry.
pub open spec fn generated_monster(seed: u32, spawn: Point, p: Point) -> Option<monster::Kind> {
    if generated_tile(seed, spawn, p) != TileKind::Empty || tile_distance_spec(p, spawn)
        < SAFE_DISTANCE {
        None
    } else {
        monster_for_sample(
            isaac_range(
                seed,
                STREAM_MONSTERS,
                chunk_of(p).x,
                chunk_of(p).y,
                cell_index(p) as u32,
                0,
                1000,
            ) as int,
        )
    }
}

/// The item that is meant to lie at `p` at first, if any, where the first
/// dose lies at `first_dose`. Items lie on open ground only.
pub open spec fn intended_item(seed: u32, spawn: Point, first_dose: Point, p: Point) -> Option<
    item::Kind,
> {
    if generated_tile(seed, spawn, p) != TileKind::Empty {
        None
    } else if p == first_dose {
        Some(item::Kind::Dose)
    } else if tile_distance_spec(p, spawn) < SAFE_DISTANCE {
        near_item_for_sample(
            isaac_range(
                seed,
                STREAM_ITEMS,
                chunk_of(p).x,
                chunk_of(p).y,
                cell_index(p) as u32,
                0,
                1022,
            ) as int,
        )
    } else {
        far_item_for_sample(
            isaac_range(
                seed,
                STREAM_ITEMS,
                chunk_of(p).x,
                chunk_of(p).y,
                cell_index(p) as u32,
                0,
                1015,
            ) as int,
        )
    }
}

/// The item that lies at `p` at first, if any, where the first dose lies at
/// `first_dose`: the item that is meant to lie there, unless the tile is
/// near the player's entry and the player cannot walk to it.
pub open spec fn generated_item(seed: u32, spawn: Point, first_dose: Point, p: Point) -> Option<
    item::Kind,
> {
    if tile_distance_spec(p, spawn) < SAFE_DISTANCE && !reachable_from_entry(seed, spawn, p) {
        None
    } else {
        intended_item(seed, spawn, first_dose, p)
    }
}

/// One of the steps -4, -3, -2, -1, 1, 2, 3, 4.
pub open spec fn dose_offset(choice: int) -> int {
    if choice < 4 {
        choice - 4
    } else {
        choice - 3
    }
}

/// Where the search for a free tile for the first dose goes after `p`: one
/// tile to the right, and to the start of the next row once that leaves the
/// player's reach.
pub open spec fn displaced(spawn: Point, p: Point) -> Point {
    let right = Point { x: (p.x + 1) as i32, y: p.y };
    if tile_distance_spec(right, spawn) > 4 {
        Point { x: (right.x - 4) as i32, y: (right.y + 1) as i32 }
    } else {
        right
    }
}

/// The tile on which the search for a free tile ends when it starts at `p`
/// and may move on `tries` times. It ends on the first tile of open ground
/// that the player can walk to, and on the player's entry if it comes by
/// none.
pub open spec fn settled(seed: u32, spawn: Point, p: Point, tries: nat) -> Point
    decreases tries,
{
    if generated_tile(seed, spawn, p) == TileKind::Empty && reachable_from_entry(seed, spawn, p) {
        p
    } else if tries == 0 {
        spawn
    } else {
        settled(seed, spawn, displaced(spawn, p), (tries - 1) as nat)
    }
}

/// The number of times the search for a free tile may move on.
pub const DOSE_TRIES: u32 = 8;

/// Where the first dose is meant to lie before trees are looked at: a few
/// steps from the player's entry along both axes.
pub open spec fn first_dose_candidate(seed: u32, spawn: Point) -> Point {
    Point {
        x: (spawn.x + dose_offset(isaac_range(seed, STREAM_FIRST_DOSE, 0, 0, 0, 0, 8) as int)) as i32,
        y: (spawn.y + dose_offset(isaac_range(seed, STREAM_FIRST_DOSE, 0, 0, 1, 0, 8) as int)) as i32,
    }
}

/// The tile that the first dose is put on: open ground that the player can
/// walk to.
pub open spec fn first_dose_spec(seed: u32, spawn: Point) -> Point {
    settled(seed, spawn, first_dose_candidate(seed, spawn), DOSE_TRIES as nat)
}

/// A tile so far inside the world that a few steps from it stay inside.
pub open spec fn well_inside(p: Point) -> bool {
    &&& -WORLD_LIMIT < p.x < WORLD_LIMIT
    &&& -WORLD_LIMIT < p.y < WORLD_LIMIT
}

pub fn generate_tile(seed: u32, spawn: Point, p: Point) -> (kind: TileKind)
    ensures
        kind == generated_tile(seed, spawn, p),
{
    if p.x == spawn.x && p.y == spawn.y {
        TileKind::Empty
    } else {
        let chunk = chunk_from_world_pos(p);
        let index = cell_index_of(p);
        tile_from_sample(draw(seed, STREAM_TILES, chunk.x, chunk.y, index as u32, 0, 1000))
    }
}

pub fn generate_monster(seed: u32, spawn: Point, p: Point) -> (kind: Option<monster::Kind>)
    ensures
        kind == generated_monster(seed, spawn, p),
{
    match generate_tile(seed, spawn, p) {
        TileKind::Tree => None,
        TileKind::Empty => {
            if p.tile_distance(spawn) < SAFE_DISTANCE {
                None
            } else {
                let chunk = chunk_from_world_pos(p);
                let index = cell_index_of(p);
                monster_from_sample(
                    draw(seed, STREAM_MONSTERS, chunk.x, chunk.y, index as u32, 0, 1000),
                )
            }
        },
    }
}

/// Which of the tiles no more than `ENTRY_REACH` steps from the player's
/// entry are open ground.
pub fn ground_near_entry(seed: u32, spawn: Point) -> (grid: Grid)
    requires
        well_inside(spawn),
    ensures
        grid.wf(),
        is_ground_near_entry(grid, seed, spawn),
{
    let side: usize = (2 * ENTRY_REACH + 1) as usize;
    let origin = Point { x: spawn.x - ENTRY_REACH, y: spawn.y - ENTRY_REACH };
    let mut grid = Grid::new(origin, side, side, false);
    let mut area = SquareArea::new(spawn, ENTRY_REACH);
    let ghost all = square_points(spawn, ENTRY_REACH as int);
    let ghost mut seen: Seq<Point> = Seq::empty();
    proof {
        assert(seen + area.remaining() == all);
    }
    loop
        invariant
            well_inside(spawn),
            grid.wf(),
            grid.origin() == origin,
            grid.width() == side,
            grid.height() == side,
            side == 2 * ENTRY_REACH + 1,
            origin == (Point { x: (spawn.x - ENTRY_REACH) as i32, y: (spawn.y - ENTRY_REACH) as i32 }),
            seen + area.remaining() == all,
            forall|p: Point| #[trigger]
                grid.contains(p) ==> grid.marked(p) == (seen.contains(p) && generated_tile(
                    seed,
                    spawn,
                    p,
                ) == TileKind::Empty),
        ensures
            seen == all,
        decreases area.remaining().len(),
    {
        let ghost seen_before = seen;
        let ghost grid_before = grid;
        match area.next() {
            None => {
                proof {
                    assert(seen + Seq::<Point>::empty() == seen);
                }
                break ;
            },
            Some(p) => {
                let open = match generate_tile(seed, spawn, p) {
                    TileKind::Empty => true,
                    TileKind::Tree => false,
                };
                grid.set_walkable(p, open);
                proof {
                    seen = seen.push(p);
                    assert(seen_before.push(p) + area.remaining() == seen_before + (seq![p]
                        + area.remaining()));
                    assert(seen[seen_before.len() as int] == p);
                    assert forall|q: Point| #[trigger] grid.contains(q) implies grid.marked(q) == (
                    seen.contains(q) && generated_tile(seed, spawn, q) == TileKind::Empty) by {
                        assert(grid_before.contains(q));
                        if q != p {
                            if seen.contains(q) {
                                let a = choose|a: int| 0 <= a < seen.len() && seen[a] == q;
                                assert(seen_before[a] == q);
                            }
                            if seen_before.contains(q) {
                                let a = choose|a: int|
                                    0 <= a < seen_before.len() && seen_before[a] == q;
                                assert(seen[a] == q);
                            }
                        }
                    }
                }
            },
        }
    }
    proof {
        reveal(is_ground_near_entry);
        assert forall|p: Point| #[trigger] grid.contains(p) implies grid.marked(p) == (
        generated_tile(seed, spawn, p) == TileKind::Empty) by {
            lemma_square_points_contains(spawn, ENTRY_REACH, p);
        }
    }
    grid
}

/// `grid` shows which of the tiles no more than `ENTRY_REACH` steps from
/// the player's entry are open ground.
#[verifier::opaque]
pub open spec fn is_ground_near_entry(grid: Grid, seed: u32, spawn: Point) -> bool {
    &&& grid.origin() == (Point {
        x: (spawn.x - ENTRY_REACH) as i32,
        y: (spawn.y - ENTRY_REACH) as i32,
    })
    &&& i32::MIN <= spawn.x - ENTRY_REACH
    &&& i32::MIN <= spawn.y - ENTRY_REACH
    &&& grid.width() == 2 * ENTRY_REACH + 1
    &&& grid.height() == 2 * ENTRY_REACH + 1
    &&& forall|p: Point| #[trigger]
        grid.contains(p) ==> grid.marked(p) == (generated_tile(seed, spawn, p) == TileKind::Empty)
}

/// The walks over the grid of the ground near the entry are the walks from
/// the entry over open ground, and no others.
proof fn lemma_walks_near_entry(seed: u32, spawn: Point, to: Point, grid: Grid, way: Seq<Point>)
    requires
        is_ground_near_entry(grid, seed, spawn),
    ensures
        valid_path(grid, spawn, to, way) == walk_from_entry(seed, spawn, to, way),
{
    reveal(is_ground_near_entry);
    assert(grid.contains(spawn));
    assert forall|p: Point| grid.contains(p) == (tile_distance_spec(p, spawn) <= ENTRY_REACH) by {}
    if valid_path(grid, spawn, to, way) {
        assert forall|i: int| 0 <= i < way.len() implies adjacent(
            before_step(spawn, way, i),
            #[trigger] way[i],
        ) && open_near_entry(seed, spawn, way[i]) by {
            assert(step_ok(grid, before_step(spawn, way, i), way[i]));
            assert(grid.contains(way[i]));
        }
    }
    if walk_from_entry(seed, spawn, to, way) {
        assert forall|i: int| 0 <= i < way.len() implies step_ok(
            grid,
            before_step(spawn, way, i),
            #[trigger] way[i],
        ) by {
            assert(open_near_entry(seed, spawn, way[i]));
            assert(grid.contains(way[i]));
        }
    }
}

/// Whether the player can walk from their entry to `p` over open ground.
pub fn reaches(seed: u32, spawn: Point, p: Point) -> (b: bool)
    requires
        well_inside(spawn),
    ensures
        b == reachable_from_entry(seed, spawn, p),
{
    let grid = ground_near_entry(seed, spawn);
    let found = Path::find(spawn, p, &grid);
    proof {
        reveal(reachable_from_entry);
        assert forall|way: Seq<Point>|
            #![trigger valid_path(grid, spawn, p, way)]
            #![trigger walk_from_entry(seed, spawn, p, way)]
            valid_path(grid, spawn, p, way) == walk_from_entry(seed, spawn, p, way) by {
            lemma_walks_near_entry(seed, spawn, p, grid, way);
        }
    }
    match found {
        Some(path) => {
            proof {
                assert(walk_from_entry(seed, spawn, p, path@));
            }
            true
        },
        None => false,
    }
}

pub fn generate_item(seed: u32, spawn: Point, first_dose: Point, p: Point) -> (kind: Option<
    item::Kind,
>)
    requires
        well_inside(spawn),
    ensures
        kind == generated_item(seed, spawn, first_dose, p),
{
    let intended = match generate_tile(seed, spawn, p) {
        TileKind::Tree => None,
        TileKind::Empty => {
            let chunk = chunk_from_world_pos(p);
            let index = cell_index_of(p);
            if p.x == first_dose.x && p.y == first_dose.y {
                Some(item::Kind::Dose)
            } else if p.tile_distance(spawn) < SAFE_DISTANCE {
                near_item_from_sample(
                    draw(seed, STREAM_ITEMS, chunk.x, chunk.y, index as u32, 0, 1022),
                )
            } else {
                far_item_from_sample(
                    draw(seed, STREAM_ITEMS, chunk.x, chunk.y, index as u32, 0, 1015),
                )
            }
        },
    };
    match intended {
        Some(kind) => {
            if p.tile_distance(spawn) < SAFE_DISTANCE && !reaches(seed, spawn, p) {
                None
            } else {
                Some(kind)
            }
        },
        None => None,
    }
}

/// The tile that the first dose is put on in the world of seed `seed` that
/// the player enters at `spawn`.
pub fn first_dose_position(seed: u32, spawn: Point) -> (p: Point)
    requires
        well_inside(spawn),
    ensures
        p == first_dose_spec(seed, spawn),
        tile_distance_spec(p, spawn) <= 4 + 4 * DOSE_TRIES,
{
    let a = draw(seed, STREAM_FIRST_DOSE, 0, 0, 0, 0, 8);
    let b = draw(seed, STREAM_FIRST_DOSE, 0, 0, 1, 0, 8);
    let dx: i32 = if a < 4 {
        a - 4
    } else {
        a - 3
    };
    let dy: i32 = if b < 4 {
        b - 4
    } else {
        b - 3
    };
    let mut p = Point { x: spawn.x + dx, y: spawn.y + dy };
    let mut tries: u32 = DOSE_TRIES;
    while tries > 0
        invariant
            well_inside(spawn),
            tries <= DOSE_TRIES,
            spawn.x - 4 - 4 * (DOSE_TRIES - tries) <= p.x <= spawn.x + 4 + (DOSE_TRIES - tries),
            spawn.y - 4 <= p.y <= spawn.y + 4 + (DOSE_TRIES - tries),
            settled(seed, spawn, p, tries as nat) == first_dose_spec(seed, spawn),
        decreases tries,
    {
        if fits_first_dose(seed, spawn, p) {
            return p;
        }
        let right = Point { x: p.x + 1, y: p.y };
        p = if right.tile_distance(spawn) > 4 {
            Point { x: right.x - 4, y: right.y + 1 }
        } else {
            right
        };
        tries = tries - 1;
    }
    if fits_first_dose(seed, spawn, p) {
        p
    } else {
        spawn
    }
}

/// Whether the first dose can lie on `p`: the tile is open ground that the
/// player can walk to.
fn fits_first_dose(seed: u32, spawn: Point, p: Point) -> (fits: bool)
    requires
        well_inside(spawn),
    ensures
        fits == (generated_tile(seed, spawn, p) == TileKind::Empty && reachable_from_entry(
            seed,
            spawn,
            p,
        )),
{
    match generate_tile(seed, spawn, p) {
        TileKind::Empty => reaches(seed, spawn, p),
        TileKind::Tree => false,
    }
}

/// No monster stands on a tree or near the player's entry, no strong dose
/// lies near it, and to whatever lies near it the player can walk from
/// their entry over open ground.
pub proof fn lemma_generation_is_safe(seed: u32, spawn: Point, first_dose: Point, p: Point)
    ensures
        generated_tile(seed, spawn, spawn) == TileKind::Empty,
        generated_monster(seed, spawn, p) is Some ==> generated_tile(seed, spawn, p)
            == TileKind::Empty && tile_distance_spec(p, spawn) >= SAFE_DISTANCE,
        generated_monster(seed, spawn, spawn) is None,
        generated_item(seed, spawn, first_dose, p) is Some ==> generated_tile(seed, spawn, p)
            == TileKind::Empty,
        tile_distance_spec(p, spawn) < SAFE_DISTANCE ==> generated_item(seed, spawn, first_dose, p)
            != Some(item::Kind::StrongDose),
        generated_item(seed, spawn, first_dose, p) is Some && tile_distance_spec(p, spawn)
            < SAFE_DISTANCE ==> reachable_from_entry(seed, spawn, p),
{
}

/// The player can walk to their entry: they stand on it.
pub proof fn lemma_entry_is_reachable(seed: u32, spawn: Point)
    ensures
        reachable_from_entry(seed, spawn, spawn),
{
    reveal(reachable_from_entry);
    assert(walk_from_entry(seed, spawn, spawn, Seq::<Point>::empty()));
}

/// The search for a tile for the first dose ends on open ground that the
/// player can walk to.
pub proof fn lemma_settled_is_reachable(seed: u32, spawn: Point, p: Point, tries: nat)
    ensures
        generated_tile(seed, spawn, settled(seed, spawn, p, tries)) == TileKind::Empty,
        reachable_from_entry(seed, spawn, settled(seed, spawn, p, tries)),
    decreases tries,
{
    lemma_entry_is_reachable(seed, spawn);
    if !(generated_tile(seed, spawn, p) == TileKind::Empty && reachable_from_entry(seed, spawn, p))
        && tries > 0 {
        lemma_settled_is_reachable(seed, spawn, displaced(spawn, p), (tries - 1) as nat);
    }
}

/// The first dose lies where it is meant to lie, on open ground that the
/// player can walk to from their entry.
pub proof fn lemma_first_dose_is_reachable(seed: u32, spawn: Point)
    ensures
        generated_tile(seed, spawn, first_dose_spec(seed, spawn)) == TileKind::Empty,
        reachable_from_entry(seed, spawn, first_dose_spec(seed, spawn)),
        generated_item(
            seed,
            spawn,
            first_dose_spec(seed, spawn),
            first_dose_spec(seed, spawn),
        ) == Some(item::Kind::Dose),
{
    lemma_settled_is_reachable(
        seed,
        spawn,
        first_dose_candidate(seed, spawn),
        DOSE_TRIES as nat,
    );
}

} // verus!
