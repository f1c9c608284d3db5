//! The forest generator as lists: the tiles of a chunk, and the monsters
//! and the items that are scattered over them. The world itself makes its
//! chunks tile by tile; these lists hold the same.

use crate::generators::{
    cell_position, chunk_in_range, far_item_for_sample, far_item_from_sample, generate_tile,
    generated_item, generated_monster, generated_tile, monster_for_sample,
    monster_from_sample, near_item_for_sample, near_item_from_sample, position_of_cell, TileKind,
    SAFE_DISTANCE,
};
use crate::item;
use crate::monster;
use crate::point::{tile_distance_spec, Point};
use crate::random::{draw, isaac_range, STREAM_ITEMS, STREAM_MONSTERS};
use crate::generators::{
    cell_index, cell_index_of, chunk_from_world_pos, chunk_of, reachable_from_entry, reaches,
    well_inside,
};
use vstd::prelude::*;

verus! {

/// The stream that decides what the single-pass forest holds.
pub const STREAM_FOREST: u32 = 5;

/// The tiles, the monsters and the items of a chunk.
pub struct GeneratedWorld {
    pub map: Vec<(Point, TileKind)>,
    pub monsters: Vec<(Point, monster::Kind)>,
    pub items: Vec<(Point, item::Kind)>,
}

/// The monster on the tile `entry` of a map, if there is one.
pub open spec fn monster_entry(seed: u32, spawn: Point, entry: (Point, TileKind)) -> Option<
    (Point, monster::Kind),
> {
    let p = entry.0;
    if entry.1 != TileKind::Empty || tile_distance_spec(p, spawn) < SAFE_DISTANCE {
        None
    } else {
        match monster_for_sample(
            isaac_range(
                seed,
                STREAM_MONSTERS,
                chunk_of(p).x,
                chunk_of(p).y,
                cell_index(p) as u32,
                0,
                1000,
            ) as int,
        ) {
            Some(kind) => Some((p, kind)),
            None => None,
        }
    }
}

/// The item on the tile `entry` of a map, if there is one. Nothing lies
/// near the player's entry where the player cannot walk to.
pub open spec fn item_entry(seed: u32, spawn: Point, first_dose: Point, entry: (Point, TileKind)) -> Option<
    (Point, item::Kind),
> {
    let p = entry.0;
    if entry.1 != TileKind::Empty {
        None
    } else if tile_distance_spec(p, spawn) < SAFE_DISTANCE && !reachable_from_entry(
        seed,
        spawn,
        p,
    ) {
        None
    } else if p == first_dose {
        Some((p, item::Kind::Dose))
    } else {
        let found = if tile_distance_spec(p, spawn) < SAFE_DISTANCE {
            near_item_for_sample(
                isaac_range(
                    seed,
                    STREAM_ITEMS,
                    chunk_of(p).x,
                    chunk_of(p).y,
                    cell_index(p) as u32,
                    0,
                    1022,
                ) as int,
            )
        } else {
            far_item_for_sample(
                isaac_range(
                    seed,
                    STREAM_ITEMS,
                    chunk_of(p).x,
                    chunk_of(p).y,
                    cell_index(p) as u32,
                    0,
                    1015,
                ) as int,
            )
        };
        match found {
            Some(kind) => Some((p, kind)),
            None => None,
        }
    }
}

/// The tiles of the chunk `chunk`, row by row.
pub fn generate_map(seed: u32, spawn: Point, chunk: Point) -> (map: Vec<(Point, TileKind)>)
    requires
        chunk_in_range(chunk),
    ensures
        map@.len() == 1024,
        forall|i: int|
            0 <= i < 1024 ==> (#[trigger] map@[i]) == (
                cell_position(chunk, i),
                generated_tile(seed, spawn, cell_position(chunk, i)),
            ),
{
    let mut map: Vec<(Point, TileKind)> = Vec::new();
    let mut i: usize = 0;
    while i < 1024
        invariant
            chunk_in_range(chunk),
            i <= 1024,
            map@.len() == i,
            forall|j: int|
                0 <= j < i ==> (#[trigger] map@[j]) == (
                    cell_position(chunk, j),
                    generated_tile(seed, spawn, cell_position(chunk, j)),
                ),
        decreases 1024 - i,
    {
        let p = position_of_cell(chunk, i);
        map.push((p, generate_tile(seed, spawn, p)));
        i = i + 1;
    }
    map
}

/// The monsters on the tiles of `map`, in the order of the tiles.
pub fn generate_monsters(seed: u32, spawn: Point, map: &Vec<(Point, TileKind)>) -> (monsters: Vec<
    (Point, monster::Kind),
>)
    ensures
        monsters@ == map@.filter_map(|entry: (Point, TileKind)| monster_entry(seed, spawn, entry)),
{
    let ghost f = |entry: (Point, TileKind)| monster_entry(seed, spawn, entry);
    let mut monsters: Vec<(Point, monster::Kind)> = Vec::new();
    let mut i: usize = 0;
    proof {
        reveal(Seq::filter_map);
        assert(map@.take(0).filter_map(f) =~= Seq::empty());
    }
    while i < map.len()
        invariant
            i <= map@.len(),
            f == (|entry: (Point, TileKind)| monster_entry(seed, spawn, entry)),
            monsters@ == map@.take(i as int).filter_map(f),
        decreases map@.len() - i,
    {
        let (p, tile) = map[i];
        proof {
            reveal(Seq::filter_map);
            assert(map@.take(i + 1).drop_last() =~= map@.take(i as int));
            assert(map@.take(i + 1).last() == map@[i as int]);
        }
        let open_ground = match tile {
            TileKind::Empty => true,
            TileKind::Tree => false,
        };
        if open_ground && p.tile_distance(spawn) >= SAFE_DISTANCE {
            let chunk = chunk_from_world_pos(p);
            let index = cell_index_of(p);
            match monster_from_sample(
                draw(seed, STREAM_MONSTERS, chunk.x, chunk.y, index as u32, 0, 1000),
            ) {
                Some(kind) => {
                    monsters.push((p, kind));
                    proof {
                        assert(monsters@ =~= map@.take(i as int).filter_map(f) + seq![(p, kind)]);
                    }
                },
                None => {},
            }
        }
        i = i + 1;
    }
    proof {
        assert(map@.take(i as int) =~= map@);
    }
    monsters
}

/// The entry of a map on which the item `item` lies is open ground; no
/// strong dose lies near the player's entry; and to whatever lies near it
/// the player can walk from their entry over open ground.
pub open spec fn lies_well(seed: u32, spawn: Point, item: (Point, item::Kind)) -> bool {
    tile_distance_spec(item.0, spawn) < SAFE_DISTANCE ==> item.1 != item::Kind::StrongDose
        && reachable_from_entry(seed, spawn, item.0)
}

/// The items on the tiles of `map`, in the order of the tiles. Near the
/// player's entry lie only items that the player can walk to.
pub fn generate_items(seed: u32, spawn: Point, first_dose: Point, map: &Vec<(Point, TileKind)>) -> (items:
    Vec<(Point, item::Kind)>)
    requires
        well_inside(spawn),
    ensures
        items@ == map@.filter_map(
            |entry: (Point, TileKind)| item_entry(seed, spawn, first_dose, entry),
        ),
        forall|i: int| 0 <= i < items@.len() ==> lies_well(seed, spawn, #[trigger] items@[i]),
{
    let ghost f = |entry: (Point, TileKind)| item_entry(seed, spawn, first_dose, entry);
    let mut items: Vec<(Point, item::Kind)> = Vec::new();
    let mut i: usize = 0;
    proof {
        reveal(Seq::filter_map);
        assert(map@.take(0).filter_map(f) =~= Seq::empty());
    }
    while i < map.len()
        invariant
            i <= map@.len(),
            well_inside(spawn),
            f == (|entry: (Point, TileKind)| item_entry(seed, spawn, first_dose, entry)),
            items@ == map@.take(i as int).filter_map(f),
            forall|k: int| 0 <= k < items@.len() ==> lies_well(seed, spawn, #[trigger] items@[k]),
        decreases map@.len() - i,
    {
        let (p, tile) = map[i];
        proof {
            reveal(Seq::filter_map);
            assert(map@.take(i + 1).drop_last() =~= map@.take(i as int));
            assert(map@.take(i + 1).last() == map@[i as int]);
        }
        let open_ground = match tile {
            TileKind::Empty => true,
            TileKind::Tree => false,
        };
        let near = p.tile_distance(spawn) < SAFE_DISTANCE;
        if open_ground && !(near && !reaches(seed, spawn, p)) {
            let found = if p.x == first_dose.x && p.y == first_dose.y {
                Some(item::Kind::Dose)
            } else {
                let chunk = chunk_from_world_pos(p);
                let index = cell_index_of(p);
                if near {
                    near_item_from_sample(
                        draw(seed, STREAM_ITEMS, chunk.x, chunk.y, index as u32, 0, 1022),
                    )
                } else {
                    far_item_from_sample(
                        draw(seed, STREAM_ITEMS, chunk.x, chunk.y, index as u32, 0, 1015),
                    )
                }
            };
            match found {
                Some(kind) => {
                    let ghost before = items@;
                    items.push((p, kind));
                    proof {
                        assert forall|k: int| 0 <= k < items@.len() implies lies_well(
                            seed,
                            spawn,
                            #[trigger] items@[k],
                        ) by {
                            if k < before.len() {
                                assert(items@[k] == before[k]);
                            }
                        }
                        assert(items@ =~= map@.take(i as int).filter_map(f) + seq![(p, kind)]);
                    }
                },
                None => {},
            }
        }
        i = i + 1;
    }
    proof {
        assert(map@.take(i as int) =~= map@);
    }
    items
}

/// The tiles, the monsters and the items of the chunk `chunk` of the world
/// of seed `seed` that the player enters at `spawn` and whose first dose
/// lies on `first_dose`.
pub fn generate(seed: u32, spawn: Point, first_dose: Point, chunk: Point) -> (world: GeneratedWorld)
    requires
        chunk_in_range(chunk),
        well_inside(spawn),
    ensures
        world.map@.len() == 1024,
        forall|i: int|
            0 <= i < 1024 ==> (#[trigger] world.map@[i]) == (
                cell_position(chunk, i),
                generated_tile(seed, spawn, cell_position(chunk, i)),
            ),
        world.monsters@ == world.map@.filter_map(
            |entry: (Point, TileKind)| monster_entry(seed, spawn, entry),
        ),
        world.items@ == world.map@.filter_map(
            |entry: (Point, TileKind)| item_entry(seed, spawn, first_dose, entry),
        ),
        forall|i: int|
            0 <= i < world.items@.len() ==> lies_well(seed, spawn, #[trigger] world.items@[i]),
{
    let map = generate_map(seed, spawn, chunk);
    let monsters = generate_monsters(seed, spawn, &map);
    let items = generate_items(seed, spawn, first_dose, &map);
    GeneratedWorld { map, monsters, items }
}

/// On the tiles of a generated map the lists hold what the world holds.
pub proof fn lemma_entries_match_the_world(seed: u32, spawn: Point, first_dose: Point, p: Point)
    ensures
        monster_entry(seed, spawn, (p, generated_tile(seed, spawn, p))) == match generated_monster(
            seed,
            spawn,
            p,
        ) {
            Some(kind) => Some((p, kind)),
            None => None,
        },
        item_entry(seed, spawn, first_dose, (p, generated_tile(seed, spawn, p)))
            == match generated_item(seed, spawn, first_dose, p) {
            Some(kind) => Some((p, kind)),
            None => None,
        },
{
}

/// What one tile of the single-pass forest holds.
#[derive(Clone, Copy, Debug, PartialEq, Eq, Structural)]
pub enum WorldItem {
    Empty,
    Tree,
    Dose,
    StrongDose,
    Food,
    Anxiety,
    Depression,
    Hunger,
    Voices,
    Shadows,
}

impl WorldItem {
    pub open spec fn glyph(self) -> char {
        match self {
            WorldItem::Empty => '.',
            WorldItem::Tree => '#',
            WorldItem::Dose => 'i',
            WorldItem::StrongDose => 'I',
            WorldItem::Food => '%',
            WorldItem::Anxiety => 'a',
            WorldItem::Depression => 'D',
            WorldItem::Hunger => 'h',
            WorldItem::Voices => 'v',
            WorldItem::Shadows => 'S',
        }
    }

    /// The sign that stands for the item on a map.
    pub fn to_glyph(self) -> (glyph: char)
        ensures
            glyph == self.glyph(),
    {
        match self {
            WorldItem::Empty => '.',
            WorldItem::Tree => '#',
            WorldItem::Dose => 'i',
            WorldItem::StrongDose => 'I',
            WorldItem::Food => '%',
            WorldItem::Anxiety => 'a',
            WorldItem::Depression => 'D',
            WorldItem::Hunger => 'h',
            WorldItem::Voices => 'v',
            WorldItem::Shadows => 'S',
        }
    }
}

/// Of 1030 tiles 595 are ground, 390 trees, 7 hold a dose, 3 a strong dose,
/// 5 food, and 6 each one of the five monsters.
pub open spec fn world_item_for_sample(sample: int) -> WorldItem {
    if sample < 595 {
        WorldItem::Empty
    } else if sample < 985 {
        WorldItem::Tree
    } else if sample < 992 {
        WorldItem::Dose
    } else if sample < 995 {
        WorldItem::StrongDose
    } else if sample < 1000 {
        WorldItem::Food
    } else if sample < 1006 {
        WorldItem::Anxiety
    } else if sample < 1012 {
        WorldItem::Depression
    } else if sample < 1018 {
        WorldItem::Hunger
    } else if sample < 1024 {
        WorldItem::Voices
    } else {
        WorldItem::Shadows
    }
}

pub fn world_item_from_sample(sample: i32) -> (item: WorldItem)
    ensures
        item == world_item_for_sample(sample as int),
{
    if sample < 595 {
        WorldItem::Empty
    } else if sample < 985 {
        WorldItem::Tree
    } else if sample < 992 {
        WorldItem::Dose
    } else if sample < 995 {
        WorldItem::StrongDose
    } else if sample < 1000 {
        WorldItem::Food
    } else if sample < 1006 {
        WorldItem::Anxiety
    } else if sample < 1012 {
        WorldItem::Depression
    } else if sample < 1018 {
        WorldItem::Hunger
    } else if sample < 1024 {
        WorldItem::Voices
    } else {
        WorldItem::Shadows
    }
}

/// What the tile `(x, y)` of the single-pass forest of seed `seed` holds.
pub open spec fn forrest_tile(seed: u32, x: i32, y: i32) -> (i32, i32, WorldItem) {
    (x, y, world_item_for_sample(isaac_range(seed, STREAM_FOREST, x, y, 0, 0, 1030) as int))
}

/// One column of the single-pass forest.
pub open spec fn forrest_column(seed: u32, x: i32, h: int) -> Seq<(i32, i32, WorldItem)> {
    Seq::new(h as nat, |y: int| forrest_tile(seed, x, y as i32))
}

/// The first `w` columns of the single-pass forest, one after the other.
pub open spec fn forrest_spec(seed: u32, w: int, h: int) -> Seq<(i32, i32, WorldItem)>
    decreases w,
{
    if w <= 0 {
        Seq::empty()
    } else {
        forrest_spec(seed, w - 1, h) + forrest_column(seed, (w - 1) as i32, h)
    }
}

/// A forest of `w` columns and `h` rows in which every tile is ground, a
/// tree, an item or a monster, column by column.
pub fn forrest(seed: u32, w: i32, h: i32) -> (result: Vec<(i32, i32, WorldItem)>)
    requires
        0 <= w,
        0 <= h,
    ensures
        result@ == forrest_spec(seed, w as int, h as int),
{
    let mut result: Vec<(i32, i32, WorldItem)> = Vec::new();
    let mut x: i32 = 0;
    while x < w
        invariant
            0 <= x <= w,
            0 <= h,
            result@ == forrest_spec(seed, x as int, h as int),
        decreases w - x,
    {
        let ghost before = result@;
        let mut y: i32 = 0;
        while y < h
            invariant
                0 <= y <= h,
                0 <= x < w,
                result@ == before + forrest_column(seed, x, h as int).take(y as int),
            decreases h - y,
        {
            let item = world_item_from_sample(draw(seed, STREAM_FOREST, x, y, 0, 0, 1030));
            result.push((x, y, item));
            proof {
                let column = forrest_column(seed, x, h as int);
                assert(column.take(y + 1) =~= column.take(y as int).push(column[y as int]));
                assert(result@ =~= before + column.take(y + 1));
            }
            y = y + 1;
        }
        proof {
            let column = forrest_column(seed, x, h as int);
            assert(column.take(h as int) =~= column);
        }
        x = x + 1;
    }
    result
}

} // verus!
