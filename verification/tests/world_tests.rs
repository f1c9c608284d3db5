use dose_response::ai::{AIState, Behavior};
use dose_response::forrest::{forrest, generate, world_item_from_sample, WorldItem};
use dose_response::generators::{
    cell_index_of, chunk_from_world_pos, far_item_from_sample, first_dose_position,
    generate_item, generate_monster, generate_tile, monster_from_sample, near_item_from_sample,
    position_of_cell, reaches, tile_from_sample, TileKind,
};
use dose_response::item::{Item, Kind, Modifier};
use dose_response::monster::{Damage, Kind as MonsterKind, Monster, Walkability};
use dose_response::point::{point, Point};
use dose_response::random::{draw, Random, STREAM_GAME, STREAM_TILES};
use dose_response::world::{nearest_dose, random_neighbour_position, top_dose, Chunk, World};

const HALF: i32 = 1 << 30;

fn world(seed: u32) -> World {
    World::new(seed, HALF, point(0, 0))
}

/// What the world shows of a tile: its kind, its items, its monster.
fn snapshot(w: &mut World, p: Point) -> (TileKind, Vec<Item>, Option<Monster>, bool) {
    (w.tile(p), w.items(p), w.monster_on_pos(p), w.explored(p))
}

fn region(w: &mut World, from: i32, to: i32) -> Vec<(TileKind, Vec<Item>, Option<Monster>, bool)> {
    let mut all = Vec::new();
    for y in from..to {
        for x in from..to {
            all.push(snapshot(w, point(x, y)));
        }
    }
    all
}

/// The first tile at or after `start`, going east, for which `ok` holds.
fn find_east(w: &mut World, start: Point, ok: impl Fn(&mut World, Point) -> bool) -> Point {
    let mut p = start;
    for _ in 0..10_000 {
        if ok(w, p) {
            return p;
        }
        p = point(p.x + 1, p.y);
    }
    panic!("nothing found east of {:?}", start);
}

#[test]
fn draws_are_reproducible_and_within_their_range() {
    let mut seen = std::collections::BTreeSet::new();
    for index in 0..200u32 {
        let a = draw(7, STREAM_TILES, 3, -4, index, 10, 20);
        let b = draw(7, STREAM_TILES, 3, -4, index, 10, 20);
        assert_eq!(a, b);
        assert!((10..20).contains(&a));
        seen.insert(a);
    }
    // A draw is neither its seed nor one of its bounds handed back.
    assert!(seen.len() > 5);
    assert_eq!(draw(1, STREAM_GAME, 0, 0, 0, -3, -2), -3);
    let base: Vec<i32> = (0..50).map(|i| draw(1, STREAM_TILES, 0, 0, i, 0, 1000)).collect();
    let other_seed: Vec<i32> = (0..50).map(|i| draw(2, STREAM_TILES, 0, 0, i, 0, 1000)).collect();
    let other_place: Vec<i32> = (0..50).map(|i| draw(1, STREAM_TILES, 0, 1, i, 0, 1000)).collect();
    let other_stream: Vec<i32> = (0..50).map(|i| draw(1, STREAM_GAME, 0, 0, i, 0, 1000)).collect();
    assert_ne!(base, other_seed);
    assert_ne!(base, other_place);
    assert_ne!(base, other_stream);
}

#[test]
fn a_stream_hands_out_its_numbers_in_order() {
    let mut a = Random::from_seed(99);
    let mut b = Random::from_seed(99);
    let first: Vec<i32> = (0..20).map(|_| a.range(0, 1000)).collect();
    let second: Vec<i32> = (0..20).map(|_| b.range(0, 1000)).collect();
    assert_eq!(first, second);
    assert_eq!(a, Random { seed: 99, drawn: 20 });
    for (i, value) in first.iter().enumerate() {
        assert_eq!(*value, draw(99, STREAM_GAME, 0, 0, i as u32, 0, 1000));
    }
    assert_eq!(a.range_checked(5, 5), None);
    assert_eq!(a.drawn, 20);
    assert_eq!(a.range_checked(5, 6), Some(5));
    assert_eq!(a.drawn, 21);
    let mut last = Random { seed: 1, drawn: u32::MAX };
    last.range(0, 2);
    assert_eq!(last.drawn, 0);
}

#[test]
fn samples_fall_into_their_shares() {
    assert_eq!(tile_from_sample(0), TileKind::Empty);
    assert_eq!(tile_from_sample(609), TileKind::Empty);
    assert_eq!(tile_from_sample(610), TileKind::Tree);
    assert_eq!(tile_from_sample(999), TileKind::Tree);
    assert_eq!(monster_from_sample(969), None);
    assert_eq!(monster_from_sample(970), Some(MonsterKind::Anxiety));
    assert_eq!(monster_from_sample(976), Some(MonsterKind::Depression));
    assert_eq!(monster_from_sample(982), Some(MonsterKind::Hunger));
    assert_eq!(monster_from_sample(988), Some(MonsterKind::Shadows));
    assert_eq!(monster_from_sample(994), Some(MonsterKind::Voices));
    assert_eq!(monster_from_sample(999), Some(MonsterKind::Voices));
    assert_eq!(near_item_from_sample(999), None);
    assert_eq!(near_item_from_sample(1000), Some(Kind::Dose));
    assert_eq!(near_item_from_sample(1002), Some(Kind::Food));
    assert_eq!(near_item_from_sample(1021), Some(Kind::Food));
    assert_eq!(far_item_from_sample(999), None);
    assert_eq!(far_item_from_sample(1006), Some(Kind::Dose));
    assert_eq!(far_item_from_sample(1007), Some(Kind::StrongDose));
    assert_eq!(far_item_from_sample(1009), Some(Kind::StrongDose));
    assert_eq!(far_item_from_sample(1010), Some(Kind::Food));
    assert_eq!(world_item_from_sample(594), WorldItem::Empty);
    assert_eq!(world_item_from_sample(595), WorldItem::Tree);
    assert_eq!(world_item_from_sample(985), WorldItem::Dose);
    assert_eq!(world_item_from_sample(992), WorldItem::StrongDose);
    assert_eq!(world_item_from_sample(995), WorldItem::Food);
    assert_eq!(world_item_from_sample(1000), WorldItem::Anxiety);
    assert_eq!(world_item_from_sample(1029), WorldItem::Shadows);
    assert_eq!(WorldItem::Tree.to_glyph(), '#');
    assert_eq!(WorldItem::Empty.to_glyph(), '.');
    assert_eq!(WorldItem::Dose.to_glyph(), 'i');
}

#[test]
fn chunks_are_found_by_rounding_down() {
    assert_eq!(chunk_from_world_pos(point(0, 0)), point(0, 0));
    assert_eq!(chunk_from_world_pos(point(31, 31)), point(0, 0));
    assert_eq!(chunk_from_world_pos(point(32, 63)), point(1, 1));
    assert_eq!(chunk_from_world_pos(point(-1, -32)), point(-1, -1));
    assert_eq!(chunk_from_world_pos(point(-33, 64)), point(-2, 2));
    assert_eq!(chunk_from_world_pos(point(i32::MIN, i32::MAX)), point(-(1 << 26), (1 << 26) - 1));
    assert_eq!(cell_index_of(point(0, 0)), 0);
    assert_eq!(cell_index_of(point(31, 0)), 31);
    assert_eq!(cell_index_of(point(0, 1)), 32);
    assert_eq!(cell_index_of(point(-1, -1)), 1023);
    assert_eq!(cell_index_of(point(33, -31)), 33);
    for p in [point(5, 9), point(-70, 3), point(1000, -1000), point(-1, -1)] {
        assert_eq!(position_of_cell(chunk_from_world_pos(p), cell_index_of(p)), p);
    }
}

#[test]
fn the_same_seed_gives_the_same_world_in_any_order_of_visits() {
    let mut a = world(2024);
    let mut b = world(2024);
    let forwards = region(&mut a, -40, 40);
    // Visit far chunks first, then the same region backwards.
    b.tile(point(5000, -5000));
    b.walkable(point(-321, 77), Walkability::BlockingMonsters);
    let mut backwards = Vec::new();
    for y in (-40..40).rev() {
        for x in (-40..40).rev() {
            backwards.push(snapshot(&mut b, point(x, y)));
        }
    }
    backwards.reverse();
    assert_eq!(forwards, backwards);
    // And once more in the world that was visited already.
    assert_eq!(region(&mut a, -40, 40), forwards);
    let mut c = world(2025);
    assert_ne!(region(&mut c, -40, 40), forwards);
}

#[test]
fn a_fresh_chunk_holds_what_the_generator_gives() {
    let spawn = point(0, 0);
    let seed = 31337;
    let first_dose = first_dose_position(seed, spawn);
    assert_eq!(first_dose, first_dose_position(seed, spawn));
    assert!(first_dose.tile_distance(spawn) <= 36);
    let mut w = World::new(seed, HALF, spawn);
    for chunk in [point(0, 0), point(-1, 0), point(3, -2)] {
        let made = Chunk::new(seed, spawn, first_dose, chunk);
        let again = Chunk::new(seed, spawn, first_dose, chunk);
        let lists = generate(seed, spawn, first_dose, chunk);
        assert_eq!(made.cells.len(), 1024);
        assert_eq!(lists.map.len(), 1024);
        let mut monsters = Vec::new();
        let mut items = Vec::new();
        for i in 0..1024usize {
            let p = position_of_cell(chunk, i);
            let cell = &made.cells[i];
            assert_eq!(cell.tile, again.cells[i].tile);
            assert_eq!(cell.items, again.cells[i].items);
            assert_eq!(cell.monster, again.cells[i].monster);
            assert_eq!(cell.tile, generate_tile(seed, spawn, p));
            assert_eq!(lists.map[i], (p, cell.tile));
            assert_eq!(cell.monster.map(|m| m.kind), generate_monster(seed, spawn, p));
            assert_eq!(
                cell.items.iter().map(|i| i.kind).collect::<Vec<_>>(),
                generate_item(seed, spawn, first_dose, p).into_iter().collect::<Vec<_>>()
            );
            assert!(!cell.explored);
            assert_eq!(snapshot(&mut w, p), (cell.tile, cell.items.clone(), cell.monster, false));
            if let Some(m) = cell.monster {
                assert_eq!(m, Monster::new(m.kind, p));
                monsters.push((p, m.kind));
            }
            for item in &cell.items {
                assert_eq!(*item, Item::new(item.kind));
                items.push((p, item.kind));
            }
        }
        assert_eq!(lists.monsters, monsters);
        assert_eq!(lists.items, items);
    }
}

#[test]
fn generation_keeps_the_players_entry_safe() {
    for seed in [1u32, 2, 3, 1000, 65535] {
        let spawn = point(17, -9);
        let first_dose = first_dose_position(seed, spawn);
        assert_eq!(generate_tile(seed, spawn, spawn), TileKind::Empty);
        let mut monsters = 0;
        let mut trees = 0;
        for y in -80..80 {
            for x in -80..80 {
                let p = point(x, y);
                let tile = generate_tile(seed, spawn, p);
                let monster = generate_monster(seed, spawn, p);
                let item = generate_item(seed, spawn, first_dose, p);
                if tile == TileKind::Tree {
                    trees += 1;
                    assert_eq!(monster, None);
                    assert_eq!(item, None);
                }
                if p.tile_distance(spawn) < 6 {
                    assert_eq!(monster, None);
                    assert_ne!(item, Some(Kind::StrongDose));
                }
                if monster.is_some() {
                    monsters += 1;
                }
            }
        }
        // About 39 in 100 tiles are trees and about 2 in 100 hold a monster.
        assert!((8000..12000).contains(&trees), "trees: {}", trees);
        assert!((200..800).contains(&monsters), "monsters: {}", monsters);
        assert_eq!(generate_tile(seed, spawn, first_dose), TileKind::Empty);
        assert_eq!(generate_item(seed, spawn, first_dose, first_dose), Some(Kind::Dose));
        assert!(first_dose.tile_distance(spawn) <= 8);
    }
}

/// The tiles that can be walked to from `spawn` over open ground no more
/// than eight steps from it, found by flooding.
fn flooded(seed: u32, spawn: Point) -> Vec<Point> {
    let mut open = Vec::new();
    for y in spawn.y - 8..=spawn.y + 8 {
        for x in spawn.x - 8..=spawn.x + 8 {
            if generate_tile(seed, spawn, point(x, y)) == TileKind::Empty {
                open.push(point(x, y));
            }
        }
    }
    let mut found = vec![spawn];
    let mut next = 0;
    while next < found.len() {
        let from = found[next];
        next += 1;
        for p in open.iter() {
            if p.tile_distance(from) == 1 && !found.contains(p) {
                found.push(*p);
            }
        }
    }
    found
}

#[test]
fn what_lies_near_the_entry_can_be_walked_to() {
    for seed in 0u32..5 {
        let spawn = point(-3, 40);
        let open = flooded(seed, spawn);
        let first_dose = first_dose_position(seed, spawn);
        assert!(open.contains(&first_dose));
        assert!(reaches(seed, spawn, spawn));
        for y in spawn.y - 9..=spawn.y + 9 {
            for x in spawn.x - 9..=spawn.x + 9 {
                let p = point(x, y);
                let item = generate_item(seed, spawn, first_dose, p);
                if p.tile_distance(spawn) < 6 {
                    if item.is_some() {
                        assert!(open.contains(&p), "seed {} item at {:?}", seed, p);
                    }
                    if generate_tile(seed, spawn, p) == TileKind::Empty {
                        assert_eq!(reaches(seed, spawn, p), open.contains(&p));
                    }
                }
            }
        }
        // Beyond the eight steps nothing counts as reached.
        assert!(!reaches(seed, spawn, point(spawn.x + 9, spawn.y)));
    }
}

#[test]
fn a_walled_in_tile_near_the_entry_holds_nothing() {
    let spawn = point(5, 5);
    let mut seen = 0;
    for seed in 0u32..400 {
        let open = flooded(seed, spawn);
        for y in spawn.y - 5..=spawn.y + 5 {
            for x in spawn.x - 5..=spawn.x + 5 {
                let p = point(x, y);
                if seen < 3
                    && generate_tile(seed, spawn, p) == TileKind::Empty
                    && !open.contains(&p)
                {
                    seen += 1;
                    assert!(!reaches(seed, spawn, p));
                    // Not even the first dose lies there.
                    assert_eq!(generate_item(seed, spawn, p, p), None);
                    assert_ne!(first_dose_position(seed, spawn), p);
                }
            }
        }
        if seen >= 3 {
            break;
        }
    }
    assert_eq!(seen, 3);
}

#[test]
fn the_single_pass_forest_goes_column_by_column() {
    let a = forrest(5, 3, 4);
    assert_eq!(a.len(), 12);
    assert_eq!(a, forrest(5, 3, 4));
    let places: Vec<(i32, i32)> = a.iter().map(|t| (t.0, t.1)).collect();
    assert_eq!(
        places,
        vec![(0, 0), (0, 1), (0, 2), (0, 3), (1, 0), (1, 1), (1, 2), (1, 3), (2, 0), (2, 1), (2, 2), (2, 3)]
    );
    assert!(forrest(5, 0, 4).is_empty());
    assert!(forrest(5, 4, 0).is_empty());
    let big = forrest(6, 40, 40);
    assert!(big.iter().any(|t| t.2 == WorldItem::Tree));
    assert!(big.iter().any(|t| t.2 == WorldItem::Empty));
    // A wider forest starts with the narrower one.
    assert_eq!(forrest(5, 5, 4)[..12], a[..]);
}

#[test]
fn bounds_are_strict_on_both_sides() {
    let w = World::new(1, 50, point(0, 0));
    assert!(w.within_bounds(point(49, -49)));
    assert!(w.within_bounds(point(0, 0)));
    assert!(!w.within_bounds(point(50, 0)));
    assert!(!w.within_bounds(point(0, -50)));
    assert!(!w.within_bounds(point(i32::MAX, i32::MIN)));
    assert_eq!(w.seed(), 1);
    assert_eq!(w.spawn(), point(0, 0));
}

#[test]
fn changes_outside_the_world_are_ignored() {
    let mut w = World::new(9, 50, point(0, 0));
    let outside = point(50, 3);
    let before = snapshot(&mut w, outside);
    w.set_tile(outside, if before.0 == TileKind::Tree { TileKind::Empty } else { TileKind::Tree });
    w.add_item(outside, Item::new(Kind::Food));
    w.explore_tile(outside);
    w.remove_monster(outside);
    w.set_monster(Monster::new(MonsterKind::Anxiety, outside));
    assert_eq!(w.pickup_item(outside), None);
    assert_eq!(w.monster_on_pos(outside), None);
    assert!(!w.walkable(outside, Walkability::WalkthroughMonsters));
    assert_eq!((w.tile(outside), w.items(outside), w.explored(outside)), (before.0, before.1, before.3));
}

#[test]
fn tiles_and_items_change_where_asked_and_nowhere_else() {
    let mut w = world(77);
    let p = point(40, 40);
    let around_before = region(&mut w, 30, 50);
    w.set_tile(p, TileKind::Tree);
    assert_eq!(w.tile(p), TileKind::Tree);
    assert!(!w.walkable(p, Walkability::WalkthroughMonsters));
    w.set_tile(p, TileKind::Empty);
    assert_eq!(w.tile(p), TileKind::Empty);
    while w.pickup_item(p).is_some() {}
    w.remove_monster(p);
    assert!(w.walkable(p, Walkability::BlockingMonsters));
    w.add_item(p, Item::new(Kind::Food));
    w.add_item(p, Item::new(Kind::StrongDose));
    w.add_item(p, Item::new(Kind::Dose));
    assert_eq!(w.items(p).len(), 3);
    assert_eq!(w.pickup_item(p), Some(Item::new(Kind::Dose)));
    assert_eq!(w.pickup_item(p), Some(Item::new(Kind::StrongDose)));
    assert_eq!(w.items(p), vec![Item::new(Kind::Food)]);
    assert_eq!(w.pickup_item(p), Some(Item::new(Kind::Food)));
    assert_eq!(w.pickup_item(p), None);
    let around_after = region(&mut w, 30, 50);
    for (i, (before, after)) in around_before.iter().zip(around_after.iter()).enumerate() {
        if i != 10 * 20 + 10 {
            assert_eq!(before, after);
        }
    }
}

#[test]
fn the_cells_of_a_rectangle_come_row_by_row() {
    let mut w = world(78);
    let top_left = point(30, -33);
    w.set_tile(point(31, -32), TileKind::Empty);
    while w.pickup_item(point(31, -32)).is_some() {}
    w.add_item(point(31, -32), Item::new(Kind::Food));
    w.add_item(point(31, -32), Item::new(Kind::Dose));
    w.explore_tile(point(32, -33));
    let cells = w.cells(top_left, point(3, 2));
    let places: Vec<Point> = cells.iter().map(|c| c.0).collect();
    assert_eq!(
        places,
        vec![point(30, -33), point(31, -33), point(32, -33), point(30, -32), point(31, -32), point(32, -32)]
    );
    for (p, tile, explored, items) in cells.iter() {
        assert_eq!(*tile, w.tile(*p));
        assert_eq!(*explored, w.explored(*p));
        assert_eq!(*items, w.items(*p));
    }
    assert_eq!(cells[4].1, TileKind::Empty);
    assert_eq!(cells[4].3, vec![Item::new(Kind::Food), Item::new(Kind::Dose)]);
    assert!(cells[2].2);
    assert!(!cells[0].2);
    // A rectangle without columns or rows holds nothing.
    assert!(w.cells(top_left, point(0, 5)).is_empty());
    assert!(w.cells(top_left, point(5, 0)).is_empty());
    // Chunk borders do not show.
    let across = w.cells(point(-2, -2), point(4, 4));
    assert_eq!(across.len(), 16);
    assert_eq!(across[5].0, point(-1, -1));
    assert_eq!(across[15].0, point(1, 1));
}

#[test]
fn monsters_are_set_moved_and_removed() {
    let mut w = world(123);
    let free = |w: &mut World, p: Point| w.walkable(p, Walkability::BlockingMonsters);
    let from = find_east(&mut w, point(100, 100), free);
    let dest = find_east(&mut w, point(from.x + 1, 100), free);
    let mut m = Monster::new(MonsterKind::Depression, from);
    m.ai_state = AIState::Chasing;
    m.set_id(7);
    w.set_monster(m);
    assert_eq!(w.monster_on_pos(from), Some(m));
    assert!(!w.walkable(from, Walkability::BlockingMonsters));
    assert!(w.walkable(from, Walkability::WalkthroughMonsters));
    w.move_monster(from, dest);
    assert_eq!(w.monster_on_pos(from), None);
    let moved = w.monster_on_pos(dest).unwrap();
    assert_eq!(moved.position, dest);
    assert_eq!((moved.kind, moved.ai_state, moved.id()), (MonsterKind::Depression, AIState::Chasing, 7));
    w.move_monster(dest, dest);
    assert_eq!(w.monster_on_pos(dest), Some(moved));
    let found = w.monsters_around(dest, 0);
    assert_eq!(found, vec![moved]);
    w.remove_monster(dest);
    assert_eq!(w.monster_on_pos(dest), None);
    assert!(w.monsters_around(dest, 0).is_empty());
}

#[test]
fn monsters_around_are_listed_row_by_row() {
    let mut w = world(5);
    let centre = point(200, 200);
    for y in 195..=205 {
        for x in 195..=205 {
            w.remove_monster(point(x, y));
        }
    }
    let spots = [point(205, 195), point(195, 200), point(200, 200), point(204, 205)];
    for (i, p) in spots.iter().rev().enumerate() {
        w.set_tile(*p, TileKind::Empty);
        let mut m = Monster::new(MonsterKind::Hunger, *p);
        m.set_id(i);
        w.set_monster(m);
    }
    let mut outside = Monster::new(MonsterKind::Hunger, point(206, 200));
    outside.set_id(99);
    w.set_monster(outside);
    let found: Vec<Point> = w.monsters_around(centre, 5).iter().map(|m| m.position).collect();
    assert_eq!(found, spots.to_vec());
    let near: Vec<Point> = w.monsters_around(centre, 4).iter().map(|m| m.position).collect();
    assert_eq!(near, vec![point(200, 200)]);
}

#[test]
fn exploring_marks_the_tiles_strictly_inside_the_radius() {
    let mut w = world(8);
    let centre = point(-10, 20);
    w.explore(centre, 3);
    for y in 10..30 {
        for x in -20..0 {
            let p = point(x, y);
            let dx = (x + 10) as i64;
            let dy = (y - 20) as i64;
            assert_eq!(w.explored(p), dx * dx + dy * dy < 9, "at {:?}", p);
        }
    }
    w.explore(point(100, 100), 0);
    assert!(!w.explored(point(100, 100)));
    w.explore(point(100, 100), 1);
    assert!(w.explored(point(100, 100)));
    assert!(!w.explored(point(101, 100)));
}

#[test]
fn the_nearest_dose_is_found() {
    let mut w = world(55);
    let centre = point(300, 300);
    for y in 290..=310 {
        for x in 290..=310 {
            while w.pickup_item(point(x, y)).is_some() {}
        }
    }
    assert_eq!(w.nearest_dose(centre, 5), None);
    w.add_item(point(300, 303), Item::new(Kind::Food));
    assert_eq!(w.nearest_dose(centre, 5), None);
    w.add_item(point(304, 304), Item::new(Kind::Dose));
    assert_eq!(w.nearest_dose(centre, 5), Some((point(304, 304), Item::new(Kind::Dose))));
    assert_eq!(w.nearest_dose(centre, 3), None);
    w.add_item(point(298, 302), Item::new(Kind::StrongDose));
    w.add_item(point(298, 302), Item::new(Kind::Food));
    assert_eq!(nearest_dose(&mut w, centre, 5), Some((point(298, 302), Item::new(Kind::StrongDose))));
    // Of two doses equally near, the one in the earlier row wins.
    w.add_item(point(302, 299), Item::new(Kind::Dose));
    assert_eq!(w.nearest_dose(centre, 5), Some((point(302, 299), Item::new(Kind::Dose))));
    w.add_item(point(300, 300), Item::new(Kind::Dose));
    assert_eq!(w.nearest_dose(centre, 0), Some((centre, Item::new(Kind::Dose))));
    assert_eq!(top_dose(&vec![Item::new(Kind::Dose), Item::new(Kind::StrongDose), Item::new(Kind::Food)]),
        Some(Item::new(Kind::StrongDose)));
    assert_eq!(top_dose(&vec![Item::new(Kind::Food)]), None);
}

#[test]
fn random_neighbours_are_free_neighbours() {
    let mut w = world(4);
    let centre = point(500, 500);
    let player = point(501, 500);
    let mut rng = Random::from_seed(4);
    for _ in 0..50 {
        let before = rng;
        let open = w.open_neighbours(centre, Walkability::BlockingMonsters, player);
        let p = random_neighbour_position(&mut w, &mut rng, centre, Walkability::BlockingMonsters, player);
        if open.is_empty() {
            assert_eq!(p, centre);
            assert_eq!(rng, before);
        } else {
            assert!(open.contains(&p));
            assert_eq!(p.tile_distance(centre), 1);
            assert_ne!(p, player);
            assert!(w.walkable(p, Walkability::BlockingMonsters));
            assert_eq!(rng.drawn, before.drawn + 1);
        }
    }
    // Walled in on all sides, there is nowhere to go.
    for y in 499..=501 {
        for x in 499..=501 {
            w.set_tile(point(x, y), TileKind::Tree);
        }
    }
    let before = rng;
    assert_eq!(w.random_neighbour_position(&mut rng, centre, Walkability::WalkthroughMonsters, player), centre);
    assert_eq!(rng, before);
    assert!(w.open_neighbours(centre, Walkability::WalkthroughMonsters, player).is_empty());
    w.set_tile(point(501, 500), TileKind::Empty);
    w.set_tile(point(499, 501), TileKind::Empty);
    w.remove_monster(point(499, 501));
    assert_eq!(
        w.random_neighbour_position(&mut rng, centre, Walkability::BlockingMonsters, player),
        point(499, 501)
    );
    assert_eq!(w.open_neighbours(point(i32::MAX, i32::MAX), Walkability::WalkthroughMonsters, player), vec![]);
}

#[test]
fn random_positions_in_range_fit_or_are_none() {
    let mut w = world(12);
    let start = point(-300, 300);
    let player = point(-299, 300);
    let mut rng = Random::from_seed(1);
    let mut found = 0;
    for _ in 0..40 {
        let before = rng;
        match w.random_position_in_range(&mut rng, start, 2, 8, 10, Walkability::BlockingMonsters, player) {
            Some(p) => {
                found += 1;
                let d = p.tile_distance(start);
                assert!((2..=8).contains(&d));
                assert!(w.walkable(p, Walkability::BlockingMonsters));
                assert_ne!(p, player);
                assert!(rng.drawn > before.drawn && (rng.drawn - before.drawn) % 2 == 0);
            }
            None => assert_eq!(rng.drawn, before.drawn + 20),
        }
    }
    assert!(found > 30);
    let before = rng;
    assert_eq!(w.random_position_in_range(&mut rng, start, 2, 8, 0, Walkability::BlockingMonsters, player), None);
    assert_eq!(rng, before);
}

#[test]
fn monsters_and_their_attacks() {
    let cases = [
        (MonsterKind::Anxiety, 1, false, Behavior::LoneAttacker, Damage::AttributeLoss { will: 1, state_of_mind: 0 }),
        (MonsterKind::Depression, 2, false, Behavior::LoneAttacker, Damage::Death),
        (MonsterKind::Hunger, 1, false, Behavior::PackAttacker, Damage::AttributeLoss { will: 0, state_of_mind: 20 }),
        (MonsterKind::Shadows, 1, true, Behavior::LoneAttacker, Damage::Panic(4)),
        (MonsterKind::Voices, 1, true, Behavior::LoneAttacker, Damage::Stun(4)),
        (MonsterKind::Npc, 1, false, Behavior::Friendly, Damage::AttributeLoss { will: 0, state_of_mind: 0 }),
    ];
    for (kind, max_ap, dies, behavior, damage) in cases {
        let mut m = Monster::new(kind, point(1, 2));
        assert_eq!((m.id(), m.position, m.dead), (0, point(1, 2), false));
        assert_eq!((m.max_ap, m.die_after_attack, m.behavior), (max_ap, dies, behavior));
        assert_eq!(m.attack_damage(), damage);
        assert_eq!(m.ai_state, AIState::Idle);
        assert!(!m.has_ap(1));
        assert!(m.has_ap(0));
        m.new_turn();
        assert!(m.has_ap(max_ap));
        assert!(!m.has_ap(max_ap + 1));
        m.spend_ap(1);
        assert!(m.has_ap(max_ap - 1));
        assert!(!m.has_ap(max_ap));
    }
    let post = Monster::new(MonsterKind::Signpost, point(0, 0));
    assert_eq!((post.behavior, post.ai_state), (Behavior::Immobile, AIState::NoOp));
}

#[test]
fn items_by_kind() {
    assert_eq!(Item::new(Kind::Food).modifier, Modifier::Attribute { will: 0, state_of_mind: 10 });
    assert_eq!(Item::new(Kind::Dose).modifier, Modifier::Intoxication { state_of_mind: 70, tolerance_increase: 1 });
    assert_eq!(
        Item::new(Kind::StrongDose).modifier,
        Modifier::Intoxication { state_of_mind: 130, tolerance_increase: 3 }
    );
    assert_eq!(Item::new(Kind::Food).irresistible, 0);
    assert_eq!(Item::new(Kind::Dose).irresistible, 2);
    assert_eq!(Item::new(Kind::StrongDose).irresistible, 4);
    assert!(!Item::new(Kind::Food).is_dose());
    assert!(Item::new(Kind::Dose).is_dose());
    assert!(Item::new(Kind::StrongDose).is_dose());
    assert!(Item::new(Kind::Dose).is_kind(Kind::Dose));
    assert!(!Item::new(Kind::Dose).is_kind(Kind::StrongDose));
}
