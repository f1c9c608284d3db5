//! Ways through the world.
//!
//! A walker looks for a way over the tiles no more than `PATH_REACH` steps
//! from where they stand, on a snapshot of which of them can be walked on,
//! and takes the first step of a shortest way. Of the steps that begin a
//! shortest way the first in the order of the neighbours is taken, so the
//! same walker in the same world takes the same step.

use crate::monster::Walkability;
use crate::pathfinding::{
    before_step, lemma_walk_after_first_step, lemma_walk_from_a_neighbour, shortest_path, step_ok,
    valid_path, Grid, Path,
};
use crate::point::{
    adjacent, lemma_square_points_contains, square_points, tile_distance_spec, Point, SquareArea,
};
use crate::world::World;
use vstd::prelude::*;

verus! {

/// How far around a walker a way is looked for.
pub const PATH_REACH: i32 = 12;

/// A snapshot of which tiles within `half_side` steps of `center` can be
/// walked on.
pub fn walkability_grid(world: &mut World, center: Point, half_side: i32, walkability: Walkability) -> (grid:
    Grid)
    requires
        old(world).wf(),
        0 <= half_side <= 0x3fff,
        i32::MIN < center.x - half_side,
        center.x + half_side < i32::MAX,
        i32::MIN < center.y - half_side,
        center.y + half_side < i32::MAX,
    ensures
        final(world).wf(),
        final(world).same_as(old(world)),
        grid.wf(),
        grid.origin() == (Point { x: (center.x - half_side) as i32, y: (center.y - half_side) as i32 }),
        grid.width() == 2 * half_side + 1,
        grid.height() == 2 * half_side + 1,
        forall|p: Point| #[trigger]
            grid.contains(p) ==> grid.marked(p) == old(world).walkable_spec(p, walkability),
{
    let side: usize = (2 * half_side + 1) as usize;
    let origin = Point { x: center.x - half_side, y: center.y - half_side };
    let mut grid = Grid::new(origin, side, side, false);
    let mut area = SquareArea::new(center, half_side);
    let ghost all = square_points(center, half_side as int);
    let ghost mut seen: Seq<Point> = Seq::empty();
    proof {
        assert(seen + area.remaining() == all);
    }
    loop
        invariant
            world.wf(),
            world.same_as(old(world)),
            grid.wf(),
            grid.origin() == origin,
            grid.width() == side,
            grid.height() == side,
            side == 2 * half_side + 1,
            origin == (Point { x: (center.x - half_side) as i32, y: (center.y - half_side) as i32 }),
            seen + area.remaining() == all,
            forall|p: Point| #[trigger]
                grid.contains(p) ==>
                    grid.marked(p) == (seen.contains(p) && old(world).walkable_spec(p, walkability)),
        ensures
            seen == all,
        decreases area.remaining().len(),
    {
        let ghost seen_before = seen;
        let ghost grid_before = grid;
        let ghost mid = *world;
        match area.next() {
            None => {
                proof {
                    assert(seen + Seq::<Point>::empty() == seen);
                }
                break ;
            },
            Some(p) => {
                let ok = world.walkable(p, walkability);
                grid.set_walkable(p, ok);
                proof {
                    assert(mid.cell_at(p) == old(world).cell_at(p));
                    seen = seen.push(p);
                    assert(seen_before.push(p) + area.remaining() == seen_before + (seq![p]
                        + area.remaining()));
                    assert(seen[seen_before.len() as int] == p);
                    assert forall|q: Point| #[trigger] grid.contains(q) implies grid.marked(q) == (
                    seen.contains(q) && old(world).walkable_spec(q, walkability)) by {
                        assert(grid_before.contains(q));
                        if q != p {
                            if seen.contains(q) {
                                let a = choose|a: int| 0 <= a < seen.len() && seen[a] == q;
                                assert(seen_before[a] == q);
                            }
                            if seen_before.contains(q) {
                                let a = choose|a: int|
                                    0 <= a < seen_before.len() && seen_before[a] == q;
                                assert(seen[a] == q);
                            }
                        }
                    }
                }
            },
        }
    }
    proof {
        assert forall|p: Point| #[trigger] grid.contains(p) implies grid.marked(p) == old(world).walkable_spec(p, walkability) by {
            lemma_square_points_contains(center, half_side, p);
        }
    }
    grid
}

/// Whether a walker who set out from `from` may step on `p`: the tile lies
/// no more than `PATH_REACH` steps from where they set out, and it can be
/// walked on.
pub open spec fn may_step_on(world: World, walkability: Walkability, from: Point, p: Point) -> bool {
    tile_distance_spec(from, p) <= PATH_REACH && world.walkable_spec(p, walkability)
}

/// `way` is a way from `from` to `to`: each of its tiles touches the one
/// before, the first touches `from`, the walker may step on every one, and
/// the last is `to`. The way from a tile to itself has no tiles.
pub open spec fn is_way(
    world: World,
    walkability: Walkability,
    from: Point,
    to: Point,
    way: Seq<Point>,
) -> bool {
    &&& forall|i: int|
        0 <= i < way.len() ==> adjacent(before_step(from, way, i), #[trigger] way[i]) && may_step_on(
            world,
            walkability,
            from,
            way[i],
        )
    &&& if way.len() == 0 {
        from == to
    } else {
        way.last() == to
    }
}

/// `way` is a way from `from` to `to`, and no way is shorter.
pub open spec fn is_shortest_way(
    world: World,
    walkability: Walkability,
    from: Point,
    to: Point,
    way: Seq<Point>,
) -> bool {
    &&& is_way(world, walkability, from, to, way)
    &&& forall|other: Seq<Point>| #[trigger]
        is_way(world, walkability, from, to, other) ==> way.len() <= other.len()
}

/// There is a way from `from` to `to`, `to` is not `from`, and a shortest
/// way has no more than `longest` steps.
pub open spec fn short_way_exists(
    world: World,
    walkability: Walkability,
    from: Point,
    to: Point,
    longest: int,
) -> bool {
    exists|way: Seq<Point>| #[trigger]
        is_shortest_way(world, walkability, from, to, way) && 0 < way.len() <= longest
}

/// A shortest way from `from` to `to` has no more than `longest` steps and
/// begins with a step on `step`.
pub open spec fn begins_shortest_way(
    world: World,
    walkability: Walkability,
    from: Point,
    to: Point,
    longest: int,
    step: Point,
) -> bool {
    exists|way: Seq<Point>| #[trigger]
        is_shortest_way(world, walkability, from, to, way) && 0 < way.len() <= longest && way[0]
            == step
}

/// `grid` shows which of the tiles within `PATH_REACH` steps of `from` can
/// be walked on in `world`.
#[verifier::opaque]
pub open spec fn is_snapshot(grid: Grid, world: World, walkability: Walkability, from: Point) -> bool {
    &&& grid.origin() == (Point { x: (from.x - PATH_REACH) as i32, y: (from.y - PATH_REACH) as i32 })
    &&& i32::MIN <= from.x - PATH_REACH
    &&& i32::MIN <= from.y - PATH_REACH
    &&& grid.width() == 2 * PATH_REACH + 1
    &&& grid.height() == 2 * PATH_REACH + 1
    &&& forall|p: Point| #[trigger]
        grid.contains(p) ==> grid.marked(p) == world.walkable_spec(p, walkability)
}

/// A snapshot of the tiles around `from` holds the ways of the world that
/// begin there, and no others.
proof fn lemma_ways_of_the_snapshot(
    world: World,
    walkability: Walkability,
    from: Point,
    to: Point,
    grid: Grid,
    way: Seq<Point>,
)
    requires
        is_snapshot(grid, world, walkability, from),
    ensures
        valid_path(grid, from, to, way) == is_way(world, walkability, from, to, way),
{
    reveal(is_snapshot);
    assert(grid.contains(from));
    assert forall|p: Point| grid.contains(p) == (tile_distance_spec(from, p) <= PATH_REACH) by {}
    if valid_path(grid, from, to, way) {
        assert forall|i: int| 0 <= i < way.len() implies adjacent(
            before_step(from, way, i),
            #[trigger] way[i],
        ) && may_step_on(world, walkability, from, way[i]) by {
            assert(step_ok(grid, before_step(from, way, i), way[i]));
            assert(grid.contains(way[i]));
        }
    }
    if is_way(world, walkability, from, to, way) {
        assert forall|i: int| 0 <= i < way.len() implies step_ok(
            grid,
            before_step(from, way, i),
            #[trigger] way[i],
        ) by {
            assert(may_step_on(world, walkability, from, way[i]));
            assert(grid.contains(way[i]));
        }
    }
}

/// A shortest way in a snapshot of the tiles around `from` is a shortest
/// way of the world.
#[verifier::rlimit(40)]
proof fn lemma_shortest_ways_of_the_snapshot(
    world: World,
    walkability: Walkability,
    from: Point,
    to: Point,
    grid: Grid,
    way: Seq<Point>,
)
    requires
        is_snapshot(grid, world, walkability, from),
    ensures
        shortest_path(grid, from, to, way) == is_shortest_way(world, walkability, from, to, way),
{
    lemma_ways_of_the_snapshot(world, walkability, from, to, grid, way);
    if shortest_path(grid, from, to, way) {
        assert forall|other: Seq<Point>| #[trigger]
            is_way(world, walkability, from, to, other) implies way.len() <= other.len() by {
            lemma_ways_of_the_snapshot(world, walkability, from, to, grid, other);
        }
    }
    if is_shortest_way(world, walkability, from, to, way) {
        assert forall|other: Seq<Point>| #[trigger]
            valid_path(grid, from, to, other) implies way.len() <= other.len() by {
            lemma_ways_of_the_snapshot(world, walkability, from, to, grid, other);
        }
    }
}

/// A shortest walk over the grid from `from` to `to` has no more than
/// `longest` steps and begins with a step on `q`.
pub open spec fn leads(grid: Grid, from: Point, to: Point, longest: int, q: Point) -> bool {
    exists|steps: Seq<Point>| #[trigger]
        shortest_path(grid, from, to, steps) && 0 < steps.len() <= longest && steps[0] == q
}

/// The first of the neighbours of `from`, from the `k`-th on, with which a
/// shortest walk to `to` of no more than `longest` steps begins.
pub open spec fn first_leading(grid: Grid, from: Point, to: Point, longest: int, k: int) -> Option<
    Point,
>
    decreases 8 - k,
{
    if k < 0 || k >= 8 {
        None
    } else {
        match crate::world::neighbour(from, k) {
            Some(q) => if leads(grid, from, to, longest, q) {
                Some(q)
            } else {
                first_leading(grid, from, to, longest, k + 1)
            },
            None => first_leading(grid, from, to, longest, k + 1),
        }
    }
}

/// `steps` is a shortest walk from `from` to `to`, or there is no walk
/// and `steps` is `None`.
#[verifier::opaque]
pub open spec fn is_best(grid: Grid, from: Point, to: Point, steps: Option<Seq<Point>>) -> bool {
    match steps {
        Some(walk) => shortest_path(grid, from, to, walk),
        None => forall|other: Seq<Point>| !#[trigger] valid_path(grid, from, to, other),
    }
}

/// Whether a shortest walk of `n` steps from `from` to `to` begins with a
/// step on the neighbour `q`: it does where one can step on `q` and a
/// shortest walk from there has one step less.
#[verifier::rlimit(40)]
proof fn lemma_leads(
    grid: Grid,
    from: Point,
    to: Point,
    longest: int,
    q: Point,
    whole: Seq<Point>,
    rest: Option<Seq<Point>>,
)
    requires
        is_best(grid, from, to, Some(whole)),
        0 < whole.len() <= longest,
        adjacent(from, q),
        is_best(grid, q, to, rest),
    ensures
        leads(grid, from, to, longest, q) <==> (grid.walkable_spec(q) && rest is Some
            && rest->0.len() + 1 == whole.len()),
{
    reveal(is_best);
    if grid.walkable_spec(q) && rest is Some && rest->0.len() + 1 == whole.len() {
        let steps = seq![q] + rest->0;
        lemma_walk_from_a_neighbour(grid, from, q, to, rest->0);
        assert(steps[0] == q);
        assert(shortest_path(grid, from, to, steps));
    }
    if leads(grid, from, to, longest, q) {
        let steps = choose|steps: Seq<Point>| #[trigger]
            shortest_path(grid, from, to, steps) && 0 < steps.len() <= longest && steps[0] == q;
        assert(valid_path(grid, from, to, whole));
        assert(valid_path(grid, from, to, steps));
        assert(steps.len() == whole.len());
        lemma_walk_after_first_step(grid, from, to, steps);
        let tail = steps.drop_first();
        assert(valid_path(grid, q, to, tail));
        let found = rest->0;
        lemma_walk_from_a_neighbour(grid, from, q, to, found);
        assert(valid_path(grid, from, to, seq![q] + found));
    }
}

/// A shortest walk from `from` to `to` has `n` steps.
#[verifier::opaque]
pub open spec fn shortest_has(grid: Grid, from: Point, to: Point, n: int) -> bool {
    exists|whole: Seq<Point>| #[trigger] is_best(grid, from, to, Some(whole)) && whole.len() == n
}

/// Whether a shortest walk from `from` to `to`, which has `n` steps,
/// begins with a step on the neighbour `q`.
fn begins_walk(from: Point, to: Point, grid: &Grid, longest: usize, q: Point, n: usize) -> (b: bool)
    requires
        grid.wf(),
        adjacent(from, q),
        0 < n <= longest,
        shortest_has(*grid, from, to, n as int),
    ensures
        b == leads(*grid, from, to, longest as int, q),
{
    let open = grid.is_walkable(q);
    let ghost whole: Seq<Point>;
    proof {
        reveal(shortest_has);
        whole = choose|whole: Seq<Point>| #[trigger]
            is_best(*grid, from, to, Some(whole)) && whole.len() == n;
    }
    match Path::find(q, to, grid) {
        Some(path) => {
            proof {
                assert(is_best(*grid, q, to, Some(path@))) by {
                    reveal(is_best);
                }
                lemma_leads(*grid, from, to, longest as int, q, whole, Some(path@));
            }
            open && path.len() == n - 1
        },
        None => {
            proof {
                assert(is_best(*grid, q, to, None)) by {
                    reveal(is_best);
                }
                lemma_leads(*grid, from, to, longest as int, q, whole, None);
            }
            false
        },
    }
}

/// The first neighbour of `from`, in their order, with which a shortest
/// walk to `to` of no more than `longest` steps begins.
#[verifier::rlimit(40)]
pub fn first_step_in_order(from: Point, to: Point, grid: &Grid, longest: usize) -> (step: Option<
    Point,
>)
    requires
        grid.wf(),
    ensures
        step == first_leading(*grid, from, to, longest as int, 0),
{
    let n = match shortest_length(from, to, grid, longest) {
        Some(n) => n,
        None => {
            proof {
                lemma_nothing_leads(*grid, from, to, longest as int, 0);
            }
            return None;
        },
    };
    let mut k: usize = 0;
    while k < 8
        invariant
            grid.wf(),
            k <= 8,
            shortest_has(*grid, from, to, n as int),
            0 < n <= longest,
            first_leading(*grid, from, to, longest as int, 0) == first_leading(
                *grid,
                from,
                to,
                longest as int,
                k as int,
            ),
        decreases 8 - k,
    {
        match crate::world::nth_neighbour(from, k) {
            Some(q) => {
                if begins_walk(from, to, grid, longest, q, n) {
                    return Some(q);
                }
            },
            None => {},
        }
        k = k + 1;
    }
    None
}

/// How many steps a shortest walk from `from` to `to` has, if there is a
/// walk with a step in it and a shortest one has no more than `longest`.
fn shortest_length(from: Point, to: Point, grid: &Grid, longest: usize) -> (found: Option<usize>)
    requires
        grid.wf(),
    ensures
        found matches Some(n) ==> 0 < n <= longest && shortest_has(*grid, from, to, n as int),
        found is None ==> forall|q: Point| !leads(*grid, from, to, longest as int, q),
{
    match Path::find(from, to, grid) {
        Some(whole) => {
            let n = whole.len();
            proof {
                assert(shortest_path(*grid, from, to, whole@));
                assert(is_best(*grid, from, to, Some(whole@))) by {
                    reveal(is_best);
                }
                assert(shortest_has(*grid, from, to, n as int)) by {
                    reveal(shortest_has);
                }
            }
            if n == 0 || n > longest {
                proof {
                    assert forall|q: Point| !leads(*grid, from, to, longest as int, q) by {
                        if leads(*grid, from, to, longest as int, q) {
                            let steps = choose|steps: Seq<Point>| #[trigger]
                                shortest_path(*grid, from, to, steps) && 0 < steps.len() <= longest
                                    && steps[0] == q;
                            assert(valid_path(*grid, from, to, steps));
                            assert(valid_path(*grid, from, to, whole@));
                        }
                    }
                }
                None
            } else {
                Some(n)
            }
        },
        None => {
            proof {
                assert forall|q: Point| !leads(*grid, from, to, longest as int, q) by {
                    if leads(*grid, from, to, longest as int, q) {
                        let steps = choose|steps: Seq<Point>| #[trigger]
                            shortest_path(*grid, from, to, steps) && 0 < steps.len() <= longest
                                && steps[0] == q;
                        assert(valid_path(*grid, from, to, steps));
                    }
                }
            }
            None
        },
    }
}

/// Where no shortest walk of a fitting length begins with any tile, none
/// of the neighbours leads on.
proof fn lemma_nothing_leads(grid: Grid, from: Point, to: Point, longest: int, k: int)
    requires
        forall|q: Point| !leads(grid, from, to, longest, q),
    ensures
        first_leading(grid, from, to, longest, k) is None,
    decreases 8 - k,
{
    if 0 <= k < 8 {
        lemma_nothing_leads(grid, from, to, longest, k + 1);
    }
}

/// The first of the neighbours of `from`, from the `k`-th on, with which a
/// shortest way to `to` of no more than `longest` steps begins.
pub open spec fn towards_from(
    world: World,
    walkability: Walkability,
    from: Point,
    to: Point,
    longest: int,
    k: int,
) -> Option<Point>
    decreases 8 - k,
{
    if k < 0 || k >= 8 {
        None
    } else {
        match crate::world::neighbour(from, k) {
            Some(q) => if begins_shortest_way(world, walkability, from, to, longest, q) {
                Some(q)
            } else {
                towards_from(world, walkability, from, to, longest, k + 1)
            },
            None => towards_from(world, walkability, from, to, longest, k + 1),
        }
    }
}

/// The step that a walker on `from` takes towards `to`: the first of the
/// neighbouring tiles, in the order north, south, west, east, north-west,
/// north-east, south-west, south-east, with which a shortest way of no
/// more than `longest` steps begins. `None` where there is no such way.
pub open spec fn towards(
    world: World,
    walkability: Walkability,
    from: Point,
    to: Point,
    longest: int,
) -> Option<Point> {
    towards_from(world, walkability, from, to, longest, 0)
}

/// The step towards `to` begins a shortest way, and there is a step
/// whenever there is a way with a step in it that is short enough.
pub proof fn lemma_towards(
    world: World,
    walkability: Walkability,
    from: Point,
    to: Point,
    longest: int,
)
    ensures
        towards(world, walkability, from, to, longest) matches Some(q) ==> begins_shortest_way(
            world,
            walkability,
            from,
            to,
            longest,
            q,
        ),
        towards(world, walkability, from, to, longest) is Some <==> short_way_exists(
            world,
            walkability,
            from,
            to,
            longest,
        ),
{
    lemma_towards_from(world, walkability, from, to, longest, 0);
    if short_way_exists(world, walkability, from, to, longest) {
        let way = choose|way: Seq<Point>| #[trigger]
            is_shortest_way(world, walkability, from, to, way) && 0 < way.len() <= longest;
        assert(adjacent(before_step(from, way, 0), way[0]));
        crate::world::lemma_adjacent_is_a_neighbour(from, way[0]);
        let k = choose|k: int| 0 <= k < 8 && #[trigger] crate::world::neighbour(from, k) == Some(
            way[0],
        );
        assert(begins_shortest_way(world, walkability, from, to, longest, way[0]));
    }
}

/// What `towards_from` finds begins a shortest way; and it finds
/// something where one of the neighbours it looks at does.
proof fn lemma_towards_from(
    world: World,
    walkability: Walkability,
    from: Point,
    to: Point,
    longest: int,
    k: int,
)
    requires
        0 <= k <= 8,
    ensures
        towards_from(world, walkability, from, to, longest, k) matches Some(q)
            ==> begins_shortest_way(world, walkability, from, to, longest, q),
        forall|j: int|
            k <= j < 8 && (#[trigger] crate::world::neighbour(from, j)) is Some
                && begins_shortest_way(
                world,
                walkability,
                from,
                to,
                longest,
                crate::world::neighbour(from, j)->0,
            ) ==> towards_from(world, walkability, from, to, longest, k) is Some,
    decreases 8 - k,
{
    if k < 8 {
        lemma_towards_from(world, walkability, from, to, longest, k + 1);
    }
}

/// The first neighbour that leads on in a snapshot of the tiles around
/// `from` is the step towards `to` in the world.
proof fn lemma_step_of_the_snapshot(
    world: World,
    walkability: Walkability,
    from: Point,
    to: Point,
    longest: int,
    grid: Grid,
    k: int,
)
    requires
        is_snapshot(grid, world, walkability, from),
        0 <= k <= 8,
    ensures
        first_leading(grid, from, to, longest, k) == towards_from(
            world,
            walkability,
            from,
            to,
            longest,
            k,
        ),
    decreases 8 - k,
{
    if k < 8 {
        lemma_step_of_the_snapshot(world, walkability, from, to, longest, grid, k + 1);
        match crate::world::neighbour(from, k) {
            Some(q) => {
                assert forall|way: Seq<Point>|
                    #![trigger shortest_path(grid, from, to, way)]
                    #![trigger is_shortest_way(world, walkability, from, to, way)]
                    shortest_path(grid, from, to, way) == is_shortest_way(
                        world,
                        walkability,
                        from,
                        to,
                        way,
                    ) by {
                    lemma_shortest_ways_of_the_snapshot(world, walkability, from, to, grid, way);
                }
                assert(leads(grid, from, to, longest, q) == begins_shortest_way(
                    world,
                    walkability,
                    from,
                    to,
                    longest,
                    q,
                ));
            },
            None => {},
        }
    }
}

/// The step that a walker on `from` takes towards `to` over the tiles
/// within `PATH_REACH` steps of `from` that can be walked on: the first
/// step of a shortest way of no more than `longest` steps, if there is
/// one.
pub fn step_towards(
    world: &mut World,
    from: Point,
    to: Point,
    walkability: Walkability,
    longest: usize,
) -> (step: Option<Point>)
    requires
        old(world).wf(),
        old(world).within_bounds_spec(from),
    ensures
        final(world).wf(),
        final(world).same_as(old(world)),
        step == towards(*old(world), walkability, from, to, longest as int),
        step is Some <==> short_way_exists(*old(world), walkability, from, to, longest as int),
        step matches Some(p) ==> begins_shortest_way(
            *old(world),
            walkability,
            from,
            to,
            longest as int,
            p,
        ),
        step matches Some(p) ==> tile_distance_spec(from, p) == 1 && old(world).walkable_spec(
            p,
            walkability,
        ) && from != to,
{
    proof {
        world.lemma_extent();
    }
    let grid = walkability_grid(world, from, PATH_REACH, walkability);
    let step = first_step_in_order(from, to, &grid, longest);
    proof {
        assert(is_snapshot(grid, *old(world), walkability, from)) by {
            reveal(is_snapshot);
        }
        lemma_step_of_the_snapshot(*old(world), walkability, from, to, longest as int, grid, 0);
        lemma_towards(*old(world), walkability, from, to, longest as int);
        match step {
            Some(p) => {
                let way = choose|way: Seq<Point>| #[trigger]
                    is_shortest_way(*old(world), walkability, from, to, way) && 0 < way.len()
                        <= longest && way[0] == p;
                assert(adjacent(before_step(from, way, 0), way[0]));
                assert(may_step_on(*old(world), walkability, from, way[0]));
                if from == to {
                    assert(is_way(*old(world), walkability, from, to, Seq::<Point>::empty()));
                }
            },
            None => {},
        }
    }
    step
}

/// One can step on the same tiles of the two worlds.
pub open spec fn same_ground(a: World, b: World, walkability: Walkability) -> bool {
    forall|p: Point| #[trigger]
        a.walkable_spec(p, walkability) == b.walkable_spec(p, walkability)
}

/// Two worlds with the same ground have the same ways.
proof fn lemma_same_world_same_way(
    a: World,
    b: World,
    walkability: Walkability,
    from: Point,
    to: Point,
    way: Seq<Point>,
)
    requires
        same_ground(a, b, walkability),
    ensures
        is_way(a, walkability, from, to, way) == is_way(b, walkability, from, to, way),
{
    assert forall|p: Point|
        may_step_on(a, walkability, from, p) == may_step_on(b, walkability, from, p) by {
        assert(a.walkable_spec(p, walkability) == b.walkable_spec(p, walkability));
    }
}

/// Two worlds with the same ground have the same shortest ways.
proof fn lemma_same_world_same_shortest_way(
    a: World,
    b: World,
    walkability: Walkability,
    from: Point,
    to: Point,
    way: Seq<Point>,
)
    requires
        same_ground(a, b, walkability),
    ensures
        is_shortest_way(a, walkability, from, to, way) == is_shortest_way(
            b,
            walkability,
            from,
            to,
            way,
        ),
{
    lemma_same_world_same_way(a, b, walkability, from, to, way);
    if is_shortest_way(a, walkability, from, to, way) {
        assert forall|other: Seq<Point>| #[trigger]
            is_way(b, walkability, from, to, other) implies way.len() <= other.len() by {
            lemma_same_world_same_way(a, b, walkability, from, to, other);
        }
    }
    if is_shortest_way(b, walkability, from, to, way) {
        assert forall|other: Seq<Point>| #[trigger]
            is_way(a, walkability, from, to, other) implies way.len() <= other.len() by {
            lemma_same_world_same_way(a, b, walkability, from, to, other);
        }
    }
}

/// Two worlds with the same ground have the same step towards a tile.
pub proof fn lemma_same_ground_same_step(
    a: World,
    b: World,
    walkability: Walkability,
    from: Point,
    to: Point,
    longest: int,
    k: int,
)
    requires
        same_ground(a, b, walkability),
        0 <= k <= 8,
    ensures
        towards_from(a, walkability, from, to, longest, k) == towards_from(
            b,
            walkability,
            from,
            to,
            longest,
            k,
        ),
    decreases 8 - k,
{
    if k < 8 {
        lemma_same_ground_same_step(a, b, walkability, from, to, longest, k + 1);
        match crate::world::neighbour(from, k) {
            Some(q) => {
                assert forall|way: Seq<Point>|
                    #![trigger is_shortest_way(a, walkability, from, to, way)]
                    #![trigger is_shortest_way(b, walkability, from, to, way)]
                    is_shortest_way(a, walkability, from, to, way) == is_shortest_way(
                        b,
                        walkability,
                        from,
                        to,
                        way,
                    ) by {
                    lemma_same_world_same_shortest_way(a, b, walkability, from, to, way);
                }
                assert(begins_shortest_way(a, walkability, from, to, longest, q)
                    == begins_shortest_way(b, walkability, from, to, longest, q));
            },
            None => {},
        }
    }
}

} // verus!
