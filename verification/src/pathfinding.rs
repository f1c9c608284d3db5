//! Shortest paths over a grid of tiles.
//!
//! A step goes from a tile to one of its eight neighbours and may only end
//! on a tile that can be walked on. Which tiles those are is a snapshot the
//! caller takes for each search: whoever stands where may have changed
//! since the last one.
//!
//! The search works in rounds. Round `k` gives every tile that is `k` steps
//! from the start, and no fewer, the number `k`. It ends when a round finds
//! no new tile.

use crate::point::{adjacent, Point};
use vstd::prelude::*;

verus! {

/// The number of a tile that no round has reached.
pub const UNREACHED: u32 = 0xffff_ffff;

/// The longest side a grid may have.
pub const MAX_SIDE: usize = 0x8000;

/// Which tiles of a rectangle of the world can be walked on.
#[derive(Debug)]
pub struct Grid {
    origin: Point,
    width: usize,
    height: usize,
    cells: Vec<Vec<bool>>,
}

impl Grid {
    pub closed spec fn wf(&self) -> bool {
        &&& self.width <= MAX_SIDE
        &&& self.height <= MAX_SIDE
        &&& i32::MIN < self.origin.x
        &&& i32::MIN < self.origin.y
        &&& self.origin.x + self.width <= i32::MAX
        &&& self.origin.y + self.height <= i32::MAX
        &&& self.cells@.len() == self.height
        &&& forall|y: int| 0 <= y < self.height ==> (#[trigger] self.cells@[y])@.len() == self.width
    }

    /// The top left tile of the rectangle.
    pub closed spec fn origin(&self) -> Point {
        self.origin
    }

    /// The number of columns.
    pub closed spec fn width(&self) -> int {
        self.width as int
    }

    /// The number of rows.
    pub closed spec fn height(&self) -> int {
        self.height as int
    }

    /// Whether the tile `p` lies in the rectangle.
    pub open spec fn contains(&self, p: Point) -> bool {
        &&& self.origin().x <= p.x < self.origin().x + self.width()
        &&& self.origin().y <= p.y < self.origin().y + self.height()
    }

    /// Whether the tile `p` of the rectangle is marked as one to walk on.
    pub closed spec fn marked(&self, p: Point) -> bool {
        self.cells@[p.y - self.origin.y]@[p.x - self.origin.x]
    }

    /// Whether the tile `p` can be walked on. No tile outside the rectangle
    /// can.
    pub open spec fn walkable_spec(&self, p: Point) -> bool {
        self.contains(p) && self.marked(p)
    }

    /// A grid of `width` columns and `height` rows whose top left tile is
    /// `origin`, with every tile walkable or none.
    pub fn new(origin: Point, width: usize, height: usize, walkable: bool) -> (grid: Grid)
        requires
            width <= MAX_SIDE,
            height <= MAX_SIDE,
            i32::MIN < origin.x,
            i32::MIN < origin.y,
            origin.x + width <= i32::MAX,
            origin.y + height <= i32::MAX,
        ensures
            grid.wf(),
            grid.origin() == origin,
            grid.width() == width,
            grid.height() == height,
            forall|p: Point| grid.contains(p) ==> #[trigger] grid.marked(p) == walkable,
    {
        let mut cells: Vec<Vec<bool>> = Vec::new();
        let mut y: usize = 0;
        while y < height
            invariant
                y <= height,
                cells@.len() == y,
                forall|j: int| 0 <= j < y ==> (#[trigger] cells@[j])@.len() == width,
                forall|j: int, i: int|
                    0 <= j < y && 0 <= i < width ==> (#[trigger] cells@[j]@[i]) == walkable,
            decreases height - y,
        {
            let mut row: Vec<bool> = Vec::new();
            let mut x: usize = 0;
            while x < width
                invariant
                    x <= width,
                    row@.len() == x,
                    forall|i: int| 0 <= i < x ==> (#[trigger] row@[i]) == walkable,
                decreases width - x,
            {
                row.push(walkable);
                x = x + 1;
            }
            cells.push(row);
            y = y + 1;
        }
        Grid { origin, width, height, cells }
    }

    /// Marks the tile `p` as one that can or cannot be walked on. Nothing
    /// happens for a tile outside the rectangle.
    pub fn set_walkable(&mut self, p: Point, walkable: bool)
        requires
            old(self).wf(),
        ensures
            final(self).wf(),
            final(self).origin() == old(self).origin(),
            final(self).width() == old(self).width(),
            final(self).height() == old(self).height(),
            forall|q: Point|
                final(self).contains(q) ==> #[trigger] final(self).marked(q) == if q == p {
                    walkable
                } else {
                    old(self).marked(q)
                },
    {
        if self.has(p) {
            let x = (p.x as i64 - self.origin.x as i64) as usize;
            let y = (p.y as i64 - self.origin.y as i64) as usize;
            self.cells[y][x] = walkable;
        }
    }

    /// Whether the tile `p` lies in the rectangle.
    pub fn has(&self, p: Point) -> (b: bool)
        requires
            self.wf(),
        ensures
            b == self.contains(p),
    {
        let x = p.x as i64 - self.origin.x as i64;
        let y = p.y as i64 - self.origin.y as i64;
        0 <= x && x < self.width as i64 && 0 <= y && y < self.height as i64
    }

    /// Whether the tile `p` can be walked on.
    pub fn is_walkable(&self, p: Point) -> (b: bool)
        requires
            self.wf(),
        ensures
            b == self.walkable_spec(p),
    {
        if self.has(p) {
            let x = (p.x as i64 - self.origin.x as i64) as usize;
            let y = (p.y as i64 - self.origin.y as i64) as usize;
            self.cells[y][x]
        } else {
            false
        }
    }
}

/// A step from `a` to `b`: the two tiles touch and `b` can be walked on.
pub open spec fn step_ok(grid: Grid, a: Point, b: Point) -> bool {
    adjacent(a, b) && grid.walkable_spec(b)
}

/// The tile a walk stands on before its `i`-th step.
pub open spec fn before_step(from: Point, steps: Seq<Point>, i: int) -> Point {
    if i == 0 {
        from
    } else {
        steps[i - 1]
    }
}

/// `steps` are the tiles of a walk from `from` to `to`, without `from`
/// itself: the walk starts inside the grid, every step is allowed, and the
/// walk ends on `to`. The walk from a tile to itself has no steps.
pub open spec fn valid_path(grid: Grid, from: Point, to: Point, steps: Seq<Point>) -> bool {
    &&& grid.contains(from)
    &&& forall|i: int|
        0 <= i < steps.len() ==> step_ok(grid, before_step(from, steps, i), #[trigger] steps[i])
    &&& if steps.len() == 0 {
        from == to
    } else {
        steps.last() == to
    }
}

/// There is a walk of exactly `n` steps from `from` to `p`.
#[verifier::opaque]
pub open spec fn reachable_in(grid: Grid, from: Point, p: Point, n: nat) -> bool
    decreases n,
{
    if n == 0 {
        p == from && grid.contains(from)
    } else {
        exists|q: Point| reachable_in(grid, from, q, (n - 1) as nat) && #[trigger] step_ok(grid, q, p)
    }
}

/// In no steps one reaches the start, if it lies in the grid, and nothing
/// else.
pub proof fn lemma_reach_start(grid: Grid, from: Point, p: Point)
    ensures
        reachable_in(grid, from, p, 0) <==> (p == from && grid.contains(from)),
{
    reveal_with_fuel(reachable_in, 2);
}

/// One more step from a tile that can be reached.
pub proof fn lemma_reach_step(grid: Grid, from: Point, q: Point, p: Point, n: nat)
    requires
        reachable_in(grid, from, q, n),
        step_ok(grid, q, p),
    ensures
        reachable_in(grid, from, p, n + 1),
{
    reveal_with_fuel(reachable_in, 2);
    assert(reachable_in(grid, from, q, ((n + 1) - 1) as nat));
}

/// The tile before the last of a walk.
pub proof fn lemma_reach_before(grid: Grid, from: Point, p: Point, n: nat) -> (q: Point)
    requires
        n > 0,
        reachable_in(grid, from, p, n),
    ensures
        reachable_in(grid, from, q, (n - 1) as nat),
        step_ok(grid, q, p),
        grid.contains(q),
        grid.contains(p),
{
    reveal_with_fuel(reachable_in, 2);
    let q = choose|q: Point|
        reachable_in(grid, from, q, (n - 1) as nat) && #[trigger] step_ok(grid, q, p);
    lemma_reachable_is_inside(grid, from, q, (n - 1) as nat);
    q
}

/// Only tiles of the grid can be reached.
pub proof fn lemma_reachable_is_inside(grid: Grid, from: Point, p: Point, n: nat)
    requires
        reachable_in(grid, from, p, n),
    ensures
        grid.contains(p),
{
    reveal_with_fuel(reachable_in, 2);
}

/// A walk of `n` steps shows that its end can be reached in `n` steps.
pub proof fn lemma_path_reaches(grid: Grid, from: Point, to: Point, steps: Seq<Point>)
    requires
        valid_path(grid, from, to, steps),
    ensures
        reachable_in(grid, from, to, steps.len()),
    decreases steps.len(),
{
    if steps.len() == 0 {
        lemma_reach_start(grid, from, to);
    } else {
        let shorter = steps.drop_last();
        let last = steps.len() - 1;
        let q = before_step(from, steps, last);
        assert(step_ok(grid, q, steps[last]));
        assert forall|i: int| 0 <= i < shorter.len() implies step_ok(
            grid,
            before_step(from, shorter, i),
            #[trigger] shorter[i],
        ) by {
            assert(step_ok(grid, before_step(from, steps, i), steps[i]));
        }
        assert(valid_path(grid, from, q, shorter));
        lemma_path_reaches(grid, from, q, shorter);
        lemma_reach_step(grid, from, q, to, shorter.len());
    }
}

/// The number the search has given the tile `p`.
pub open spec fn number_of(grid: Grid, numbers: Seq<Vec<u32>>, p: Point) -> u32 {
    numbers[p.y - grid.origin().y]@[p.x - grid.origin().x]
}

/// The numbers have the shape of the grid.
pub open spec fn same_shape(grid: Grid, numbers: Seq<Vec<u32>>) -> bool {
    &&& numbers.len() == grid.height()
    &&& forall|y: int| 0 <= y < grid.height() ==> (#[trigger] numbers[y])@.len() == grid.width()
}

/// The tile `p` cannot be reached in `depth` steps or fewer.
pub open spec fn out_of_reach(grid: Grid, from: Point, p: Point, depth: int) -> bool {
    forall|n: nat| n <= depth ==> !#[trigger] reachable_in(grid, from, p, n)
}

/// The tile `p` cannot be reached in fewer than `v` steps.
pub open spec fn not_sooner(grid: Grid, from: Point, p: Point, v: int) -> bool {
    forall|n: nat| n < v ==> !#[trigger] reachable_in(grid, from, p, n)
}

/// The tile `p` touches a tile of the grid that has the number `v`.
pub open spec fn touches_number(grid: Grid, numbers: Seq<Vec<u32>>, p: Point, v: int) -> bool {
    exists|q: Point|
        grid.contains(q) && adjacent(q, p) && #[trigger] number_of(grid, numbers, q) == v
}

/// What holds of the number `v` of the tile `p`: a tile with a number can
/// be reached in that many steps and no fewer, the number is no more than
/// `bound`, and but for the start the tile was reached from a tile with the
/// number before; a tile without a number cannot be reached in `depth`
/// steps or fewer.
pub open spec fn tile_ok(
    grid: Grid,
    from: Point,
    numbers: Seq<Vec<u32>>,
    bound: int,
    depth: int,
    p: Point,
) -> bool {
    let v = number_of(grid, numbers, p);
    &&& (v == 0 <==> p == from)
    &&& v != UNREACHED ==> {
        &&& v <= bound
        &&& reachable_in(grid, from, p, v as nat)
        &&& not_sooner(grid, from, p, v as int)
    }
    &&& 0 < v < UNREACHED ==> grid.walkable_spec(p) && touches_number(grid, numbers, p, v - 1)
    &&& v == UNREACHED ==> out_of_reach(grid, from, p, depth)
}

/// Every tile of the grid is as [`tile_ok`] asks.
#[verifier::opaque]
pub open spec fn tiles_ok(
    grid: Grid,
    from: Point,
    numbers: Seq<Vec<u32>>,
    bound: int,
    depth: int,
) -> bool {
    &&& same_shape(grid, numbers)
    &&& grid.contains(from)
    &&& forall|p: Point| #[trigger] grid.contains(p) ==> tile_ok(grid, from, numbers, bound, depth, p)
}

/// Tiles that are as they should be have the shape of the grid.
proof fn lemma_tiles_shape(grid: Grid, from: Point, numbers: Seq<Vec<u32>>, bound: int, depth: int)
    requires
        tiles_ok(grid, from, numbers, bound, depth),
    ensures
        same_shape(grid, numbers),
        grid.contains(from),
{
    reveal(tiles_ok);
}

/// The round that `q` takes part in has dealt with `q`: every neighbour of
/// `q` that can be walked on has a number.
pub open spec fn dealt_with(grid: Grid, numbers: Seq<Vec<u32>>, q: Point) -> bool {
    forall|p: Point|
        #![trigger number_of(grid, numbers, p)]
        adjacent(q, p) && grid.walkable_spec(p) ==> number_of(grid, numbers, p) != UNREACHED
}

/// The search is over: every tile that can be reached at all has as its
/// number the fewest steps that lead to it, and no other tile has a
/// number.
pub open spec fn search_over(grid: Grid, from: Point, numbers: Seq<Vec<u32>>) -> bool {
    &&& same_shape(grid, numbers)
    &&& grid.contains(from)
    &&& forall|p: Point|
        #[trigger] grid.contains(p) ==> {
            let v = number_of(grid, numbers, p);
            &&& (v == 0 <==> p == from)
            &&& v != UNREACHED ==> reachable_in(grid, from, p, v as nat) && not_sooner(
                grid,
                from,
                p,
                v as int,
            )
            &&& 0 < v < UNREACHED ==> grid.walkable_spec(p) && touches_number(
                grid,
                numbers,
                p,
                v - 1,
            )
            &&& v == UNREACHED ==> forall|n: nat| !#[trigger] reachable_in(grid, from, p, n)
        }
}

/// The count of tiles without a number in one row.
pub open spec fn row_without_number(row: Seq<u32>) -> nat
    decreases row.len(),
{
    if row.len() == 0 {
        0
    } else {
        row_without_number(row.drop_last()) + if row.last() == UNREACHED {
            1nat
        } else {
            0nat
        }
    }
}

/// The count of tiles without a number.
pub open spec fn without_number(numbers: Seq<Vec<u32>>) -> nat
    decreases numbers.len(),
{
    if numbers.len() == 0 {
        0
    } else {
        without_number(numbers.drop_last()) + row_without_number(numbers.last()@)
    }
}

proof fn lemma_row_numbered(row: Seq<u32>, x: int, v: u32)
    requires
        0 <= x < row.len(),
        row[x] == UNREACHED,
        v != UNREACHED,
    ensures
        row_without_number(row.update(x, v)) + 1 == row_without_number(row),
    decreases row.len(),
{
    let after = row.update(x, v);
    if x == row.len() - 1 {
        assert(after.drop_last() == row.drop_last());
    } else {
        assert(after.drop_last() == row.drop_last().update(x, v));
        lemma_row_numbered(row.drop_last(), x, v);
    }
}

proof fn lemma_rows_numbered(numbers: Seq<Vec<u32>>, after: Seq<Vec<u32>>, y: int, x: int, v: u32)
    requires
        0 <= y < numbers.len(),
        0 <= x < numbers[y]@.len(),
        numbers[y]@[x] == UNREACHED,
        v != UNREACHED,
        after.len() == numbers.len(),
        after[y]@ == numbers[y]@.update(x, v),
        forall|j: int| 0 <= j < numbers.len() && j != y ==> after[j]@ == numbers[j]@,
    ensures
        without_number(after) + 1 == without_number(numbers),
    decreases numbers.len(),
{
    if y == numbers.len() - 1 {
        lemma_row_numbered(numbers[y]@, x, v);
        lemma_rows_same(numbers.drop_last(), after.drop_last());
    } else {
        lemma_rows_numbered(numbers.drop_last(), after.drop_last(), y, x, v);
    }
}

proof fn lemma_rows_same(a: Seq<Vec<u32>>, b: Seq<Vec<u32>>)
    requires
        a.len() == b.len(),
        forall|j: int| 0 <= j < a.len() ==> a[j]@ == b[j]@,
    ensures
        without_number(a) == without_number(b),
    decreases a.len(),
{
    if a.len() > 0 {
        lemma_rows_same(a.drop_last(), b.drop_last());
    }
}

proof fn lemma_row_bound(row: Seq<u32>)
    ensures
        row_without_number(row) <= row.len(),
    decreases row.len(),
{
    if row.len() > 0 {
        lemma_row_bound(row.drop_last());
    }
}

proof fn lemma_count_bound(numbers: Seq<Vec<u32>>, width: int)
    requires
        0 <= width,
        forall|y: int| 0 <= y < numbers.len() ==> (#[trigger] numbers[y])@.len() == width,
    ensures
        without_number(numbers) <= numbers.len() * width,
    decreases numbers.len(),
{
    if numbers.len() > 0 {
        lemma_count_bound(numbers.drop_last(), width);
        lemma_row_bound(numbers.last()@);
        assert(numbers.last()@.len() == width);
        assert((numbers.len() - 1) * width + width == numbers.len() * width) by (nonlinear_arith);
    }
}

/// Once a round finds no new tile, no later round can: what has no number
/// then cannot be reached at all.
proof fn lemma_nothing_more(grid: Grid, from: Point, numbers: Seq<Vec<u32>>, k: int, p: Point, n: nat)
    requires
        tiles_ok(grid, from, numbers, k, k + 1),
        0 <= k,
        grid.contains(p),
        number_of(grid, numbers, p) == UNREACHED,
    ensures
        !reachable_in(grid, from, p, n),
    decreases n,
{
    reveal(tiles_ok);
    assert(tile_ok(grid, from, numbers, k, k + 1, p));
    if n <= k + 1 {
    } else if reachable_in(grid, from, p, n) {
        let q = lemma_reach_before(grid, from, p, n);
        assert(tile_ok(grid, from, numbers, k, k + 1, q));
        let v = number_of(grid, numbers, q);
        if v == UNREACHED {
            lemma_nothing_more(grid, from, numbers, k, q, (n - 1) as nat);
        } else {
            lemma_reach_step(grid, from, q, p, v as nat);
            assert(!reachable_in(grid, from, p, (v + 1) as nat));
        }
    }
}

/// After a whole round every tile without a number cannot be reached in
/// one more step than before either.
proof fn lemma_round_done(grid: Grid, from: Point, numbers: Seq<Vec<u32>>, k: int)
    requires
        tiles_ok(grid, from, numbers, k + 1, k),
        forall|q: Point|
            #![trigger grid.contains(q)]
            grid.contains(q) && number_of(grid, numbers, q) == k ==> dealt_with(grid, numbers, q),
        0 <= k,
    ensures
        tiles_ok(grid, from, numbers, k + 1, k + 1),
{
    reveal(tiles_ok);
    assert forall|p: Point| #[trigger] grid.contains(p) implies tile_ok(
        grid,
        from,
        numbers,
        k + 1,
        k + 1,
        p,
    ) by {
        assert(tile_ok(grid, from, numbers, k + 1, k, p));
        if number_of(grid, numbers, p) == UNREACHED {
            assert forall|n: nat| n <= k + 1 implies !#[trigger] reachable_in(grid, from, p, n) by {
                if n == k + 1 && reachable_in(grid, from, p, n) {
                    let q = lemma_reach_before(grid, from, p, n);
                    assert(tile_ok(grid, from, numbers, k + 1, k, q));
                    let v = number_of(grid, numbers, q);
                    assert(v != UNREACHED);
                    if v == k {
                        assert(dealt_with(grid, numbers, q));
                        assert(number_of(grid, numbers, p) != UNREACHED);
                    } else if v < k {
                        lemma_reach_step(grid, from, q, p, v as nat);
                        assert(!reachable_in(grid, from, p, (v + 1) as nat));
                    } else {
                        assert(!reachable_in(grid, from, q, k as nat));
                    }
                }
            }
        }
    }
}

/// The `m`-th of the nine tiles around `q`, `q` itself being the fifth.
pub open spec fn around(q: Point, m: int) -> Point {
    Point { x: (q.x + m % 3 - 1) as i32, y: (q.y + m / 3 - 1) as i32 }
}

/// Every neighbour is one of the nine tiles around.
proof fn lemma_around(grid: Grid, q: Point, p: Point) -> (m: int)
    requires
        grid.wf(),
        grid.contains(q),
        adjacent(q, p),
    ensures
        0 <= m < 9,
        m != 4,
        around(q, m) == p,
{
    (p.y - q.y + 1) * 3 + (p.x - q.x + 1)
}

/// One round of the search: every tile without a number that can be walked
/// on and touches a tile with the number `k` gets the number `k + 1`. Says
/// whether any tile got one.
#[verifier::rlimit(40)]
fn round(grid: &Grid, from: Point, numbers: &mut Vec<Vec<u32>>, k: u32) -> (found: bool)
    requires
        grid.wf(),
        tiles_ok(*grid, from, old(numbers)@, k as int, k as int),
        k + 1 < UNREACHED,
    ensures
        tiles_ok(*grid, from, final(numbers)@, k as int + 1, k as int + 1),
        same_shape(*grid, final(numbers)@),
        found ==> without_number(final(numbers)@) < without_number(old(numbers)@),
        !found ==> final(numbers)@ == old(numbers)@,
{
    let mut found = false;
    let mut y: usize = 0;
    proof {
        lemma_tiles_shape(*grid, from, numbers@, k as int, k as int);
        reveal(tiles_ok);
        assert forall|p: Point| #[trigger] grid.contains(p) implies tile_ok(
            *grid,
            from,
            numbers@,
            k as int + 1,
            k as int,
            p,
        ) by {
            assert(tile_ok(*grid, from, numbers@, k as int, k as int, p));
        }
    }
    while y < grid.height
        invariant
            grid.wf(),
            y <= grid.height,
            k + 1 < UNREACHED,
            tiles_ok(*grid, from, numbers@, k as int + 1, k as int),
            same_shape(*grid, numbers@),
            found ==> without_number(numbers@) < without_number(old(numbers)@),
            !found ==> numbers@ == old(numbers)@,
            dealt_with_before(*grid, numbers@, k as int, 0, y as int),
        decreases grid.height - y,
    {
        let mut x: usize = 0;
        while x < grid.width
            invariant
                grid.wf(),
                y < grid.height,
                x <= grid.width,
                k + 1 < UNREACHED,
                tiles_ok(*grid, from, numbers@, k as int + 1, k as int),
                same_shape(*grid, numbers@),
            same_shape(*grid, numbers@),
                found ==> without_number(numbers@) < without_number(old(numbers)@),
                !found ==> numbers@ == old(numbers)@,
                dealt_with_before(*grid, numbers@, k as int, x as int, y as int),
            decreases grid.width - x,
        {
            let ghost before = numbers@;
            if numbers[y][x] == k {
                let here = Point {
                    x: (grid.origin.x as i64 + x as i64) as i32,
                    y: (grid.origin.y as i64 + y as i64) as i32,
                };
                let changed = spread(grid, from, numbers, k, here);
                found = found || changed;
                proof {
                    lemma_one_more_dealt_with(
                        *grid,
                        before,
                        numbers@,
                        k as int,
                        here,
                        x as int,
                        y as int,
                    );
                }
            } else {
                proof {
                    lemma_skipped(*grid, numbers@, k as int, x as int, y as int);
                }
            }
            x = x + 1;
        }
        proof {
            lemma_next_row(*grid, numbers@, k as int, y as int);
        }
        y = y + 1;
    }
    proof {
        assert forall|q: Point|
            #![trigger grid.contains(q)]
            grid.contains(q) && number_of(*grid, numbers@, q) == k implies dealt_with(
            *grid,
            numbers@,
            q,
        ) by {}
        lemma_round_done(*grid, from, numbers@, k as int);
    }
    found
}

/// The round has dealt with every tile with the number `k` that comes
/// before column `x` of row `y` when the grid is read row by row.
pub open spec fn dealt_with_before(
    grid: Grid,
    numbers: Seq<Vec<u32>>,
    k: int,
    x: int,
    y: int,
) -> bool {
    forall|q: Point|
        #![trigger grid.contains(q)]
        grid.contains(q) && (q.y - grid.origin().y < y || (q.y - grid.origin().y == y && q.x
            - grid.origin().x < x)) && number_of(grid, numbers, q) == k ==> dealt_with(
            grid,
            numbers,
            q,
        )
}

/// What one call of `spread` does to the numbers: a tile that had a number
/// keeps it, and a tile that had none has none or the number `k + 1`.
pub open spec fn only_new_numbers(
    grid: Grid,
    before: Seq<Vec<u32>>,
    after: Seq<Vec<u32>>,
    k: int,
) -> bool {
    &&& forall|p: Point|
        #![trigger number_of(grid, after, p)]
        grid.contains(p) && number_of(grid, before, p) != UNREACHED ==> number_of(grid, after, p)
            == number_of(grid, before, p)
    &&& forall|p: Point|
        #![trigger number_of(grid, after, p)]
        grid.contains(p) && number_of(grid, before, p) == UNREACHED ==> number_of(grid, after, p)
            == UNREACHED || number_of(grid, after, p) == k + 1
}

proof fn lemma_one_more_dealt_with(
    grid: Grid,
    before: Seq<Vec<u32>>,
    after: Seq<Vec<u32>>,
    k: int,
    here: Point,
    x: int,
    y: int,
)
    requires
        grid.wf(),
        grid.contains(here),
        here.x - grid.origin().x == x,
        here.y - grid.origin().y == y,
        k + 1 < UNREACHED,
        dealt_with_before(grid, before, k, x, y),
        only_new_numbers(grid, before, after, k),
        dealt_with(grid, after, here),
    ensures
        dealt_with_before(grid, after, k, x + 1, y),
{
    assert forall|q: Point|
        #![trigger grid.contains(q)]
        grid.contains(q) && (q.y - grid.origin().y < y || (q.y - grid.origin().y == y && q.x
            - grid.origin().x < x + 1)) && number_of(grid, after, q) == k implies dealt_with(
        grid,
        after,
        q,
    ) by {
        if q != here {
            lemma_still_dealt_with(grid, before, after, k, q);
        }
    }
}

proof fn lemma_skipped(grid: Grid, numbers: Seq<Vec<u32>>, k: int, x: int, y: int)
    requires
        grid.wf(),
        dealt_with_before(grid, numbers, k, x, y),
        0 <= y < grid.height(),
        0 <= x < grid.width(),
        numbers[y]@[x] != k,
    ensures
        dealt_with_before(grid, numbers, k, x + 1, y),
{
}

proof fn lemma_next_row(grid: Grid, numbers: Seq<Vec<u32>>, k: int, y: int)
    requires
        grid.wf(),
        dealt_with_before(grid, numbers, k, grid.width(), y),
    ensures
        dealt_with_before(grid, numbers, k, 0, y + 1),
{
}

/// Giving the number `k + 1` to a tile without a number that can be walked
/// on and touches a tile with the number `k` keeps every tile as a round
/// under way asks.
proof fn lemma_numbered(
    grid: Grid,
    from: Point,
    before: Seq<Vec<u32>>,
    after: Seq<Vec<u32>>,
    k: int,
    here: Point,
    p: Point,
)
    requires
        grid.wf(),
        0 <= k,
        k + 1 < UNREACHED,
        tiles_ok(grid, from, before, k + 1, k),
        grid.contains(here),
        number_of(grid, before, here) == k,
        grid.contains(p),
        adjacent(here, p),
        grid.walkable_spec(p),
        number_of(grid, before, p) == UNREACHED,
        same_shape(grid, after),
        number_of(grid, after, p) == k + 1,
        forall|q: Point|
            #![trigger number_of(grid, after, q)]
            grid.contains(q) && q != p ==> number_of(grid, after, q) == number_of(grid, before, q),
    ensures
        tiles_ok(grid, from, after, k + 1, k),
{
    reveal(tiles_ok);
    assert(tile_ok(grid, from, before, k + 1, k, here));
    assert(tile_ok(grid, from, before, k + 1, k, p));
    lemma_reach_step(grid, from, here, p, k as nat);
    assert(number_of(grid, after, here) == k);
    assert forall|q: Point| #[trigger] grid.contains(q) implies tile_ok(
        grid,
        from,
        after,
        k + 1,
        k,
        q,
    ) by {
        assert(tile_ok(grid, from, before, k + 1, k, q));
        if q == p {
            assert(touches_number(grid, after, p, k));
            assert(not_sooner(grid, from, p, k + 1));
        } else {
            assert(number_of(grid, after, q) == number_of(grid, before, q));
            let v = number_of(grid, before, q);
            if 0 < v < UNREACHED {
                let r = choose|r: Point|
                    grid.contains(r) && adjacent(r, q) && #[trigger] number_of(grid, before, r) == v
                        - 1;
                assert(number_of(grid, after, r) == v - 1);
            }
        }
    }
}

/// A tile that was dealt with stays dealt with when more tiles get a
/// number, and no tile gets the number `k` in round `k + 1`.
proof fn lemma_still_dealt_with(
    grid: Grid,
    before: Seq<Vec<u32>>,
    after: Seq<Vec<u32>>,
    k: int,
    q: Point,
)
    requires
        grid.contains(q),
        number_of(grid, after, q) == k,
        k + 1 < UNREACHED,
        number_of(grid, before, q) == k ==> dealt_with(grid, before, q),
        only_new_numbers(grid, before, after, k),
    ensures
        dealt_with(grid, after, q),
{
    assert(number_of(grid, before, q) == k);
    assert forall|p: Point|
        #![trigger number_of(grid, after, p)]
        adjacent(q, p) && grid.walkable_spec(p) implies number_of(grid, after, p) != UNREACHED by {
        assert(number_of(grid, before, p) != UNREACHED);
    }
}

/// A walk with one more step in front.
proof fn lemma_longer_path(grid: Grid, back: Point, here: Point, to: Point, tail: Seq<Point>)
    requires
        valid_path(grid, here, to, tail),
        grid.contains(back),
        step_ok(grid, back, here),
    ensures
        valid_path(grid, back, to, seq![here] + tail),
        (seq![here] + tail).len() == tail.len() + 1,
{
    let steps = seq![here] + tail;
    assert forall|i: int| 0 <= i < steps.len() implies step_ok(
        grid,
        before_step(back, steps, i),
        #[trigger] steps[i],
    ) by {
        if i > 0 {
            assert(steps[i] == tail[i - 1]);
            assert(step_ok(grid, before_step(here, tail, i - 1), tail[i - 1]));
        }
    }
    if tail.len() > 0 {
        assert(steps.last() == tail.last());
    }
}

/// No walk is shorter than the number of its goal.
proof fn lemma_no_shorter_path(
    grid: Grid,
    from: Point,
    to: Point,
    numbers: Seq<Vec<u32>>,
    other: Seq<Point>,
)
    requires
        search_over(grid, from, numbers),
        grid.contains(to),
        valid_path(grid, from, to, other),
    ensures
        number_of(grid, numbers, to) != UNREACHED,
        number_of(grid, numbers, to) <= other.len(),
{
    lemma_path_reaches(grid, from, to, other);
    let v = number_of(grid, numbers, to);
    assert(v != UNREACHED);
    assert(not_sooner(grid, from, to, v as int));
}

/// Gives the number `k + 1` to every neighbour of `here` that can be walked
/// on and has no number. Says whether any tile got one.
#[verifier::rlimit(40)]
fn spread(grid: &Grid, from: Point, numbers: &mut Vec<Vec<u32>>, k: u32, here: Point) -> (found: bool)
    requires
        grid.wf(),
        grid.contains(here),
        k + 1 < UNREACHED,
        tiles_ok(*grid, from, old(numbers)@, k as int + 1, k as int),
        number_of(*grid, old(numbers)@, here) == k,
    ensures
        tiles_ok(*grid, from, final(numbers)@, k as int + 1, k as int),
        same_shape(*grid, final(numbers)@),
        dealt_with(*grid, final(numbers)@, here),
        found ==> without_number(final(numbers)@) < without_number(old(numbers)@),
        !found ==> final(numbers)@ == old(numbers)@,
        only_new_numbers(*grid, old(numbers)@, final(numbers)@, k as int),
{
    let mut found = false;
    let mut n: usize = 0;
    proof {
        lemma_tiles_shape(*grid, from, numbers@, k as int + 1, k as int);
    }
    while n < 9
        invariant
            grid.wf(),
            grid.contains(here),
            n <= 9,
            k + 1 < UNREACHED,
            tiles_ok(*grid, from, numbers@, k as int + 1, k as int),
            same_shape(*grid, numbers@),
            number_of(*grid, numbers@, here) == k,
            found ==> without_number(numbers@) < without_number(old(numbers)@),
            !found ==> numbers@ == old(numbers)@,
            only_new_numbers(*grid, old(numbers)@, numbers@, k as int),
            around_numbered(*grid, numbers@, here, n as int),
        decreases 9 - n,
    {
        let dx: i64 = (n % 3) as i64 - 1;
        let dy: i64 = (n / 3) as i64 - 1;
        let px: i64 = here.x as i64 + dx;
        let py: i64 = here.y as i64 + dy;
        let cx: i64 = px - grid.origin.x as i64;
        let cy: i64 = py - grid.origin.y as i64;
        let ghost before = numbers@;
        let ghost p = around(here, n as int);
        assert(p.x == px && p.y == py);
        if n != 4 && 0 <= cx && cx < grid.width as i64 && 0 <= cy && cy < grid.height as i64
            && grid.cells[cy as usize][cx as usize] && numbers[cy as usize][cx as usize]
            == UNREACHED {
            numbers[cy as usize][cx as usize] = k + 1;
            proof {
                lemma_rows_numbered(before, numbers@, cy as int, cx as int, (k + 1) as u32);
                assert(number_of(*grid, numbers@, p) == k + 1);
                assert forall|q: Point|
                    #![trigger number_of(*grid, numbers@, q)]
                    grid.contains(q) && q != p implies number_of(*grid, numbers@, q) == number_of(
                    *grid,
                    before,
                    q,
                ) by {
                    if q.y - grid.origin.y != cy {
                        assert(numbers@[q.y - grid.origin.y]@ == before[q.y - grid.origin.y]@);
                    }
                }
                lemma_numbered(*grid, from, before, numbers@, k as int, here, p);
                lemma_only_new_numbers(*grid, old(numbers)@, before, numbers@, k as int, p);
                lemma_around_more(*grid, before, numbers@, here, n as int, p);
            }
            found = true;
        } else {
            proof {
                lemma_around_skip(*grid, numbers@, here, n as int);
            }
        }
        n = n + 1;
    }
    proof {
        assert forall|p: Point|
            #![trigger number_of(*grid, numbers@, p)]
            adjacent(here, p) && grid.walkable_spec(p) implies number_of(*grid, numbers@, p)
            != UNREACHED by {
            let m = lemma_around(*grid, here, p);
            assert(around(here, m) == p);
        }
    }
    found
}

/// The first `n` of the nine tiles around `here` have a number if they can
/// be walked on.
pub open spec fn around_numbered(grid: Grid, numbers: Seq<Vec<u32>>, here: Point, n: int) -> bool {
    forall|m: int|
        #![trigger around(here, m)]
        0 <= m < n && m != 4 && grid.walkable_spec(around(here, m)) ==> number_of(
            grid,
            numbers,
            around(here, m),
        ) != UNREACHED
}

proof fn lemma_around_skip(grid: Grid, numbers: Seq<Vec<u32>>, here: Point, n: int)
    requires
        grid.wf(),
        grid.contains(here),
        0 <= n < 9,
        around_numbered(grid, numbers, here, n),
        n == 4 || !grid.walkable_spec(around(here, n)) || number_of(
            grid,
            numbers,
            around(here, n),
        ) != UNREACHED,
    ensures
        around_numbered(grid, numbers, here, n + 1),
{
    assert forall|m: int|
        #![trigger around(here, m)]
        0 <= m < n + 1 && m != 4 && grid.walkable_spec(around(here, m)) implies number_of(
        grid,
        numbers,
        around(here, m),
    ) != UNREACHED by {
        if m < n {
            assert(around_numbered(grid, numbers, here, n));
        }
    }
}

proof fn lemma_around_more(
    grid: Grid,
    before: Seq<Vec<u32>>,
    after: Seq<Vec<u32>>,
    here: Point,
    n: int,
    p: Point,
)
    requires
        grid.wf(),
        grid.contains(here),
        0 <= n < 9,
        around_numbered(grid, before, here, n),
        p == around(here, n),
        number_of(grid, after, p) != UNREACHED,
        forall|q: Point|
            #![trigger number_of(grid, after, q)]
            grid.contains(q) && q != p ==> number_of(grid, after, q) == number_of(grid, before, q),
    ensures
        around_numbered(grid, after, here, n + 1),
{
    assert forall|m: int|
        #![trigger around(here, m)]
        0 <= m < n + 1 && m != 4 && grid.walkable_spec(around(here, m)) implies number_of(
        grid,
        after,
        around(here, m),
    ) != UNREACHED by {
        let s = around(here, m);
        if s != p {
            assert(number_of(grid, after, s) == number_of(grid, before, s));
        }
    }
}

proof fn lemma_only_new_numbers(
    grid: Grid,
    first: Seq<Vec<u32>>,
    before: Seq<Vec<u32>>,
    after: Seq<Vec<u32>>,
    k: int,
    p: Point,
)
    requires
        only_new_numbers(grid, first, before, k),
        grid.contains(p),
        number_of(grid, before, p) == UNREACHED,
        number_of(grid, after, p) == k + 1,
        forall|q: Point|
            #![trigger number_of(grid, after, q)]
            grid.contains(q) && q != p ==> number_of(grid, after, q) == number_of(grid, before, q),
    ensures
        only_new_numbers(grid, first, after, k),
{
    assert forall|q: Point|
        #![trigger number_of(grid, after, q)]
        grid.contains(q) && number_of(grid, first, q) != UNREACHED implies number_of(grid, after, q)
        == number_of(grid, first, q) by {
        assert(number_of(grid, before, q) == number_of(grid, first, q));
    }
    assert forall|q: Point|
        #![trigger number_of(grid, after, q)]
        grid.contains(q) && number_of(grid, first, q) == UNREACHED implies number_of(grid, after, q)
        == UNREACHED || number_of(grid, after, q) == k + 1 by {
        assert(number_of(grid, before, q) == UNREACHED || number_of(grid, before, q) == k + 1);
    }
}

/// The numbers of all tiles of the grid for a search that starts at
/// `from`.
#[verifier::rlimit(40)]
fn search(grid: &Grid, from: Point) -> (numbers: Vec<Vec<u32>>)
    requires
        grid.wf(),
        grid.contains(from),
    ensures
        search_over(*grid, from, numbers@),
{
    let mut numbers: Vec<Vec<u32>> = Vec::new();
    let mut y: usize = 0;
    while y < grid.height
        invariant
            grid.wf(),
            y <= grid.height,
            numbers@.len() == y,
            forall|j: int| 0 <= j < y ==> (#[trigger] numbers@[j])@.len() == grid.width,
            forall|j: int, i: int|
                0 <= j < y && 0 <= i < grid.width ==> (#[trigger] numbers@[j]@[i]) == UNREACHED,
        decreases grid.height - y,
    {
        let mut row: Vec<u32> = Vec::new();
        let mut x: usize = 0;
        while x < grid.width
            invariant
                x <= grid.width,
                row@.len() == x,
                forall|i: int| 0 <= i < x ==> (#[trigger] row@[i]) == UNREACHED,
            decreases grid.width - x,
        {
            row.push(UNREACHED);
            x = x + 1;
        }
        numbers.push(row);
        y = y + 1;
    }
    let fx = (from.x as i64 - grid.origin.x as i64) as usize;
    let fy = (from.y as i64 - grid.origin.y as i64) as usize;
    let ghost blank = numbers@;
    numbers[fy][fx] = 0;
    proof {
        lemma_count_bound(blank, grid.width as int);
        assert(blank.len() * grid.width <= 0x8000 * 0x8000) by (nonlinear_arith)
            requires
                blank.len() <= 0x8000,
                grid.width <= 0x8000,
        ;
        lemma_rows_numbered(blank, numbers@, fy as int, fx as int, 0);
        reveal(tiles_ok);
        assert forall|p: Point| #[trigger] grid.contains(p) implies tile_ok(
            *grid,
            from,
            numbers@,
            0,
            0,
            p,
        ) by {
            lemma_reach_start(*grid, from, p);
            if p != from {
                assert(number_of(*grid, numbers@, p) == UNREACHED);
            }
        }
    }
    let mut k: u32 = 0;
    loop
        invariant
            grid.wf(),
            grid.contains(from),
            tiles_ok(*grid, from, numbers@, k as int, k as int),
            same_shape(*grid, numbers@),
            k + without_number(numbers@) < 0x8000 * 0x8000,
        ensures
            search_over(*grid, from, numbers@),
        decreases without_number(numbers@),
    {
        let ghost before = numbers@;
        let found = round(grid, from, &mut numbers, k);
        if !found {
            proof {
                reveal(tiles_ok);
                assert forall|p: Point| #[trigger] grid.contains(p) implies tile_ok(
                    *grid,
                    from,
                    numbers@,
                    k as int,
                    k as int + 1,
                    p,
                ) by {
                    assert(tile_ok(*grid, from, numbers@, k as int, k as int, p));
                    assert(tile_ok(*grid, from, numbers@, k as int + 1, k as int + 1, p));
                }
                assert forall|p: Point| #[trigger] grid.contains(p) implies {
                    let v = number_of(*grid, numbers@, p);
                    &&& (v == 0 <==> p == from)
                    &&& v != UNREACHED ==> reachable_in(*grid, from, p, v as nat) && not_sooner(
                        *grid,
                        from,
                        p,
                        v as int,
                    )
                    &&& 0 < v < UNREACHED ==> grid.walkable_spec(p) && touches_number(
                        *grid,
                        numbers@,
                        p,
                        v - 1,
                    )
                    &&& v == UNREACHED ==> forall|n: nat| !#[trigger] reachable_in(*grid, from, p, n)
                } by {
                    assert(tile_ok(*grid, from, numbers@, k as int, k as int + 1, p));
                    if number_of(*grid, numbers@, p) == UNREACHED {
                        assert forall|n: nat| !#[trigger] reachable_in(*grid, from, p, n) by {
                            lemma_nothing_more(*grid, from, numbers@, k as int, p, n);
                        }
                    }
                }
            }
            break ;
        }
        k = k + 1;
    }
    numbers
}

/// A way to walk: the tiles to step on, one after the other, the last of
/// them the goal.
#[derive(Debug)]
pub struct Path {
    steps: Vec<Point>,
}

impl View for Path {
    type V = Seq<Point>;

    closed spec fn view(&self) -> Seq<Point> {
        self.steps@
    }
}

impl Path {
    /// The shortest walk from `from` to `to` over the tiles of `grid` that
    /// can be walked on, or `None` where there is no walk. The walk from a
    /// tile to itself has no steps.
    #[verifier::rlimit(40)]
    pub fn find(from: Point, to: Point, grid: &Grid) -> (found: Option<Path>)
        requires
            grid.wf(),
        ensures
            found matches Some(path) ==> valid_path(*grid, from, to, path@) && forall|
                other: Seq<Point>,
            | #[trigger] valid_path(*grid, from, to, other) ==> path@.len() <= other.len(),
            found is None ==> forall|other: Seq<Point>| !#[trigger] valid_path(
                *grid,
                from,
                to,
                other,
            ),
    {
        if !grid.has(from) {
            return None;
        }
        if !grid.has(to) {
            proof {
                assert forall|other: Seq<Point>| !#[trigger] valid_path(*grid, from, to, other) by {
                    if valid_path(*grid, from, to, other) {
                        if other.len() > 0 {
                            assert(step_ok(
                                *grid,
                                before_step(from, other, other.len() - 1),
                                other[other.len() - 1],
                            ));
                        }
                    }
                }
            }
            return None;
        }
        let numbers = search(grid, from);
        let tx = (to.x as i64 - grid.origin.x as i64) as usize;
        let ty = (to.y as i64 - grid.origin.y as i64) as usize;
        let total = numbers[ty][tx];
        assert(total == number_of(*grid, numbers@, to));
        if total == UNREACHED {
            proof {
                assert forall|other: Seq<Point>| !#[trigger] valid_path(*grid, from, to, other) by {
                    if valid_path(*grid, from, to, other) {
                        lemma_no_shorter_path(*grid, from, to, numbers@, other);
                    }
                }
            }
            return None;
        }
        let mut steps: Vec<Point> = Vec::new();
        let mut here = to;
        let mut left = total;
        while left > 0
            invariant
                grid.wf(),
                search_over(*grid, from, numbers@),
                grid.contains(here),
                number_of(*grid, numbers@, here) == left,
                left <= total,
                left < UNREACHED,
                steps@.len() == total - left,
                valid_path(*grid, here, to, steps@),
            decreases left,
        {
            let ghost tail = steps@;
            let back = step_back(grid, from, &numbers, here);
            steps.insert(0, here);
            proof {
                assert(steps@ == seq![here] + tail);
                lemma_longer_path(*grid, back, here, to, tail);
            }
            here = back;
            left = left - 1;
        }
        proof {
            assert(here == from);
            assert forall|other: Seq<Point>| #[trigger]
                valid_path(*grid, from, to, other) implies steps@.len() <= other.len() by {
                lemma_no_shorter_path(*grid, from, to, numbers@, other);
            }
        }
        Some(Path { steps })
    }

    /// The number of steps that are left.
    pub fn len(&self) -> (n: usize)
        ensures
            n == self@.len(),
    {
        self.steps.len()
    }

    pub fn is_empty(&self) -> (b: bool)
        ensures
            b == (self@.len() == 0),
    {
        self.steps.len() == 0
    }

    /// Takes the next step off the path. The path must have one: check
    /// first.
    pub fn walk_one_step(&mut self) -> (step: Point)
        requires
            old(self)@.len() > 0,
        ensures
            step == old(self)@[0],
            final(self)@ == old(self)@.drop_first(),
    {
        let step = self.steps.remove(0);
        proof {
            assert(self.steps@ == old(self).steps@.drop_first());
        }
        step
    }

    /// Takes the next step off the path, if there is one.
    pub fn next(&mut self) -> (step: Option<Point>)
        ensures
            step is Some <==> old(self)@.len() > 0,
            step matches Some(p) ==> p == old(self)@[0] && final(self)@ == old(self)@.drop_first(),
            step is None ==> final(self)@ == old(self)@,
    {
        if self.steps.len() == 0 {
            None
        } else {
            Some(self.walk_one_step())
        }
    }

    /// The tiles of the path, the next one first.
    pub fn waypoints(&self) -> (v: &Vec<Point>)
        ensures
            v@ == self@,
    {
        &self.steps
    }
}

/// A walk can be entered one step earlier.
pub proof fn lemma_walk_from_a_neighbour(
    grid: Grid,
    from: Point,
    q: Point,
    to: Point,
    rest: Seq<Point>,
)
    requires
        grid.contains(from),
        step_ok(grid, from, q),
        valid_path(grid, q, to, rest),
    ensures
        valid_path(grid, from, to, seq![q] + rest),
{
    let steps = seq![q] + rest;
    assert(steps[0] == q);
    assert forall|i: int| 0 <= i < steps.len() implies step_ok(
        grid,
        before_step(from, steps, i),
        #[trigger] steps[i],
    ) by {
        if i > 0 {
            assert(steps[i] == rest[i - 1]);
            assert(step_ok(grid, before_step(q, rest, i - 1), rest[i - 1]));
            if i > 1 {
                assert(steps[i - 1] == rest[i - 2]);
            }
        }
    }
    if rest.len() > 0 {
        assert(steps.last() == rest.last());
    }
}

/// What is left of a walk after its first step is a walk.
pub proof fn lemma_walk_after_first_step(grid: Grid, from: Point, to: Point, steps: Seq<Point>)
    requires
        valid_path(grid, from, to, steps),
        steps.len() > 0,
    ensures
        step_ok(grid, from, steps[0]),
        valid_path(grid, steps[0], to, steps.drop_first()),
{
    let rest = steps.drop_first();
    assert(step_ok(grid, before_step(from, steps, 0), steps[0]));
    assert forall|i: int| 0 <= i < rest.len() implies step_ok(
        grid,
        before_step(steps[0], rest, i),
        #[trigger] rest[i],
    ) by {
        assert(rest[i] == steps[i + 1]);
        assert(step_ok(grid, before_step(from, steps, i + 1), steps[i + 1]));
        if i > 0 {
            assert(rest[i - 1] == steps[i]);
        }
    }
    if rest.len() > 0 {
        assert(rest.last() == steps.last());
    }
}

/// `steps` is a walk from `from` to `to`, and no walk from `from` to `to`
/// has fewer steps.
pub open spec fn shortest_path(grid: Grid, from: Point, to: Point, steps: Seq<Point>) -> bool {
    &&& valid_path(grid, from, to, steps)
    &&& forall|other: Seq<Point>| #[trigger]
        valid_path(grid, from, to, other) ==> steps.len() <= other.len()
}

/// The first step of a shortest walk from `from` to `to`, if there is a
/// walk, it has a step at all, and a shortest one has no more than
/// `longest` steps.
#[verifier::rlimit(40)]
pub fn first_step(from: Point, to: Point, grid: &Grid, longest: usize) -> (step: Option<Point>)
    requires
        grid.wf(),
    ensures
        step is Some <==> exists|steps: Seq<Point>|
            #[trigger] shortest_path(*grid, from, to, steps) && 0 < steps.len() <= longest,
        step matches Some(p) ==> exists|steps: Seq<Point>|
            #[trigger] shortest_path(*grid, from, to, steps) && 0 < steps.len() <= longest
                && steps[0] == p,
        step matches Some(p) ==> adjacent(from, p) && grid.walkable_spec(p) && from != to,
        step is None && from != to && longest == usize::MAX ==> forall|other: Seq<Point>|
            !#[trigger] valid_path(*grid, from, to, other),
{
    match Path::find(from, to, grid) {
        Some(path) => {
            proof {
                assert(shortest_path(*grid, from, to, path@));
                assert forall|steps: Seq<Point>| #[trigger]
                    shortest_path(*grid, from, to, steps) implies steps.len() == path@.len() by {
                    assert(valid_path(*grid, from, to, steps));
                    assert(valid_path(*grid, from, to, path@));
                }
                if from == to {
                    assert(valid_path(*grid, from, to, Seq::<Point>::empty()));
                }
            }
            if path.len() > 0 && path.len() <= longest {
                let p = path.waypoints()[0];
                proof {
                    assert(step_ok(*grid, before_step(from, path@, 0), path@[0]));
                }
                Some(p)
            } else {
                None
            }
        },
        None => {
            proof {
                assert forall|steps: Seq<Point>| !#[trigger] shortest_path(*grid, from, to, steps) by {
                    assert(!valid_path(*grid, from, to, steps));
                }
            }
            None
        },
    }
}

/// A neighbour of `here` whose number is one less than that of `here`.
#[verifier::rlimit(40)]
fn step_back(grid: &Grid, from: Point, numbers: &Vec<Vec<u32>>, here: Point) -> (back: Point)
    requires
        grid.wf(),
        search_over(*grid, from, numbers@),
        grid.contains(here),
        0 < number_of(*grid, numbers@, here) < UNREACHED,
    ensures
        grid.contains(back),
        adjacent(back, here),
        grid.walkable_spec(here),
        number_of(*grid, numbers@, back) == number_of(*grid, numbers@, here) - 1,
{
    let hx = (here.x as i64 - grid.origin.x as i64) as usize;
    let hy = (here.y as i64 - grid.origin.y as i64) as usize;
    let v = numbers[hy][hx];
    assert(touches_number(*grid, numbers@, here, v - 1));
    let ghost witness = choose|q: Point|
        grid.contains(q) && adjacent(q, here) && #[trigger] number_of(*grid, numbers@, q) == v - 1;
    let mut n: usize = 0;
    while n < 9
        invariant
            grid.wf(),
            grid.contains(here),
            grid.walkable_spec(here),
            same_shape(*grid, numbers@),
            n <= 9,
            v == number_of(*grid, numbers@, here),
            0 < v < UNREACHED,
            grid.contains(witness) && adjacent(witness, here) && number_of(
                *grid,
                numbers@,
                witness,
            ) == v - 1,
            forall|m: int|
                #![trigger around(here, m)]
                0 <= m < n && m != 4 ==> around(here, m) != witness,
        decreases 9 - n,
    {
        let dx: i64 = (n % 3) as i64 - 1;
        let dy: i64 = (n / 3) as i64 - 1;
        let px: i64 = here.x as i64 + dx;
        let py: i64 = here.y as i64 + dy;
        let cx: i64 = px - grid.origin.x as i64;
        let cy: i64 = py - grid.origin.y as i64;
        let ghost p = around(here, n as int);
        assert(p.x == px && p.y == py);
        if n != 4 && 0 <= cx && cx < grid.width as i64 && 0 <= cy && cy < grid.height as i64 {
            if numbers[cy as usize][cx as usize] == v - 1 {
                let back = Point { x: px as i32, y: py as i32 };
                assert(back == p);
                assert(adjacent(back, here));
                return back;
            }
        }
        n = n + 1;
    }
    proof {
        let m = lemma_around(*grid, here, witness);
        assert(around(here, m) == witness);
        assert(false);
    }
    here
}

} // verus!
