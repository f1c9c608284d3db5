//! Grid coordinates, the two distance measures the simulation uses, and the
//! rectangular and circular areas that explosions and searches walk over.
//!
//! Adjacency and chase range are measured in tile steps (Chebyshev distance).
//! Areas of effect and visibility are measured along the straight line
//! (Euclidean distance). The latter is kept squared so that it stays in the
//! integers.

use vstd::prelude::*;

verus! {

/// A position on the world grid.
#[derive(Clone, Copy, Debug, PartialEq, Eq, Structural)]
pub struct Point {
    pub x: i32,
    pub y: i32,
}

/// Absolute value of a mathematical integer.
pub open spec fn abs_int(v: int) -> int {
    if v < 0 {
        -v
    } else {
        v
    }
}

/// Chebyshev distance: the number of king moves between two tiles.
pub open spec fn tile_distance_spec(a: Point, b: Point) -> int {
    let dx = abs_int(a.x - b.x);
    let dy = abs_int(a.y - b.y);
    if dx >= dy {
        dx
    } else {
        dy
    }
}

/// Square of the Euclidean distance between two tiles.
pub open spec fn distance_squared_spec(a: Point, b: Point) -> int {
    (a.x - b.x) * (a.x - b.x) + (a.y - b.y) * (a.y - b.y)
}

/// Two tiles touch: they differ, and by at most one step along each axis.
pub open spec fn adjacent(a: Point, b: Point) -> bool {
    tile_distance_spec(a, b) == 1
}

impl Point {
    pub fn new(x: i32, y: i32) -> (p: Point)
        ensures
            p.x == x,
            p.y == y,
    {
        Point { x, y }
    }

    /// The number of tile steps (diagonals count as one) from `self` to `other`.
    pub fn tile_distance(self, other: Point) -> (d: u32)
        ensures
            d == tile_distance_spec(self, other),
    {
        let dx: i64 = self.x as i64 - other.x as i64;
        let dy: i64 = self.y as i64 - other.y as i64;
        let ax: i64 = if dx < 0 {
            -dx
        } else {
            dx
        };
        let ay: i64 = if dy < 0 {
            -dy
        } else {
            dy
        };
        if ax >= ay {
            ax as u32
        } else {
            ay as u32
        }
    }

    /// The squared straight-line distance from `self` to `other`.
    pub fn distance_squared(self, other: Point) -> (d: u128)
        ensures
            d == distance_squared_spec(self, other),
    {
        let dx: i64 = self.x as i64 - other.x as i64;
        let dy: i64 = self.y as i64 - other.y as i64;
        let ax: u128 = if dx < 0 {
            (-dx) as u128
        } else {
            dx as u128
        };
        let ay: u128 = if dy < 0 {
            (-dy) as u128
        } else {
            dy as u128
        };
        assert(ax * ax == (self.x - other.x) * (self.x - other.x)) by (nonlinear_arith)
            requires
                ax == abs_int(self.x - other.x),
        ;
        assert(ay * ay == (self.y - other.y) * (self.y - other.y)) by (nonlinear_arith)
            requires
                ay == abs_int(self.y - other.y),
        ;
        assert(ax * ax <= 0xffff_ffff * 0xffff_ffff) by (nonlinear_arith)
            requires
                0 <= ax <= 0xffff_ffff,
        ;
        assert(ay * ay <= 0xffff_ffff * 0xffff_ffff) by (nonlinear_arith)
            requires
                0 <= ay <= 0xffff_ffff,
        ;
        ax * ax + ay * ay
    }

    /// Whether `other` lies strictly closer than `radius` along the straight
    /// line. A radius of zero or less contains nothing.
    pub fn within_radius(self, other: Point, radius: i32) -> (b: bool)
        ensures
            b == (radius > 0 && distance_squared_spec(self, other) < radius * radius),
    {
        if radius <= 0 {
            return false;
        }
        let r: u128 = radius as u128;
        assert(r * r == radius * radius) by (nonlinear_arith)
            requires
                r == radius,
        ;
        assert(r * r <= 0x7fff_ffff * 0x7fff_ffff) by (nonlinear_arith)
            requires
                0 <= r <= 0x7fff_ffff,
        ;
        self.distance_squared(other) < r * r
    }

    /// Whether `other` lies no farther than `radius` along the straight line.
    pub fn within_reach(self, other: Point, radius: i32) -> (b: bool)
        ensures
            b == (radius >= 0 && distance_squared_spec(self, other) <= radius * radius),
    {
        if radius < 0 {
            return false;
        }
        let r: u128 = radius as u128;
        assert(r * r == radius * radius) by (nonlinear_arith)
            requires
                r == radius,
        ;
        assert(r * r <= 0x7fff_ffff * 0x7fff_ffff) by (nonlinear_arith)
            requires
                0 <= r <= 0x7fff_ffff,
        ;
        self.distance_squared(other) <= r * r
    }

    /// The tile `dx` columns and `dy` rows away, or `None` where that tile
    /// has no representable coordinate.
    pub fn offset(self, dx: i32, dy: i32) -> (r: Option<Point>)
        ensures
            r is Some <==> (i32::MIN <= self.x + dx <= i32::MAX && i32::MIN <= self.y + dy
                <= i32::MAX),
            r matches Some(p) ==> p.x == self.x + dx && p.y == self.y + dy,
    {
        let nx: i64 = self.x as i64 + dx as i64;
        let ny: i64 = self.y as i64 + dy as i64;
        if nx < i32::MIN as i64 || nx > i32::MAX as i64 || ny < i32::MIN as i64 || ny
            > i32::MAX as i64 {
            None
        } else {
            Some(Point { x: nx as i32, y: ny as i32 })
        }
    }
}

/// Shorthand for [`Point::new`].
pub fn point(x: i32, y: i32) -> (p: Point)
    ensures
        p == (Point { x, y }),
{
    Point::new(x, y)
}

/// The tile that follows `p` when a rectangle whose columns run from `min_x`
/// to `max_x` and whose last row is `max_y` is read row by row, or `None`
/// after the last tile.
pub open spec fn row_major_successor(p: Point, min_x: i32, max_x: i32, max_y: i32) -> Option<
    Point,
> {
    if p.x < max_x {
        Some(Point { x: (p.x + 1) as i32, y: p.y })
    } else if p.y < max_y {
        Some(Point { x: min_x, y: (p.y + 1) as i32 })
    } else {
        None
    }
}

/// The tiles of a rectangle from `from` to its end, row by row.
pub open spec fn row_major_from(from: Option<Point>, min_x: i32, max_x: i32, max_y: i32) -> Seq<
    Point,
>
    decreases
            (match from {
                Some(p) => max_y - p.y + 1,
                None => 0,
            }),
            (match from {
                Some(p) => max_x - p.x + 1,
                None => 0,
            }),
{
    match from {
        None => Seq::empty(),
        Some(p) => if min_x <= p.x <= max_x && p.y <= max_y {
            seq![p] + row_major_from(row_major_successor(p, min_x, max_x, max_y), min_x, max_x, max_y)
        } else {
            Seq::empty()
        },
    }
}

/// All tiles of the square with the given centre and half side, row by row
/// from the top left corner.
pub open spec fn square_points(center: Point, half_side: int) -> Seq<Point> {
    row_major_from(
        Some(Point { x: (center.x - half_side) as i32, y: (center.y - half_side) as i32 }),
        (center.x - half_side) as i32,
        (center.x + half_side) as i32,
        (center.y + half_side) as i32,
    )
}

/// The tiles that a row by row reading which starts at `from` still reaches:
/// those of the rectangle that stand at `from` or behind it.
pub proof fn lemma_row_major_contains(from: Point, min_x: i32, max_x: i32, max_y: i32, p: Point)
    requires
        min_x <= from.x <= max_x,
        from.y <= max_y,
    ensures
        row_major_from(Some(from), min_x, max_x, max_y).contains(p) <==> (min_x <= p.x <= max_x
            && p.y <= max_y && (p.y > from.y || (p.y == from.y && p.x >= from.x))),
    decreases max_y - from.y, max_x - from.x,
{
    let next = row_major_successor(from, min_x, max_x, max_y);
    let rest = row_major_from(next, min_x, max_x, max_y);
    let all = row_major_from(Some(from), min_x, max_x, max_y);
    assert(all == seq![from] + rest);
    assert(all[0] == from);
    match next {
        Some(n) => {
            lemma_row_major_contains(n, min_x, max_x, max_y, p);
        },
        None => {
            assert(rest =~= Seq::<Point>::empty());
        },
    }
    if all.contains(p) {
        let i = choose|i: int| 0 <= i < all.len() && all[i] == p;
        if i > 0 {
            assert(rest[i - 1] == p);
        }
    }
    if rest.contains(p) {
        let i = choose|i: int| 0 <= i < rest.len() && rest[i] == p;
        assert(all[i + 1] == p);
    }
}

/// The square around `center` holds exactly the tiles that are no more than
/// `half_side` steps away.
pub proof fn lemma_square_points_contains(center: Point, half_side: i32, p: Point)
    requires
        half_side >= 0,
        i32::MIN <= center.x - half_side,
        center.x + half_side <= i32::MAX,
        i32::MIN <= center.y - half_side,
        center.y + half_side <= i32::MAX,
    ensures
        square_points(center, half_side as int).contains(p) <==> tile_distance_spec(p, center)
            <= half_side,
{
    let from = Point { x: (center.x - half_side) as i32, y: (center.y - half_side) as i32 };
    lemma_row_major_contains(
        from,
        (center.x - half_side) as i32,
        (center.x + half_side) as i32,
        (center.y + half_side) as i32,
        p,
    );
}

/// A row by row reading comes by no tile twice.
pub proof fn lemma_row_major_distinct(from: Point, min_x: i32, max_x: i32, max_y: i32)
    requires
        min_x <= from.x <= max_x,
        from.y <= max_y,
    ensures
        row_major_from(Some(from), min_x, max_x, max_y).no_duplicates(),
    decreases max_y - from.y, max_x - from.x,
{
    let next = row_major_successor(from, min_x, max_x, max_y);
    let rest = row_major_from(next, min_x, max_x, max_y);
    let all = row_major_from(Some(from), min_x, max_x, max_y);
    assert(all == seq![from] + rest);
    match next {
        Some(n) => {
            lemma_row_major_distinct(n, min_x, max_x, max_y);
            lemma_row_major_contains(n, min_x, max_x, max_y, from);
        },
        None => {
            assert(rest =~= Seq::<Point>::empty());
        },
    }
    assert(!rest.contains(from));
    assert forall|i: int, j: int| 0 <= i < all.len() && 0 <= j < all.len() && i != j implies all[i]
        != all[j] by {
        if i > 0 {
            assert(rest[i - 1] == all[i]);
        }
        if j > 0 {
            assert(rest[j - 1] == all[j]);
        }
    }
}

/// The square around `center` holds no tile twice.
pub proof fn lemma_square_points_distinct(center: Point, half_side: i32)
    requires
        half_side >= 0,
        i32::MIN <= center.x - half_side,
        center.x + half_side <= i32::MAX,
        i32::MIN <= center.y - half_side,
        center.y + half_side <= i32::MAX,
    ensures
        square_points(center, half_side as int).no_duplicates(),
{
    let from = Point { x: (center.x - half_side) as i32, y: (center.y - half_side) as i32 };
    lemma_row_major_distinct(
        from,
        (center.x - half_side) as i32,
        (center.x + half_side) as i32,
        (center.y + half_side) as i32,
    );
}

/// A cursor over the tiles of a square, read row by row from the top left.
#[derive(Clone, Copy, Debug)]
pub struct SquareArea {
    x: i32,
    y: i32,
    min_x: i32,
    max_x: i32,
    max_y: i32,
    done: bool,
}

impl SquareArea {
    #[verifier::type_invariant]
    spec fn inv(self) -> bool {
        &&& self.min_x <= self.max_x
        &&& !self.done ==> self.min_x <= self.x <= self.max_x && self.y <= self.max_y
    }

    /// The tile the next call of [`SquareArea::next`] hands out.
    pub closed spec fn cursor(self) -> Option<Point> {
        if self.done {
            None
        } else {
            Some(Point { x: self.x, y: self.y })
        }
    }

    /// The tiles still to come, in order.
    pub closed spec fn remaining(self) -> Seq<Point> {
        row_major_from(self.cursor(), self.min_x, self.max_x, self.max_y)
    }

    /// The square of side `2 * half_side + 1` around `center`.
    pub fn new(center: Point, half_side: i32) -> (area: SquareArea)
        requires
            half_side >= 0,
            i32::MIN <= center.x - half_side,
            center.x + half_side <= i32::MAX,
            i32::MIN <= center.y - half_side,
            center.y + half_side <= i32::MAX,
        ensures
            area.remaining() == square_points(center, half_side as int),
            area.cursor() == Some(
                Point { x: (center.x - half_side) as i32, y: (center.y - half_side) as i32 },
            ),
    {
        SquareArea {
            x: center.x - half_side,
            y: center.y - half_side,
            min_x: center.x - half_side,
            max_x: center.x + half_side,
            max_y: center.y + half_side,
            done: false,
        }
    }

    /// Hands out the next tile of the square, or `None` once all were.
    pub fn next(&mut self) -> (r: Option<Point>)
        ensures
            r == old(self).cursor(),
            r is Some ==> old(self).remaining() == seq![r->0] + final(self).remaining(),
            r is None ==> final(self).remaining() == old(self).remaining()
                && old(self).remaining().len() == 0,
    {
        proof {
            use_type_invariant(&*self);
        }
        if self.done {
            return None;
        }
        let current = Point { x: self.x, y: self.y };
        if self.x < self.max_x {
            self.x = self.x + 1;
        } else if self.y < self.max_y {
            self.x = self.min_x;
            self.y = self.y + 1;
        } else {
            self.done = true;
        }
        Some(current)
    }

    /// All the tiles that are still to come, in order. The cursor is used up.
    pub fn to_vec(self) -> (v: Vec<Point>)
        ensures
            v@ == self.remaining(),
    {
        let mut area = self;
        let mut v: Vec<Point> = Vec::new();
        loop
            invariant
                v@ + area.remaining() == self.remaining(),
            ensures
                v@ == self.remaining(),
            decreases area.remaining().len(),
        {
            proof {
                use_type_invariant(&area);
            }
            let ghost before = area;
            match area.next() {
                Some(p) => {
                    proof {
                        use_type_invariant(&area);
                        assert(v@.push(p) + area.remaining() == v@ + (seq![p] + area.remaining()));
                    }
                    v.push(p);
                },
                None => {
                    proof {
                        assert(v@ + area.remaining() == v@);
                    }
                    break ;
                },
            }
        }
        v
    }
}

/// The tiles of `points` that lie strictly closer than `radius` to `center`.
pub open spec fn inside_circle(points: Seq<Point>, center: Point, radius: int) -> Seq<Point> {
    points.filter(closer_than(center, radius))
}

/// The test that a tile lies strictly closer than `radius` to `center`.
pub open spec fn closer_than(center: Point, radius: int) -> spec_fn(Point) -> bool {
    |p: Point| radius > 0 && distance_squared_spec(p, center) < radius * radius
}

/// A cursor over the tiles strictly closer than `radius` to a centre, read
/// row by row from the top left.
#[derive(Clone, Copy, Debug)]
pub struct CircularArea {
    square: SquareArea,
    center: Point,
    radius: i32,
}

impl CircularArea {
    /// The tiles still to come, in order.
    pub closed spec fn remaining(self) -> Seq<Point> {
        inside_circle(self.square.remaining(), self.center, self.radius as int)
    }

    /// The disc of the given radius around `center`.
    pub fn new(center: Point, radius: i32) -> (area: CircularArea)
        requires
            radius >= 0,
            i32::MIN <= center.x - radius,
            center.x + radius <= i32::MAX,
            i32::MIN <= center.y - radius,
            center.y + radius <= i32::MAX,
        ensures
            area.remaining() == inside_circle(
                square_points(center, radius as int),
                center,
                radius as int,
            ),
    {
        CircularArea { square: SquareArea::new(center, radius), center, radius }
    }

    /// Hands out the next tile of the disc, or `None` once all were.
    pub fn next(&mut self) -> (r: Option<Point>)
        ensures
            r is Some ==> old(self).remaining() == seq![r->0] + final(self).remaining(),
            r is None ==> old(self).remaining().len() == 0 && final(self).remaining().len() == 0,
    {
        let ghost start = *self;
        let center = self.center;
        let radius = self.radius;
        loop
            invariant
                self.center == center,
                self.radius == radius,
                start == *old(self),
                start.center == center,
                start.radius == radius,
                self.remaining() == start.remaining(),
            decreases self.square.remaining().len(),
        {
            proof {
                use_type_invariant(&self.square);
            }
            let ghost before = self.square;
            let ghost pred = closer_than(center, radius as int);
            match self.square.next() {
                None => {
                    proof {
                        assert(before.remaining() =~= Seq::<Point>::empty());
                        assert(before.remaining().filter(pred) =~= Seq::<Point>::empty());
                    }
                    return None;
                },
                Some(p) => {
                    proof {
                        lemma_filter_cons(p, self.square.remaining(), pred);
                        assert(before.remaining().filter(pred) == (seq![p]
                            + self.square.remaining()).filter(pred));
                        assert(pred(p) == (radius > 0 && distance_squared_spec(p, center) < radius
                            * radius));
                    }
                    if p.within_radius(center, radius) {
                        return Some(p);
                    }
                },
            }
        }
    }
}

/// Filtering a sequence with one more element in front keeps or drops that
/// element and filters the rest as before.
pub proof fn lemma_filter_cons<A>(head: A, tail: Seq<A>, pred: spec_fn(A) -> bool)
    ensures
        (seq![head] + tail).filter(pred) == if pred(head) {
            seq![head] + tail.filter(pred)
        } else {
            tail.filter(pred)
        },
{
    let one = seq![head];
    Seq::filter_distributes_over_add(one, tail, pred);
    reveal(Seq::filter);
    assert(one.drop_last() =~= Seq::<A>::empty());
    assert(one.drop_last().filter(pred) =~= Seq::<A>::empty());
    assert(one.filter(pred) =~= if pred(head) {
        seq![head]
    } else {
        Seq::<A>::empty()
    });
    assert(Seq::<A>::empty() + tail.filter(pred) =~= tail.filter(pred));
}

} // verus!
