use vstd::prelude::*;

verus! {

/// A 2D integer coordinate, used both as a point on a grid and as a
/// direction or offset vector.
#[derive(Debug, PartialEq, Eq, Structural, Hash, Clone, Copy)]
pub struct Position {
    pub x: i32,
    pub y: i32,
}

/// The unit vector pointing up (towards increasing `y`).
pub open spec fn dir_up() -> Position {
    Position { x: 0, y: 1 }
}

/// The unit vector pointing down (towards decreasing `y`).
pub open spec fn dir_down() -> Position {
    Position { x: 0, y: -1i32 }
}

/// The unit vector pointing left (towards decreasing `x`).
pub open spec fn dir_left() -> Position {
    Position { x: -1i32, y: 0 }
}

/// The unit vector pointing right (towards increasing `x`).
pub open spec fn dir_right() -> Position {
    Position { x: 1, y: 0 }
}

/// The four cardinal directions, in the order the engines scan them.
pub open spec fn cardinal_directions() -> Seq<Position> {
    seq![dir_up(), dir_down(), dir_left(), dir_right()]
}

/// True exactly of the four cardinal unit vectors.
pub open spec fn is_cardinal(d: Position) -> bool {
    d == dir_up() || d == dir_down() || d == dir_left() || d == dir_right()
}

/// The `x` component of `p` seen from the canonical "looking north" frame of
/// `dir`, mapped into absolute grid space (see `Position::quadrant_transform`).
pub open spec fn quadrant_transform_x(p: Position, dir: Position, o: Position) -> int {
    if dir == dir_up() {
        p.x + o.y
    } else if dir == dir_down() {
        p.x + o.y
    } else if dir == dir_left() {
        p.x - o.x
    } else {
        p.x + o.x
    }
}

/// The `y` component of the quadrant transform (see `quadrant_transform_x`).
pub open spec fn quadrant_transform_y(p: Position, dir: Position, o: Position) -> int {
    if dir == dir_up() {
        p.y + o.x
    } else if dir == dir_down() {
        p.y - o.x
    } else if dir == dir_left() {
        p.y + o.y
    } else {
        p.y + o.y
    }
}

/// Whether `v` holds `x`.
pub fn vec_contains_pos(v: &Vec<Position>, x: &Position) -> (r: bool)
    ensures
        r == v@.contains(*x),
{
    let n = v.len();
    let mut i: usize = 0;
    while i < n
        invariant
            i <= n,
            n == v@.len(),
            forall|k: int| 0 <= k < i ==> v@[k] != *x,
        decreases n - i,
    {
        if v[i].x == x.x && v[i].y == x.y {
            return true;
        }
        i = i + 1;
    }
    false
}

impl Position {
    pub fn new(x: i32, y: i32) -> (r: Self)
        ensures
            r == (Position { x, y }),
    {
        Position { x, y }
    }

    /// The zero vector.
    pub fn zero() -> (r: Self)
        ensures
            r == (Position { x: 0, y: 0 }),
    {
        Position { x: 0, y: 0 }
    }

    /// The unit vector pointing up.
    pub fn up() -> (r: Self)
        ensures
            r == dir_up(),
    {
        Position { x: 0, y: 1 }
    }

    /// The unit vector pointing down.
    pub fn down() -> (r: Self)
        ensures
            r == dir_down(),
    {
        Position { x: 0, y: -1i32 }
    }

    /// The unit vector pointing left.
    pub fn left() -> (r: Self)
        ensures
            r == dir_left(),
    {
        Position { x: -1i32, y: 0 }
    }

    /// The unit vector pointing right.
    pub fn right() -> (r: Self)
        ensures
            r == dir_right(),
    {
        Position { x: 1, y: 0 }
    }

    /// Vector addition.
    pub fn add(&self, other: &Self) -> (r: Self)
        requires
            i32::MIN <= self.x + other.x <= i32::MAX,
            i32::MIN <= self.y + other.y <= i32::MAX,
        ensures
            r.x == self.x + other.x,
            r.y == self.y + other.y,
    {
        Position { x: self.x + other.x, y: self.y + other.y }
    }

    /// Vector subtraction.
    pub fn sub(&self, other: &Self) -> (r: Self)
        requires
            i32::MIN <= self.x - other.x <= i32::MAX,
            i32::MIN <= self.y - other.y <= i32::MAX,
        ensures
            r.x == self.x - other.x,
            r.y == self.y - other.y,
    {
        Position { x: self.x - other.x, y: self.y - other.y }
    }

    /// Multiplication by a scalar.
    pub fn mul(&self, scalar: i32) -> (r: Self)
        requires
            i32::MIN <= self.x * scalar <= i32::MAX,
            i32::MIN <= self.y * scalar <= i32::MAX,
        ensures
            r.x == self.x * scalar,
            r.y == self.y * scalar,
    {
        Position { x: self.x * scalar, y: self.y * scalar }
    }

    /// Component-wise absolute value.
    pub fn abs(&self) -> (r: Self)
        requires
            self.x != i32::MIN,
            self.y != i32::MIN,
        ensures
            r.x == if self.x >= 0 { self.x as int } else { -(self.x as int) },
            r.y == if self.y >= 0 { self.y as int } else { -(self.y as int) },
    {
        let x = if self.x >= 0 { self.x } else { -self.x };
        let y = if self.y >= 0 { self.y } else { -self.y };
        Position { x, y }
    }

    /// The squared Euclidean distance between two positions, exact.
    pub fn distance2(&self, other: &Self) -> (r: i128)
        ensures
            r == (self.x - other.x) * (self.x - other.x) + (self.y - other.y) * (self.y
                - other.y),
    {
        let dx: i128 = self.x as i128 - other.x as i128;
        let dy: i128 = self.y as i128 - other.y as i128;
        proof {
            assert(dx * dx + dy * dy <= i128::MAX && dx * dx >= 0 && dy * dy >= 0 && dx * dx
                + dy * dy >= 0) by (nonlinear_arith)
                requires
                    -0x1_0000_0000_0 <= dx <= 0x1_0000_0000_0,
                    -0x1_0000_0000_0 <= dy <= 0x1_0000_0000_0,
            ;
        }
        dx * dx + dy * dy
    }

    /// The four cardinal neighbors of this position, in the order
    /// up, down, left, right.
    pub fn neighbors(&self) -> (r: Vec<Self>)
        requires
            i32::MIN < self.x < i32::MAX,
            i32::MIN < self.y < i32::MAX,
        ensures
            r@.len() == 4,
            forall|k: int|
                0 <= k < 4 ==> #[trigger] r@[k] == (Position {
                    x: (self.x + cardinal_directions()[k].x) as i32,
                    y: (self.y + cardinal_directions()[k].y) as i32,
                }),
    {
        let mut r: Vec<Position> = Vec::new();
        r.push(Position { x: self.x, y: self.y + 1 });
        r.push(Position { x: self.x, y: self.y - 1 });
        r.push(Position { x: self.x - 1, y: self.y });
        r.push(Position { x: self.x + 1, y: self.y });
        proof {
            assert(cardinal_directions()[0] == dir_up());
            assert(cardinal_directions()[1] == dir_down());
            assert(cardinal_directions()[2] == dir_left());
            assert(cardinal_directions()[3] == dir_right());
        }
        r
    }

    /// Maps `other`, expressed in the canonical "looking north" quadrant
    /// frame, into absolute grid space for the cardinal direction `dir`,
    /// with this position as the origin.
    pub fn quadrant_transform(&self, dir: &Self, other: &Self) -> (r: Self)
        requires
            is_cardinal(*dir),
            i32::MIN <= quadrant_transform_x(*self, *dir, *other) <= i32::MAX,
            i32::MIN <= quadrant_transform_y(*self, *dir, *other) <= i32::MAX,
        ensures
            r.x == quadrant_transform_x(*self, *dir, *other),
            r.y == quadrant_transform_y(*self, *dir, *other),
    {
        if dir.x == 0 && dir.y == 1 {
            Position { x: self.x + other.y, y: self.y + other.x }
        } else if dir.x == 0 && dir.y == -1 {
            Position { x: self.x + other.y, y: self.y - other.x }
        } else if dir.x == -1 && dir.y == 0 {
            Position { x: self.x - other.x, y: self.y + other.y }
        } else {
            Position { x: self.x + other.x, y: self.y + other.y }
        }
    }

    /// The four cardinal neighbors' directions as concrete values,
    /// in the order up, down, left, right.
    pub fn directions() -> (r: Vec<Self>)
        ensures
            r@ == cardinal_directions(),
    {
        let mut r: Vec<Position> = Vec::new();
        r.push(Position { x: 0, y: 1 });
        r.push(Position { x: 0, y: -1i32 });
        r.push(Position { x: -1i32, y: 0 });
        r.push(Position { x: 1, y: 0 });
        proof {
            assert(r@ =~= cardinal_directions());
        }
        r
    }
}

} // verus!
