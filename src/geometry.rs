use vstd::prelude::*;

verus! {

/// Fixed-point scale: this many integer steps make one unit of length.
pub const UNIT: i64 = 1000;

/// A 2-D vector (or point) in fixed-point integer coordinates.
#[derive(Clone, Copy, Debug, PartialEq, Eq, Structural)]
pub struct Vec2 {
    pub x: i64,
    pub y: i64,
}

impl Vec2 {
    pub fn new(x: i64, y: i64) -> (r: Vec2)
        ensures
            r.x == x,
            r.y == y,
    {
        Vec2 { x, y }
    }

    pub open spec fn zero_spec() -> Vec2 {
        Vec2 { x: 0, y: 0 }
    }

    pub fn zero() -> (r: Vec2)
        ensures
            r == Vec2::zero_spec(),
    {
        Vec2 { x: 0, y: 0 }
    }

    /// Componentwise sum (the caller keeps it in range).
    pub open spec fn plus(self, o: Vec2) -> Vec2 {
        Vec2 { x: (self.x + o.x) as i64, y: (self.y + o.y) as i64 }
    }

    /// Componentwise difference (the caller keeps it in range).
    pub open spec fn minus(self, o: Vec2) -> Vec2 {
        Vec2 { x: (self.x - o.x) as i64, y: (self.y - o.y) as i64 }
    }

    pub fn add(self, o: Vec2) -> (r: Vec2)
        requires
            i64::MIN <= self.x + o.x <= i64::MAX,
            i64::MIN <= self.y + o.y <= i64::MAX,
        ensures
            r == self.plus(o),
    {
        Vec2 { x: self.x + o.x, y: self.y + o.y }
    }

    pub fn sub(self, o: Vec2) -> (r: Vec2)
        requires
            i64::MIN <= self.x - o.x <= i64::MAX,
            i64::MIN <= self.y - o.y <= i64::MAX,
        ensures
            r == self.minus(o),
    {
        Vec2 { x: self.x - o.x, y: self.y - o.y }
    }

    /// Whether this is the zero vector, the one vector of length zero.
    pub fn is_zero(&self) -> (r: bool)
        ensures
            r == (self.len_sq() == 0),
            r == (self.x == 0 && self.y == 0),
            self.len_sq() >= 0,
    {
        proof {
            let x = self.x as int;
            let y = self.y as int;
            assert((x * x + y * y == 0) == (x == 0 && y == 0)) by (nonlinear_arith);
            assert(x * x + y * y >= 0) by (nonlinear_arith);
        }
        self.x == 0 && self.y == 0
    }

    /// Squared Euclidean length, as a mathematical integer.
    pub open spec fn len_sq(self) -> int {
        self.x * self.x + self.y * self.y
    }
}

/// Squared distance between two points.
pub open spec fn dist_sq(a: Vec2, b: Vec2) -> int {
    (a.x - b.x) * (a.x - b.x) + (a.y - b.y) * (a.y - b.y)
}

/// An axis-aligned rectangle: `(x, y)` is its top-left corner.
#[derive(Clone, Copy, Debug, PartialEq, Eq, Structural)]
pub struct Rectangle {
    pub x: i64,
    pub y: i64,
    pub width: i64,
    pub height: i64,
}

impl Rectangle {
    /// Left/top edges inclusive, right/bottom edges exclusive.
    pub open spec fn contains_spec(self, p: Vec2) -> bool {
        &&& self.x <= p.x < self.x + self.width
        &&& self.y <= p.y < self.y + self.height
    }

    /// The strict separation test, negated.
    pub open spec fn intersects_spec(self, o: Rectangle) -> bool {
        !(o.x > self.x + self.width || o.x + o.width < self.x || o.y > self.y + self.height
            || o.y + o.height < self.y)
    }

    /// Every point of `self` lies in `o`.
    pub open spec fn within(self, o: Rectangle) -> bool {
        forall|p: Vec2| #[trigger] self.contains_spec(p) ==> o.contains_spec(p)
    }

    pub fn new(x: i64, y: i64, width: i64, height: i64) -> (r: Rectangle)
        ensures
            r.x == x,
            r.y == y,
            r.width == width,
            r.height == height,
    {
        Rectangle { x, y, width, height }
    }

    pub fn intersects(&self, rect: &Rectangle) -> (r: bool)
        ensures
            r == self.intersects_spec(*rect),
    {
        let sx = self.x as i128;
        let sy = self.y as i128;
        let ox = rect.x as i128;
        let oy = rect.y as i128;
        !(ox > sx + self.width as i128 || ox + (rect.width as i128) < sx || oy > sy
            + self.height as i128 || oy + (rect.height as i128) < sy)
    }

    pub fn point_inside_rect(&self, point: Vec2) -> (r: bool)
        ensures
            r == self.contains_spec(point),
    {
        self.x <= point.x && self.y <= point.y && (self.x as i128) + (self.width as i128)
            > point.x as i128 && (self.y as i128) + (self.height as i128) > point.y as i128
    }
}

/// Rectangles that the intersection test rejects share no point.
pub proof fn lemma_disjoint(a: Rectangle, b: Rectangle, p: Vec2)
    requires
        !a.intersects_spec(b),
    ensures
        !(a.contains_spec(p) && b.contains_spec(p)),
{
}

/// Intersection is symmetric.
pub proof fn lemma_intersects_symmetric(a: Rectangle, b: Rectangle)
    ensures
        a.intersects_spec(b) == b.intersects_spec(a),
{
}

} // verus!
