use vstd::prelude::*;

verus! {

/// A point of the integer grid on which bounding boxes live.
#[derive(Clone, Copy, Debug, PartialEq, Eq, Structural)]
pub struct Point3 {
    pub x: i32,
    pub y: i32,
    pub z: i32,
}

impl Point3 {
    /// Componentwise `<=`.
    pub open spec fn le(self, other: Point3) -> bool {
        self.x <= other.x && self.y <= other.y && self.z <= other.z
    }

    /// Componentwise minimum.
    pub open spec fn inf_of(self, other: Point3) -> Point3 {
        Point3 {
            x: if self.x <= other.x { self.x } else { other.x },
            y: if self.y <= other.y { self.y } else { other.y },
            z: if self.z <= other.z { self.z } else { other.z },
        }
    }

    /// Componentwise maximum.
    pub open spec fn sup_of(self, other: Point3) -> Point3 {
        Point3 {
            x: if self.x >= other.x { self.x } else { other.x },
            y: if self.y >= other.y { self.y } else { other.y },
            z: if self.z >= other.z { self.z } else { other.z },
        }
    }

    pub fn new(x: i32, y: i32, z: i32) -> (p: Point3)
        ensures
            p == (Point3 { x, y, z }),
    {
        Point3 { x, y, z }
    }

    /// The componentwise minimum of two points.
    pub fn inf(&self, other: &Point3) -> (p: Point3)
        ensures
            p == self.inf_of(*other),
    {
        Point3 {
            x: if self.x <= other.x { self.x } else { other.x },
            y: if self.y <= other.y { self.y } else { other.y },
            z: if self.z <= other.z { self.z } else { other.z },
        }
    }

    /// The componentwise maximum of two points.
    pub fn sup(&self, other: &Point3) -> (p: Point3)
        ensures
            p == self.sup_of(*other),
    {
        Point3 {
            x: if self.x >= other.x { self.x } else { other.x },
            y: if self.y >= other.y { self.y } else { other.y },
            z: if self.z >= other.z { self.z } else { other.z },
        }
    }
}

/// An axis-aligned bounding box: the closed box between `start` and `end`.
#[derive(Clone, Copy, Debug)]
pub struct AABB {
    start: Point3,
    end: Point3,
}

impl AABB {
    /// The corner with the smallest coordinates.
    pub closed spec fn lo(self) -> Point3 {
        self.start
    }

    /// The corner with the largest coordinates.
    pub closed spec fn hi(self) -> Point3 {
        self.end
    }

    /// Every value of this type keeps `start` componentwise below `end`.
    #[verifier::type_invariant]
    pub closed spec fn ordered(self) -> bool {
        self.start.le(self.end)
    }

    /// The box with the given corners, as a mathematical value.
    pub closed spec fn of(start: Point3, end: Point3) -> AABB {
        AABB { start, end }
    }

    /// The smallest box that contains both boxes.
    pub open spec fn merged(self, other: AABB) -> AABB {
        AABB::of(self.lo().inf_of(other.lo()), self.hi().sup_of(other.hi()))
    }

    pub open spec fn meets_x(self, other: AABB) -> bool {
        self.lo().x <= other.hi().x && other.lo().x <= self.hi().x
    }

    pub open spec fn meets_y(self, other: AABB) -> bool {
        self.lo().y <= other.hi().y && other.lo().y <= self.hi().y
    }

    pub open spec fn meets_z(self, other: AABB) -> bool {
        self.lo().z <= other.hi().z && other.lo().z <= self.hi().z
    }

    /// The closed intervals of the two boxes intersect on every axis.
    pub open spec fn meets(self, other: AABB) -> bool {
        self.meets_x(other) && self.meets_y(other) && self.meets_z(other)
    }

    /// The point lies in the box, borders included.
    pub open spec fn contains_point(self, p: Point3) -> bool {
        self.lo().le(p) && p.le(self.hi())
    }

    /// The other box lies in this one.
    pub open spec fn encloses(self, other: AABB) -> bool {
        self.lo().le(other.lo()) && other.hi().le(self.hi())
    }

    /// By how much the volume grows when `other` is merged into this box.
    pub open spec fn growth_by(self, other: AABB) -> int {
        self.merged(other).volume() - self.volume()
    }

    /// The number of grid cells spanned: the product of the three extents.
    pub open spec fn volume(self) -> int {
        (self.hi().x - self.lo().x) * (self.hi().y - self.lo().y) * (self.hi().z - self.lo().z)
    }

    /// A box is determined by its two corners.
    pub broadcast proof fn corners_determine(start: Point3, end: Point3)
        ensures
            (#[trigger] AABB::of(start, end)).lo() == start,
            AABB::of(start, end).hi() == end,
    {
    }

    /// Two boxes with the same corners are the same box.
    pub proof fn equal_by_corners(a: AABB, b: AABB)
        requires
            a.lo() == b.lo(),
            a.hi() == b.hi(),
        ensures
            a == b,
    {
    }

    /// `merged` does not depend on the order of its arguments.
    pub proof fn merge_commutative(a: AABB, b: AABB)
        ensures
            a.merged(b) == b.merged(a),
    {
    }

    /// `merged` may be grouped either way.
    pub proof fn merge_associative(a: AABB, b: AABB, c: AABB)
        ensures
            a.merged(b).merged(c) == a.merged(b.merged(c)),
    {
    }

    /// The box that `merged` gives encloses both arguments, and is enclosed
    /// by every box that encloses both.
    pub proof fn merge_is_least_enclosing(a: AABB, b: AABB, c: AABB)
        ensures
            a.merged(b).encloses(a),
            a.merged(b).encloses(b),
            c.encloses(a) && c.encloses(b) ==> c.encloses(a.merged(b)),
    {
    }

    /// Two boxes overlap whichever of them is asked.
    pub proof fn overlaps_symmetric(a: AABB, b: AABB)
        ensures
            a.meets(b) == b.meets(a),
            a.meets_x(b) == b.meets_x(a),
            a.meets_y(b) == b.meets_y(a),
            a.meets_z(b) == b.meets_z(a),
    {
    }

    /// A box overlaps the one-point box of each point that lies in it.
    pub proof fn point_inside_overlaps(a: AABB, p: Point3)
        requires
            a.contains_point(p),
        ensures
            a.meets(AABB::of(p, p)),
            AABB::of(p, p).meets(a),
    {
    }

    /// Every box encloses itself.
    pub proof fn encloses_reflexive(a: AABB)
        ensures
            a.encloses(a),
    {
    }

    /// Two boxes that enclose each other are the same box.
    pub proof fn encloses_antisymmetric(a: AABB, b: AABB)
        requires
            a.encloses(b),
            b.encloses(a),
        ensures
            a == b,
    {
    }

    /// `encloses` is transitive.
    pub proof fn encloses_transitive(a: AABB, b: AABB, c: AABB)
        requires
            a.encloses(b),
            b.encloses(c),
        ensures
            a.encloses(c),
    {
    }

    /// Merging a box into an enclosing one keeps it enclosing, also after the
    /// same box was merged into the enclosed one.
    pub proof fn merge_monotone(outer: AABB, inner: AABB, x: AABB)
        requires
            outer.encloses(inner),
        ensures
            outer.merged(x).encloses(inner),
            outer.merged(x).encloses(x),
            outer.merged(x).encloses(inner.merged(x)),
    {
    }

    /// What overlaps a box overlaps every box that encloses it.
    pub proof fn enclosed_overlap(outer: AABB, inner: AABB, q: AABB)
        requires
            outer.encloses(inner),
            inner.meets(q),
        ensures
            outer.meets(q),
    {
    }

    /// The volume of a box with ordered corners is at most that of a box
    /// that encloses it.
    pub proof fn volume_monotone(outer: AABB, inner: AABB)
        requires
            outer.encloses(inner),
            inner.lo().le(inner.hi()),
        ensures
            0 <= inner.volume() <= outer.volume(),
    {
        let (a, b, c) = (
            inner.hi().x - inner.lo().x,
            inner.hi().y - inner.lo().y,
            inner.hi().z - inner.lo().z,
        );
        let (d, e, f) = (
            outer.hi().x - outer.lo().x,
            outer.hi().y - outer.lo().y,
            outer.hi().z - outer.lo().z,
        );
        assert(0 <= a * b <= d * e) by (nonlinear_arith)
            requires
                0 <= a <= d,
                0 <= b <= e,
        ;
        assert(0 <= (a * b) * c <= (d * e) * f) by (nonlinear_arith)
            requires
                0 <= a * b <= d * e,
                0 <= c <= f,
        ;
    }

    /// The volume of a box with ordered corners is below `2^96`.
    pub proof fn volume_bounded(b: AABB)
        requires
            b.lo().le(b.hi()),
        ensures
            0 <= b.volume() <= 0xFFFF_FFFF * 0xFFFF_FFFF * 0xFFFF_FFFF,
    {
        let (d, e, f) = (b.hi().x - b.lo().x, b.hi().y - b.lo().y, b.hi().z - b.lo().z);
        assert(0 <= d * e <= 0xFFFF_FFFF * 0xFFFF_FFFF) by (nonlinear_arith)
            requires
                0 <= d <= 0xFFFF_FFFF,
                0 <= e <= 0xFFFF_FFFF,
        ;
        assert(0 <= (d * e) * f <= (0xFFFF_FFFF * 0xFFFF_FFFF) * 0xFFFF_FFFF) by (nonlinear_arith)
            requires
                0 <= d * e <= 0xFFFF_FFFF * 0xFFFF_FFFF,
                0 <= f <= 0xFFFF_FFFF,
        ;
    }

    /// Creates the box between `start` and `end`.
    pub fn new(start: Point3, end: Point3) -> (b: AABB)
        requires
            start.le(end),
        ensures
            b == AABB::of(start, end),
            b.lo() == start,
            b.hi() == end,
    {
        AABB { start, end }
    }

    /// Creates the box that encloses both boxes.
    pub fn merge(&self, other: &AABB) -> (b: AABB)
        ensures
            b == self.merged(*other),
    {
        proof {
            use_type_invariant(self);
            use_type_invariant(other);
        }
        AABB { start: self.start.inf(&other.start), end: self.end.sup(&other.end) }
    }

    /// Whether the two boxes overlap, borders included.
    #[inline]
    pub fn overlaps(&self, other: &AABB) -> (r: bool)
        ensures
            r == self.meets(*other),
    {
        self.start.x <= other.end.x && self.start.y <= other.end.y && self.start.z <= other.end.z
            && other.start.x <= self.end.x && other.start.y <= self.end.y && other.start.z
            <= self.end.z
    }

    /// Whether the two boxes overlap on the x and y axes.
    #[inline]
    pub fn overlaps_xy(&self, other: &AABB) -> (r: bool)
        ensures
            r == (self.meets_x(*other) && self.meets_y(*other)),
    {
        self.start.x <= other.end.x && self.start.y <= other.end.y && other.start.x <= self.end.x
            && other.start.y <= self.end.y
    }

    /// Whether the two boxes overlap on the x and z axes.
    #[inline]
    pub fn overlaps_xz(&self, other: &AABB) -> (r: bool)
        ensures
            r == (self.meets_x(*other) && self.meets_z(*other)),
    {
        self.start.x <= other.end.x && self.start.z <= other.end.z && other.start.x <= self.end.x
            && other.start.z <= self.end.z
    }

    /// Whether the two boxes overlap on the y and z axes.
    #[inline]
    pub fn overlaps_yz(&self, other: &AABB) -> (r: bool)
        ensures
            r == (self.meets_y(*other) && self.meets_z(*other)),
    {
        self.start.y <= other.end.y && self.start.z <= other.end.z && other.start.y <= self.end.y
            && other.start.z <= self.end.z
    }

    /// Whether the two boxes overlap on the x axis.
    #[inline]
    pub fn overlaps_x(&self, other: &AABB) -> (r: bool)
        ensures
            r == self.meets_x(*other),
    {
        self.start.x <= other.end.x && other.start.x <= self.end.x
    }

    /// Whether the two boxes overlap on the y axis.
    #[inline]
    pub fn overlaps_y(&self, other: &AABB) -> (r: bool)
        ensures
            r == self.meets_y(*other),
    {
        self.start.y <= other.end.y && other.start.y <= self.end.y
    }

    /// Whether the two boxes overlap on the z axis.
    #[inline]
    pub fn overlaps_z(&self, other: &AABB) -> (r: bool)
        ensures
            r == self.meets_z(*other),
    {
        self.start.z <= other.end.z && other.start.z <= self.end.z
    }

    /// The volume of the box: the product of its three extents.
    pub fn size(&self) -> (v: u128)
        ensures
            v == self.volume(),
    {
        proof {
            use_type_invariant(self);
            Self::volume_bounded(*self);
        }
        let dx: u128 = (self.end.x as i64 - self.start.x as i64) as u128;
        let dy: u128 = (self.end.y as i64 - self.start.y as i64) as u128;
        let dz: u128 = (self.end.z as i64 - self.start.z as i64) as u128;
        assert(dx * dy <= 0xFFFF_FFFF * 0xFFFF_FFFF) by (nonlinear_arith)
            requires
                dx <= 0xFFFF_FFFF,
                dy <= 0xFFFF_FFFF,
        ;
        dx * dy * dz
    }

    /// By how much the volume of this box grows when it is merged with
    /// `other`.
    pub fn growth(&self, other: &AABB) -> (g: u128)
        ensures
            g == self.growth_by(*other),
    {
        let both = self.merge(other);
        proof {
            use_type_invariant(self);
            Self::volume_monotone(both, *self);
        }
        both.size() - self.size()
    }

    #[inline]
    pub fn start(&self) -> (p: &Point3)
        ensures
            *p == self.lo(),
            self.lo().le(self.hi()),
    {
        proof {
            use_type_invariant(self);
        }
        &self.start
    }

    #[inline]
    pub fn end(&self) -> (p: &Point3)
        ensures
            *p == self.hi(),
            self.lo().le(self.hi()),
    {
        proof {
            use_type_invariant(self);
        }
        &self.end
    }
}

} // verus!
