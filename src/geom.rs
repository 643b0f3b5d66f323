use vstd::prelude::*;

verus! {

/// An integer vector on the tile grid.
#[derive(Copy, Clone, Debug, PartialEq, Eq, Structural)]
pub struct Vec {
    pub x: i32,
    pub y: i32,
}

/// A unit step in one of the four grid directions.
#[derive(Copy, Clone, Debug, PartialEq, Eq, Structural)]
pub struct Dir(Vec);

/// Whether `v` is one of the four unit steps.
pub open spec fn is_unit_step(v: Vec) -> bool {
    (v.x == 0 && (v.y == 1 || v.y == -1)) || (v.y == 0 && (v.x == 1 || v.x == -1))
}

/// Whether the coordinate-wise sum of `a` and `b` fits in `i32`.
pub open spec fn sum_fits(a: Vec, b: Vec) -> bool {
    i32::MIN <= a.x + b.x <= i32::MAX && i32::MIN <= a.y + b.y <= i32::MAX
}

/// The coordinate-wise sum of `a` and `b`; meaningful where `sum_fits(a, b)`.
pub open spec fn spec_add(a: Vec, b: Vec) -> Vec {
    Vec { x: (a.x + b.x) as i32, y: (a.y + b.y) as i32 }
}

impl Vec {
    pub fn new(x: i32, y: i32) -> (r: Vec)
        ensures
            r.x == x,
            r.y == y,
    {
        Vec { x, y }
    }

    /// Coordinate-wise sum, or `None` where a coordinate leaves `i32`.
    pub fn checked_add(self, other: Vec) -> (r: Option<Vec>)
        ensures
            r == (if sum_fits(self, other) { Some(spec_add(self, other)) } else { None::<Vec> }),
    {
        match (self.x.checked_add(other.x), self.y.checked_add(other.y)) {
            (Some(x), Some(y)) => Some(Vec { x, y }),
            _ => None,
        }
    }
}

impl Dir {
    /// The step this direction stands for.
    pub closed spec fn spec_vec(self) -> Vec {
        self.0
    }

    pub fn to_vec(self) -> (r: Vec)
        ensures
            r == self.spec_vec(),
    {
        self.0
    }

    pub closed spec fn spec_up() -> Dir {
        Dir(Vec { x: 0, y: -1i32 })
    }

    pub closed spec fn spec_down() -> Dir {
        Dir(Vec { x: 0, y: 1 })
    }

    pub closed spec fn spec_left() -> Dir {
        Dir(Vec { x: -1i32, y: 0 })
    }

    pub closed spec fn spec_right() -> Dir {
        Dir(Vec { x: 1, y: 0 })
    }

    /// The direction whose step is `v`, where `v` is one of the four unit
    /// steps.
    pub fn from_vec(v: Vec) -> (r: Option<Dir>)
        ensures
            r.is_some() <==> is_unit_step(v),
            r.is_some() ==> r.unwrap().spec_vec() == v,
    {
        if (v.x == 0 && (v.y == 1 || v.y == -1)) || (v.y == 0 && (v.x == 1 || v.x == -1)) {
            Some(Dir(v))
        } else {
            None
        }
    }

    pub fn up() -> (r: Dir)
        ensures
            r == Dir::spec_up(),
            r.spec_vec() == (Vec { x: 0, y: -1i32 }),
    {
        Dir(Vec { x: 0, y: -1 })
    }

    pub fn down() -> (r: Dir)
        ensures
            r == Dir::spec_down(),
            r.spec_vec() == (Vec { x: 0, y: 1 }),
    {
        Dir(Vec { x: 0, y: 1 })
    }

    pub fn left() -> (r: Dir)
        ensures
            r == Dir::spec_left(),
            r.spec_vec() == (Vec { x: -1i32, y: 0 }),
    {
        Dir(Vec { x: -1, y: 0 })
    }

    pub fn right() -> (r: Dir)
        ensures
            r == Dir::spec_right(),
            r.spec_vec() == (Vec { x: 1, y: 0 }),
    {
        Dir(Vec { x: 1, y: 0 })
    }
}

} // verus!
