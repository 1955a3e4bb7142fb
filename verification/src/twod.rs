//! Two-dimensional helpers: component access for screen-space points and
//! vectors on the fixed-point lattice.

use vstd::prelude::*;
use crate::math::{tdiv, FP};
use crate::math::{div_t, lemma_mul_bound, lemma_tdiv_bound};

verus! {

/// Anything holding an indexed row of components.
pub trait HasComponents<T> {
    /// How many components there are.
    fn size(&self) -> usize;

    /// Read one component; out-of-range indices read a default.
    fn get_comp(&self, index: usize) -> T;

    /// Write one component; out-of-range indices are ignored.
    fn set_comp(&mut self, index: usize, value: T);
}

/// Copy one row's components into another.
pub fn set_to<T, A: HasComponents<T>, B: HasComponents<T>>(dst: &mut A, src: &B) {
    let n = dst.size();
    let mut i: usize = 0;
    while i < n
        decreases n - i,
    {
        let v = src.get_comp(i);
        dst.set_comp(i, v);
        i = i + 1;
    }
}

/// A marker for component rows that stand for positions.
pub trait Position: HasComponents<i64> + Clone {

}

/// A screen-space position.
#[derive(Clone, Copy, PartialEq, Eq, Structural, Debug)]
pub struct Pos2 {
    pub x: i64,
    pub y: i64,
}

/// A screen-space displacement.
#[derive(Clone, Copy, PartialEq, Eq, Structural, Debug)]
pub struct Vec2 {
    pub x: i64,
    pub y: i64,
}

impl Pos2 {
    pub fn new(x: i64, y: i64) -> (p: Self)
        ensures
            p.x == x && p.y == y,
    {
        Self { x, y }
    }
}

impl Vec2 {
    pub fn new(x: i64, y: i64) -> (v: Self)
        ensures
            v.x == x && v.y == y,
    {
        Self { x, y }
    }

    /// The fixed-point determinant of two displacements.
    pub fn det(&self, other: &Vec2) -> (d: i64)
        requires
            -0x2000000000 <= self.x <= 0x2000000000,
            -0x2000000000 <= self.y <= 0x2000000000,
            -0x2000000000 <= other.x <= 0x2000000000,
            -0x2000000000 <= other.y <= 0x2000000000,
        ensures
            d == tdiv(self.x * other.y - other.x * self.y, FP as int),
    {
        proof {
            lemma_mul_bound(self.x as int, other.y as int, 0x2000000000, 0x2000000000);
            lemma_mul_bound(other.x as int, self.y as int, 0x2000000000, 0x2000000000);
            assert(0x2000000000 * 0x2000000000 == 0x4000000000000000000int) by (nonlinear_arith);
        }
        let n = (self.x as i128) * (other.y as i128) - (other.x as i128) * (self.y as i128);
        let d = div_t(n, FP as i128);
        proof {
            lemma_tdiv_bound(n as int, FP as int, 0x800000000000000);
        }
        d as i64
    }
}

impl HasComponents<i64> for Vec2 {
    fn size(&self) -> (n: usize)
        ensures
            n == 2,
    {
        2
    }

    fn get_comp(&self, index: usize) -> (v: i64)
        ensures
            v == if index == 0 {
                self.x
            } else if index == 1 {
                self.y
            } else {
                0
            },
    {
        if index == 0 {
            self.x
        } else if index == 1 {
            self.y
        } else {
            0
        }
    }

    fn set_comp(&mut self, index: usize, value: i64)
        ensures
            index == 0 ==> *final(self) == (Vec2 { x: value, y: old(self).y }),
            index == 1 ==> *final(self) == (Vec2 { x: old(self).x, y: value }),
            index > 1 ==> *final(self) == *old(self),
    {
        if index == 0 {
            self.x = value;
        } else if index == 1 {
            self.y = value;
        }
    }
}

impl Position for Pos2 {

}

impl HasComponents<i64> for Pos2 {
    fn size(&self) -> (n: usize)
        ensures
            n == 2,
    {
        2
    }

    fn get_comp(&self, index: usize) -> (v: i64)
        ensures
            v == if index == 0 {
                self.x
            } else if index == 1 {
                self.y
            } else {
                0
            },
    {
        if index == 0 {
            self.x
        } else if index == 1 {
            self.y
        } else {
            0
        }
    }

    fn set_comp(&mut self, index: usize, value: i64)
        ensures
            index == 0 ==> *final(self) == (Pos2 { x: value, y: old(self).y }),
            index == 1 ==> *final(self) == (Pos2 { x: old(self).x, y: value }),
            index > 1 ==> *final(self) == *old(self),
    {
        if index == 0 {
            self.x = value;
        } else if index == 1 {
            self.y = value;
        }
    }
}

} // verus!
