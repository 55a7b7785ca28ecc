//! Points on the integer plane and floor division.
use vstd::prelude::*;
use vstd::arithmetic::div_mod::{lemma_fundamental_div_mod, lemma_fundamental_div_mod_converse};

verus! {

/// A position on the plane, in whole world units.
#[derive(Clone, Copy, Debug, PartialEq, Eq, Structural)]
pub struct Point {
    pub x: i32,
    pub y: i32,
}

impl Point {
    pub fn new(x: i32, y: i32) -> (r: Point)
        ensures
            r.x == x,
            r.y == y,
    {
        Point { x, y }
    }
}

/// Floor of `x / d` (rounds toward negative infinity).
pub fn floor_div(x: i64, d: u32) -> (r: i64)
    requires
        d > 0,
    ensures
        r as int == x as int / d as int,
{
    if x >= 0 {
        let q = (x as u64) / (d as u64);
        proof {
            lemma_fundamental_div_mod(x as int, d as int);
        }
        q as i64
    } else {
        let n: u64 = (-(x + 1)) as u64;
        let q = n / (d as u64);
        proof {
            let m = n % (d as u64);
            lemma_fundamental_div_mod(n as int, d as int);
            assert(n as int == q as int * d as int + m as int) by (nonlinear_arith)
                requires
                    n as int == d as int * (n as int / d as int) + n as int % d as int,
                    q as int == n as int / d as int,
                    m as int == n as int % d as int,
            ;
            assert(x as int == (-(q as int) - 1) * d as int + (d as int - m as int - 1))
                by (nonlinear_arith)
                requires
                    n as int == q as int * d as int + m as int,
                    n as int == -(x as int + 1),
            ;
            lemma_fundamental_div_mod_converse(
                x as int,
                d as int,
                -(q as int) - 1,
                d as int - m as int - 1,
            );
        }
        -(q as i64) - 1
    }
}

} // verus!
