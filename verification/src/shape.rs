//! Shapes: groups of triangles that hang together.

use vstd::prelude::*;
use crate::delaunay::all_wf;
use crate::triangle::{lemma_circum_bounds, Ratio, Triangle};

verus! {

/// A connected cluster of triangles.
#[derive(Debug, Clone, PartialEq, Eq)]
pub struct Shape2D {
    pub triangles: Vec<Triangle>,
}

/// Four times the area of all the triangles together.
pub open spec fn fourfold_area_sum(ts: Seq<Triangle>) -> int
    decreases ts.len(),
{
    if ts.len() == 0 {
        0
    } else {
        fourfold_area_sum(ts.drop_last()) + ts.last().fourfold_area()
    }
}

impl Shape2D {
    /// The shape that consists of the given triangles.
    pub fn new(triangles: Vec<Triangle>) -> (r: Shape2D)
        ensures
            r.triangles == triangles,
    {
        Shape2D { triangles }
    }

    /// The area of the shape, the sum of the areas of its triangles, as a
    /// fraction over four.
    pub fn area(&self) -> (r: Ratio)
        requires
            all_wf(self.triangles@),
        ensures
            r.den == 4,
            r.num == fourfold_area_sum(self.triangles@),
    {
        let n: usize = self.triangles.len();
        let mut sum: i128 = 0;
        let mut i: usize = 0;
        while i < n
            invariant
                i <= n,
                n == self.triangles@.len(),
                all_wf(self.triangles@),
                sum == fourfold_area_sum(self.triangles@.take(i as int)),
                0 <= sum <= i * 0x300_0000_0000,
            decreases n - i,
        {
            let t: &Triangle = &self.triangles[i];
            proof {
                assert(self.triangles@.take(i + 1).drop_last() =~= self.triangles@.take(i as int));
                assert(t.wf());
                lemma_circum_bounds(t.a, t.b, t.c);
            }
            let part: Ratio = t.area();
            sum = sum + part.num;
            i += 1;
        }
        proof {
            assert(self.triangles@.take(n as int) =~= self.triangles@);
        }
        Ratio { num: sum, den: 4 }
    }
}

} // verus!
