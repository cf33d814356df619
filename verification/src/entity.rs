//! The entity capability the masked effect consumes: something that can
//! enumerate which buffer coordinates belong to its silhouette and which of
//! those lie on its border.

use vstd::prelude::*;

verus! {

/// A buffer coordinate.
#[derive(Clone, Copy, Debug, PartialEq, Eq, Hash, Structural)]
pub struct Point {
    pub x: usize,
    pub y: usize,
}

/// A renderable entity: anything that can enumerate its silhouette as
/// `(coordinate, is-border)` pairs in the buffer's coordinate space.
///
/// `hit_box_spec` is the mathematical content of the enumeration;
/// `hit_box` must produce exactly that sequence.
pub trait Entity {
    spec fn hit_box_spec(&self) -> Seq<(Point, bool)>;

    fn hit_box(&self) -> (r: Vec<(Point, bool)>)
        ensures
            r@ == self.hit_box_spec(),
    ;
}

/// A silhouette descriptor held as an explicit list of
/// `(coordinate, is-border)` pairs.
pub struct Silhouette {
    pub points: Vec<(Point, bool)>,
}

impl Silhouette {
    /// An empty silhouette.
    pub fn new() -> (r: Silhouette)
        ensures
            r.points@.len() == 0,
    {
        Silhouette { points: Vec::new() }
    }

    /// Record one more coordinate of the silhouette.
    pub fn push(&mut self, p: Point, is_border: bool)
        ensures
            final(self).points@ == old(self).points@.push((p, is_border)),
    {
        self.points.push((p, is_border));
    }
}

impl Entity for Silhouette {
    open spec fn hit_box_spec(&self) -> Seq<(Point, bool)> {
        self.points@
    }

    fn hit_box(&self) -> (r: Vec<(Point, bool)>)
        ensures
            r@ == self.hit_box_spec(),
    {
        let mut r: Vec<(Point, bool)> = Vec::new();
        let mut k: usize = 0;
        while k < self.points.len()
            invariant
                k <= self.points@.len(),
                r@ == self.points@.take(k as int),
            decreases self.points@.len() - k,
        {
            let e = self.points[k];
            r.push(e);
            proof {
                assert(r@ =~= self.points@.take(k + 1 as int));
            }
            k = k + 1;
        }
        proof {
            assert(r@ =~= self.points@);
        }
        r
    }
}

} // verus!
