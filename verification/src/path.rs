//! The path value object: an ordered sequence of distinct vertices together
//! with its running compounded rate, the exact product of the edge rates
//! accepted by `append`.

use vstd::prelude::*;

use crate::graph::Vertex;
use crate::rate::Rate;

verus! {

/// A simple path under construction.  `append` refuses a vertex that is
/// already present, so the sequence never repeats a vertex.
#[derive(Debug)]
pub struct Path {
    pub verts: Vec<Vertex>,
    pub rate: Rate,
}

impl View for Path {
    type V = Seq<Vertex>;

    open spec fn view(&self) -> Seq<Vertex> {
        self.verts@
    }
}

impl Path {
    /// The singleton path standing at `v`, with the neutral rate `1/1`.
    pub fn new(v: Vertex) -> (p: Path)
        ensures
            p@ == seq![v],
            p.rate == (Rate { num: 1, den: 1 }),
    {
        let mut verts: Vec<Vertex> = Vec::new();
        verts.push(v);
        proof {
            assert(verts@ =~= seq![v]);
        }
        Path { verts, rate: Rate { num: 1, den: 1 } }
    }

    /// Is `v` already on the path?
    pub fn contains(&self, v: &Vertex) -> (r: bool)
        ensures
            r == self@.contains(*v),
    {
        let mut i: usize = 0;
        while i < self.verts.len()
            invariant
                i <= self@.len(),
                forall|k: int| 0 <= k < i ==> self@[k] != *v,
            decreases self@.len() - i,
        {
            if self.verts[i] == *v {
                return true;
            }
            i = i + 1;
        }
        false
    }

    /// Extend the path by one edge: reject the step if the vertex is already
    /// present (the no-revisit-within-path rule) or if the exact running
    /// fraction would no longer fit; otherwise append the vertex and multiply
    /// the running rate by the edge rate.
    pub fn append(&mut self, vertex: Vertex, edge_rate: Rate) -> (ok: bool)
        ensures
            ok == (!old(self)@.contains(vertex)
                && old(self).rate.num * edge_rate.num <= u64::MAX
                && old(self).rate.den * edge_rate.den <= u64::MAX),
            ok ==> final(self)@ == old(self)@.push(vertex)
                && final(self).rate.num == old(self).rate.num * edge_rate.num
                && final(self).rate.den == old(self).rate.den * edge_rate.den,
            !ok ==> *final(self) == *old(self),
            ok && old(self).rate.valid() && edge_rate.valid() ==> final(self).rate.valid(),
    {
        if self.contains(&vertex) {
            return false;
        }
        match (self.rate.num.checked_mul(edge_rate.num), self.rate.den.checked_mul(edge_rate.den)) {
            (Some(num), Some(den)) => {
                self.verts.push(vertex);
                self.rate = Rate { num, den };
                proof {
                    if old(self).rate.valid() && edge_rate.valid() {
                        let a = old(self).rate.num;
                        let b = old(self).rate.den;
                        assert(num >= 1 && den >= 1) by (nonlinear_arith)
                            requires
                                a >= 1,
                                b >= 1,
                                edge_rate.num >= 1,
                                edge_rate.den >= 1,
                                num == a * edge_rate.num,
                                den == b * edge_rate.den,
                        ;
                    }
                }
                true
            },
            _ => false,
        }
    }

    /// The vertex the path currently stands at.
    pub fn terminal(&self) -> (v: Vertex)
        requires
            self@.len() >= 1,
        ensures
            v == self@.last(),
    {
        self.verts[self.verts.len() - 1]
    }

    /// The running compounded rate.
    pub fn rate(&self) -> (r: Rate)
        ensures
            r == self.rate,
    {
        self.rate
    }

    /// How many vertices the path holds.
    pub fn length(&self) -> (n: usize)
        ensures
            n == self@.len(),
    {
        self.verts.len()
    }

    /// The ordered vertex sequence, as a fresh vector.
    pub fn vertices(&self) -> (r: Vec<Vertex>)
        ensures
            r@ == self@,
    {
        let mut r: Vec<Vertex> = Vec::new();
        let mut i: usize = 0;
        while i < self.verts.len()
            invariant
                i <= self@.len(),
                r@ == self@.subrange(0, i as int),
            decreases self@.len() - i,
        {
            r.push(self.verts[i]);
            proof {
                assert(r@ =~= self@.subrange(0, i + 1));
            }
            i = i + 1;
        }
        proof {
            assert(r@ =~= self@);
        }
        r
    }

    /// An independent copy, for branching to several neighbors.
    pub fn duplicate(&self) -> (p: Path)
        ensures
            p@ == self@,
            p.rate == self.rate,
    {
        Path { verts: self.vertices(), rate: self.rate }
    }
}

} // verus!
