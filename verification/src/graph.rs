//! The rate graph: vertices, undirected edge names, and edge insertion with
//! automatic creation of the reciprocal edge.
//!
//! The adjacency is an association list from vertex to a row of
//! `(neighbor, rate)` pairs, kept sorted on the outer key so that vertex
//! enumeration is deterministic.  Its mathematical view is a
//! `Map<Vertex, Map<Vertex, Rate>>`, and the central invariant is that every
//! recorded edge `u -> v = r` has its reverse `v -> u = 1/r` recorded too.

use vstd::prelude::*;

use crate::rate::Rate;

verus! {

/// A vertex: a single-character identifier, totally ordered by its scalar
/// value.
#[derive(Clone, Copy, Debug, PartialEq, Eq, Hash, PartialOrd, Ord, Structural)]
pub struct Vertex(pub char);

impl From<char> for Vertex {
    fn from(v: char) -> (r: Self) {
        Vertex(v)
    }
}

impl vstd::std_specs::convert::FromSpecImpl<char> for Vertex {
    open spec fn obeys_from_spec() -> bool {
        true
    }

    open spec fn from_spec(v: char) -> Vertex {
        Vertex(v)
    }
}

/// An undirected edge name: the pair of endpoints.  Built from a character
/// pair with the endpoints sorted, so `['B', 'A']` and `['A', 'B']` name the
/// same edge.
#[derive(Clone, Copy, Debug, PartialEq, Eq, PartialOrd, Ord, Structural)]
pub struct Edge(pub Vertex, pub Vertex);

impl From<[char; 2]> for Edge {
    fn from(endpoints: [char; 2]) -> (r: Self) {
        let a = endpoints[0];
        let b = endpoints[1];
        if (a as u32) <= (b as u32) {
            Edge(Vertex(a), Vertex(b))
        } else {
            Edge(Vertex(b), Vertex(a))
        }
    }
}

impl vstd::std_specs::convert::FromSpecImpl<[char; 2]> for Edge {
    open spec fn obeys_from_spec() -> bool {
        true
    }

    open spec fn from_spec(endpoints: [char; 2]) -> Edge {
        if (endpoints[0] as u32) <= (endpoints[1] as u32) {
            Edge(Vertex(endpoints[0]), Vertex(endpoints[1]))
        } else {
            Edge(Vertex(endpoints[1]), Vertex(endpoints[0]))
        }
    }
}

/// Does association list `s` hold key `k`?
pub open spec fn alist_has<V>(s: Seq<(Vertex, V)>, k: Vertex) -> bool {
    exists|i: int| 0 <= i < s.len() && s[i].0 == k
}

/// The index at which `s` holds key `k`; meaningful when `alist_has(s, k)`.
pub open spec fn alist_index<V>(s: Seq<(Vertex, V)>, k: Vertex) -> int {
    choose|i: int| 0 <= i < s.len() && s[i].0 == k
}

/// The value bound to key `k`; meaningful when `alist_has(s, k)`.
pub open spec fn alist_get<V>(s: Seq<(Vertex, V)>, k: Vertex) -> V {
    s[alist_index(s, k)].1
}

/// Every key occurs at most once.
pub open spec fn alist_unique<V>(s: Seq<(Vertex, V)>) -> bool {
    forall|i: int, j: int| 0 <= i < j < s.len() ==> s[i].0 != s[j].0
}

/// In a duplicate-free association list, the entry at `i` is the one its key
/// looks up.
pub proof fn lemma_alist_at<V>(s: Seq<(Vertex, V)>, i: int)
    requires
        alist_unique(s),
        0 <= i < s.len(),
    ensures
        alist_has(s, s[i].0),
        alist_index(s, s[i].0) == i,
        alist_get(s, s[i].0) == s[i].1,
{
    assert(alist_has(s, s[i].0));
    let j = alist_index(s, s[i].0);
    if j < i {
        assert(s[j].0 != s[i].0);
    } else if j > i {
        assert(s[i].0 != s[j].0);
    }
}

/// The mathematical reading of one adjacency row.
pub open spec fn row_view(row: Seq<(Vertex, Rate)>) -> Map<Vertex, Rate> {
    Map::new(|v: Vertex| alist_has(row, v), |v: Vertex| alist_get(row, v))
}

/// A row of `owner`'s neighbors: duplicate-free, no self-loop, valid rates.
pub open spec fn row_wf(row: Seq<(Vertex, Rate)>, owner: Vertex) -> bool {
    &&& alist_unique(row)
    &&& forall|j: int| 0 <= j < row.len() ==> row[j].0 != owner && (#[trigger] row[j]).1.valid()
}

/// Strictly ascending by character value; implies no duplicates.
pub open spec fn sorted_strict(s: Seq<Vertex>) -> bool {
    forall|i: int, j: int| 0 <= i < j < s.len() ==> (s[i].0 as u32) < (s[j].0 as u32)
}

/// Is there an edge `u -> v` in graph view `g`?
pub open spec fn has_edge(g: Map<Vertex, Map<Vertex, Rate>>, u: Vertex, v: Vertex) -> bool {
    g.contains_key(u) && g[u].contains_key(v)
}

/// The rate on edge `u -> v`; meaningful when `has_edge(g, u, v)`.
pub open spec fn edge_rate(g: Map<Vertex, Map<Vertex, Rate>>, u: Vertex, v: Vertex) -> Rate {
    g[u][v]
}

/// The row of `u` in `g`, empty when `u` is unknown.
pub open spec fn graph_row(g: Map<Vertex, Map<Vertex, Rate>>, u: Vertex) -> Map<Vertex, Rate> {
    if g.contains_key(u) {
        g[u]
    } else {
        Map::empty()
    }
}

/// The view of a graph after inserting `src -> dst = r` together with the
/// reciprocal edge `dst -> src = 1/r`; meaningful when `src != dst`.
pub open spec fn with_rate(
    g: Map<Vertex, Map<Vertex, Rate>>,
    src: Vertex,
    dst: Vertex,
    r: Rate,
) -> Map<Vertex, Map<Vertex, Rate>> {
    g.insert(src, graph_row(g, src).insert(dst, r)).insert(
        dst,
        graph_row(g, dst).insert(src, r.spec_inv()),
    )
}

/// `p` is a path in `g`: non-empty, with an edge between each consecutive
/// pair of vertices.
pub open spec fn is_path(g: Map<Vertex, Map<Vertex, Rate>>, p: Seq<Vertex>) -> bool {
    &&& p.len() >= 1
    &&& forall|i: int| 0 <= i < p.len() - 1 ==> has_edge(g, #[trigger] p[i], p[i + 1])
}

/// No vertex repeats.
pub open spec fn distinct_seq(p: Seq<Vertex>) -> bool {
    forall|i: int, j: int| 0 <= i < j < p.len() ==> p[i] != p[j]
}

/// A simple path through `g` from `src` to `dst`.
pub open spec fn is_simple_path(
    g: Map<Vertex, Map<Vertex, Rate>>,
    p: Seq<Vertex>,
    src: Vertex,
    dst: Vertex,
) -> bool {
    &&& is_path(g, p)
    &&& distinct_seq(p)
    &&& p.first() == src
    &&& p.last() == dst
}

/// Does any simple path join `src` to `dst` in `g`?
pub open spec fn connected(
    g: Map<Vertex, Map<Vertex, Rate>>,
    src: Vertex,
    dst: Vertex,
) -> bool {
    exists|p: Seq<Vertex>| #[trigger] is_simple_path(g, p, src, dst)
}

/// The exact numerator of the compounded rate along `p` in `g`: the product
/// of the numerators of the traversed edge rates.
pub open spec fn path_num(g: Map<Vertex, Map<Vertex, Rate>>, p: Seq<Vertex>) -> int
    decreases p.len(),
{
    if p.len() <= 1 {
        1
    } else {
        path_num(g, p.drop_last()) * edge_rate(g, p[p.len() - 2], p[p.len() - 1]).num
    }
}

/// The exact denominator of the compounded rate along `p` in `g`.
pub open spec fn path_den(g: Map<Vertex, Map<Vertex, Rate>>, p: Seq<Vertex>) -> int
    decreases p.len(),
{
    if p.len() <= 1 {
        1
    } else {
        path_den(g, p.drop_last()) * edge_rate(g, p[p.len() - 2], p[p.len() - 1]).den
    }
}

/// The graph of conversion rates.
pub struct Graph {
    adj: Vec<(Vertex, Vec<(Vertex, Rate)>)>,
}

impl View for Graph {
    type V = Map<Vertex, Map<Vertex, Rate>>;

    closed spec fn view(&self) -> Map<Vertex, Map<Vertex, Rate>> {
        Map::new(
            |u: Vertex| alist_has(self.adj@, u),
            |u: Vertex| row_view(alist_get(self.adj@, u)@),
        )
    }
}

impl Graph {
    /// Structural soundness of the representation: the outer list sorted by
    /// key (hence duplicate-free), every row well formed.
    pub closed spec fn struct_wf(self) -> bool {
        &&& sorted_strict(self.adj@.map_values(|e: (Vertex, Vec<(Vertex, Rate)>)| e.0))
        &&& alist_unique(self.adj@)
        &&& forall|i: int|
            0 <= i < self.adj@.len() ==> row_wf((#[trigger] self.adj@[i]).1@, self.adj@[i].0)
    }

    /// Bidirectional consistency: every recorded edge has its reverse
    /// recorded, with the reciprocal rate.
    pub open spec fn bidir(self) -> bool {
        forall|u: Vertex, v: Vertex|
            #[trigger] has_edge(self@, u, v) ==> has_edge(self@, v, u) && edge_rate(self@, v, u)
                == edge_rate(self@, u, v).spec_inv()
    }

    /// The full invariant every public operation preserves.
    pub open spec fn wf(self) -> bool {
        self.struct_wf() && self.bidir()
    }

    /// An empty graph: no vertices, no edges.
    pub fn new() -> (g: Graph)
        ensures
            g.wf(),
            g@ == Map::<Vertex, Map<Vertex, Rate>>::empty(),
    {
        let g = Graph { adj: Vec::new() };
        proof {
            assert(g@ =~= Map::<Vertex, Map<Vertex, Rate>>::empty());
        }
        g
    }

    /// Every edge of a well-formed graph joins two distinct vertices and
    /// carries a valid rate.
    pub proof fn lemma_edge_props(self, u: Vertex, v: Vertex)
        requires
            self.struct_wf(),
            has_edge(self@, u, v),
        ensures
            u != v,
            edge_rate(self@, u, v).valid(),
    {
        let i = alist_index(self.adj@, u);
        lemma_alist_at(self.adj@, i);
        let row = self.adj@[i].1@;
        assert(row_wf(row, u));
        let j = alist_index(row, v);
        lemma_alist_at(row, j);
        assert(edge_rate(self@, u, v) == row[j].1);
    }
}

/// Two association lists that agree everywhere but at `i`, where the key is
/// unchanged, look up to the same keys, and to the same values off `i`.
pub(crate) proof fn lemma_alist_pointwise_update<V>(
    s1: Seq<(Vertex, V)>,
    s2: Seq<(Vertex, V)>,
    i: int,
)
    requires
        alist_unique(s1),
        0 <= i < s1.len(),
        s2.len() == s1.len(),
        forall|k: int| 0 <= k < s1.len() && k != i ==> s2[k] == s1[k],
        s2[i].0 == s1[i].0,
    ensures
        alist_unique(s2),
        forall|w: Vertex| alist_has(s2, w) <==> alist_has(s1, w),
        alist_get(s2, s1[i].0) == s2[i].1,
        forall|w: Vertex|
            w != s1[i].0 && alist_has(s1, w) ==> alist_get(s2, w) == alist_get(s1, w),
{
    assert forall|k: int| 0 <= k < s2.len() implies s2[k].0 == s1[k].0 by {}
    assert forall|w: Vertex| alist_has(s2, w) implies alist_has(s1, w) by {
        let k = choose|k: int| 0 <= k < s2.len() && s2[k].0 == w;
        assert(s1[k].0 == w);
    }
    assert forall|w: Vertex| alist_has(s1, w) implies alist_has(s2, w) by {
        let k = choose|k: int| 0 <= k < s1.len() && s1[k].0 == w;
        assert(s2[k].0 == w);
    }
    lemma_alist_at(s2, i);
    assert forall|w: Vertex|
        w != s1[i].0 && alist_has(s1, w) implies alist_get(s2, w) == alist_get(s1, w) by {
        let k = alist_index(s1, w);
        assert(0 <= k < s1.len() && s1[k].0 == w);
        assert(k != i);
        lemma_alist_at(s1, k);
        lemma_alist_at(s2, k);
    }
}

/// Appending a fresh key binds it, and disturbs no other binding.
pub(crate) proof fn lemma_alist_push<V>(s: Seq<(Vertex, V)>, u: Vertex, val: V)
    requires
        alist_unique(s),
        !alist_has(s, u),
    ensures
        alist_unique(s.push((u, val))),
        forall|w: Vertex| alist_has(s.push((u, val)), w) <==> alist_has(s, w) || w == u,
        alist_get(s.push((u, val)), u) == val,
        forall|w: Vertex| alist_has(s, w) ==> alist_get(s.push((u, val)), w) == alist_get(s, w),
{
    let s2 = s.push((u, val));
    assert forall|i: int, j: int| 0 <= i < j < s2.len() implies s2[i].0 != s2[j].0 by {
        if j < s.len() {
        } else {
            assert(s2[j].0 == u);
            assert(s2[i].0 == s[i].0);
            assert(s[i].0 != u) by {
                if s[i].0 == u {
                    assert(alist_has(s, u));
                }
            }
        }
    }
    assert forall|w: Vertex| alist_has(s2, w) implies alist_has(s, w) || w == u by {
        let k = choose|k: int| 0 <= k < s2.len() && s2[k].0 == w;
        if k < s.len() {
            assert(s[k].0 == w);
        }
    }
    assert forall|w: Vertex| alist_has(s, w) implies alist_has(s2, w) by {
        let k = choose|k: int| 0 <= k < s.len() && s[k].0 == w;
        assert(s2[k].0 == w);
    }
    assert(s2[s.len() as int].0 == u);
    lemma_alist_at(s2, s.len() as int);
    assert forall|w: Vertex| alist_has(s, w) implies alist_get(s2, w) == alist_get(s, w) by {
        let k = alist_index(s, w);
        lemma_alist_at(s, k);
        lemma_alist_at(s2, k);
    }
}

/// Inserting a fresh key at any position binds it, and disturbs no other
/// binding.
proof fn lemma_alist_insert<V>(s: Seq<(Vertex, V)>, p: int, u: Vertex, val: V)
    requires
        alist_unique(s),
        !alist_has(s, u),
        0 <= p <= s.len(),
    ensures
        alist_unique(s.insert(p, (u, val))),
        forall|w: Vertex| alist_has(s.insert(p, (u, val)), w) <==> alist_has(s, w) || w == u,
        alist_get(s.insert(p, (u, val)), u) == val,
        forall|w: Vertex|
            alist_has(s, w) ==> alist_get(s.insert(p, (u, val)), w) == alist_get(s, w),
{
    let s2 = s.insert(p, (u, val));
    assert(s2.len() == s.len() + 1);
    assert forall|k: int| 0 <= k < s2.len() implies s2[k] == (if k < p {
        s[k]
    } else if k == p {
        (u, val)
    } else {
        s[k - 1]
    }) by {}
    assert forall|i: int, j: int| 0 <= i < j < s2.len() implies s2[i].0 != s2[j].0 by {
        if i == p || j == p {
            let k = if i == p { j } else { i };
            let ko = if k < p { k } else { k - 1 };
            assert(s2[k].0 == s[ko].0);
            if s[ko].0 == u {
                assert(alist_has(s, u));
            }
        }
    }
    assert forall|w: Vertex| alist_has(s2, w) implies alist_has(s, w) || w == u by {
        let k = choose|k: int| 0 <= k < s2.len() && s2[k].0 == w;
        if k < p {
            assert(s[k].0 == w);
        } else if k > p {
            assert(s[k - 1].0 == w);
        }
    }
    assert forall|w: Vertex| alist_has(s, w) implies alist_has(s2, w) by {
        let k = choose|k: int| 0 <= k < s.len() && s[k].0 == w;
        if k < p {
            assert(s2[k].0 == w);
        } else {
            assert(s2[k + 1].0 == w);
        }
    }
    assert(s2[p].0 == u);
    lemma_alist_at(s2, p);
    assert forall|w: Vertex| alist_has(s, w) implies alist_get(s2, w) == alist_get(s, w) by {
        let k = alist_index(s, w);
        lemma_alist_at(s, k);
        if k < p {
            lemma_alist_at(s2, k);
        } else {
            assert(s2[k + 1] == s[k]);
            lemma_alist_at(s2, k + 1);
        }
    }
}

impl Graph {
    /// Make sure `u` owns a row, inserting an empty one at its sorted
    /// position when it is new.
    fn ensure_vertex(&mut self, u: Vertex)
        requires
            old(self).struct_wf(),
        ensures
            final(self).struct_wf(),
            final(self)@ == (if old(self)@.contains_key(u) {
                old(self)@
            } else {
                old(self)@.insert(u, Map::<Vertex, Rate>::empty())
            }),
            final(self)@.contains_key(u),
            forall|w: Vertex|
                alist_has(final(self).adj@, w) <==> alist_has(old(self).adj@, w) || w == u,
    {
        match find_key(&self.adj, &u) {
            Some(i) => {
                proof {
                    assert(alist_has(self.adj@, u));
                }
            },
            None => {
                let ghost s0 = self.adj@;
                let mut p: usize = 0;
                let mut i: usize = 0;
                while i < self.adj.len()
                    invariant
                        self == old(self),
                        p <= i <= self.adj@.len(),
                        forall|k: int| 0 <= k < p ==> ((self.adj@[k].0.0 as u32) < (u.0 as u32)),
                        forall|k: int| p <= k < i ==> ((self.adj@[k].0.0 as u32) > (u.0 as u32)),
                    decreases self.adj@.len() - i,
                {
                    proof {
                        assert(self.adj@[i as int].0 != u);
                        let keys = self.adj@.map_values(
                            |e: (Vertex, Vec<(Vertex, Rate)>)| e.0,
                        );
                        assert(keys[i as int] == self.adj@[i as int].0);
                        assert forall|k: int| p <= k < i implies (
                        (self.adj@[k].0.0 as u32) > (u.0 as u32)) by {
                            assert(keys[k] == self.adj@[k].0);
                        }
                    }
                    if (self.adj[i].0.0 as u32) < (u.0 as u32) {
                        proof {
                            let keys = self.adj@.map_values(
                                |e: (Vertex, Vec<(Vertex, Rate)>)| e.0,
                            );
                            assert forall|k: int| 0 <= k < i implies (
                            (self.adj@[k].0.0 as u32) < (u.0 as u32)) by {
                                assert(keys[k] == self.adj@[k].0);
                                assert(keys[i as int] == self.adj@[i as int].0);
                            }
                        }
                        p = i + 1;
                    }
                    i = i + 1;
                }
                let ghost pp = p as int;
                let empty_row: Vec<(Vertex, Rate)> = Vec::new();
                let ghost row_v = empty_row;
                self.adj.insert(p, (u, empty_row));
                proof {
                    assert(self.adj@ == s0.insert(pp, (u, row_v)));
                    lemma_alist_insert(s0, pp, u, row_v);
                    // sortedness of the extended key list
                    let keys0 = s0.map_values(|e: (Vertex, Vec<(Vertex, Rate)>)| e.0);
                    let keys = self.adj@.map_values(|e: (Vertex, Vec<(Vertex, Rate)>)| e.0);
                    assert forall|a: int, b: int| 0 <= a < b < keys.len() implies (
                    (keys[a].0 as u32) < (keys[b].0 as u32)) by {
                        let ao = if a < pp {
                            a
                        } else {
                            a - 1
                        };
                        let bo = if b < pp {
                            b
                        } else {
                            b - 1
                        };
                        assert(keys[a] == self.adj@[a].0);
                        assert(keys[b] == self.adj@[b].0);
                        if a != pp {
                            assert(self.adj@[a] == s0[ao]);
                            assert(keys0[ao] == s0[ao].0);
                        }
                        if b != pp {
                            assert(self.adj@[b] == s0[bo]);
                            assert(keys0[bo] == s0[bo].0);
                        }
                    }
                    // rows still well formed
                    assert forall|k: int| 0 <= k < self.adj@.len() implies row_wf(
                        (#[trigger] self.adj@[k]).1@,
                        self.adj@[k].0,
                    ) by {
                        if k != pp {
                            let ko = if k < pp {
                                k
                            } else {
                                k - 1
                            };
                            assert(self.adj@[k] == s0[ko]);
                        }
                    }
                    // the view gained exactly the empty row at u
                    assert(!old(self)@.contains_key(u));
                    assert(row_view(Seq::<(Vertex, Rate)>::empty()) =~= Map::<Vertex,
                        Rate>::empty());
                    assert forall|w: Vertex| #[trigger]
                        self@.contains_key(w) implies old(self)@.insert(
                        u,
                        Map::<Vertex, Rate>::empty(),
                    ).contains_key(w) && self@[w] == old(self)@.insert(
                        u,
                        Map::<Vertex, Rate>::empty(),
                    )[w] by {
                        if w == u {
                            assert(alist_get(self.adj@, u) == row_v);
                            assert(row_v@ =~= Seq::<(Vertex, Rate)>::empty());
                        } else {
                            assert(alist_has(s0, w));
                            assert(alist_get(self.adj@, w) == alist_get(s0, w));
                        }
                    }
                    assert(self@ =~= old(self)@.insert(u, Map::<Vertex, Rate>::empty()));
                }
            },
        }
    }
}

impl Graph {
    /// Bind `u -> v = r`, overwriting any previous rate for that direction
    /// and leaving every other binding alone.
    fn set_rate(&mut self, u: Vertex, v: Vertex, r: Rate)
        requires
            old(self).struct_wf(),
            alist_has(old(self).adj@, u),
            u != v,
            r.valid(),
        ensures
            final(self).struct_wf(),
            final(self)@ == old(self)@.insert(u, graph_row(old(self)@, u).insert(v, r)),
            forall|w: Vertex|
                alist_has(final(self).adj@, w) <==> alist_has(old(self).adj@, w),
    {
        if let Some(i) = find_key(&self.adj, &u) {
            let ghost s0 = self.adj@;
            let ghost ii = i as int;
            proof {
                lemma_alist_at(s0, ii);
                assert(row_wf((#[trigger] s0[ii]).1@, s0[ii].0));
            }
            let pair = self.adj.remove(i);
            let u_key = pair.0;
            let mut row = pair.1;
            let ghost row0 = row@;
            match find_key(&row, &v) {
                Some(j) => {
                    let ghost jj = j as int;
                    row.set(j, (v, r));
                    proof {
                        lemma_alist_pointwise_update(row0, row@, jj);
                    }
                },
                None => {
                    row.push((v, r));
                    proof {
                        lemma_alist_push(row0, v, r);
                    }
                },
            }
            let ghost row1 = row@;
            proof {
                // the updated row is still well formed and reads as the
                // old row with `v` rebound to `r`
                assert(row_wf(row1, u));
                assert(row_view(row1) =~= row_view(row0).insert(v, r));
            }
            self.adj.insert(i, (u_key, row));
            proof {
                assert(self.adj@.len() == s0.len());
                assert forall|k: int| 0 <= k < s0.len() && k != ii implies self.adj@[k] == s0[k] by {}
                assert(self.adj@[ii].0 == u);
                lemma_alist_pointwise_update(s0, self.adj@, ii);
                // keys unchanged, so the sorted key list is unchanged
                let keys0 = s0.map_values(|e: (Vertex, Vec<(Vertex, Rate)>)| e.0);
                let keys = self.adj@.map_values(|e: (Vertex, Vec<(Vertex, Rate)>)| e.0);
                assert(keys =~= keys0);
                assert forall|k: int| 0 <= k < self.adj@.len() implies row_wf(
                    (#[trigger] self.adj@[k]).1@,
                    self.adj@[k].0,
                ) by {
                    if k != ii {
                        assert(self.adj@[k] == s0[k]);
                        assert(row_wf((#[trigger] s0[k]).1@, s0[k].0));
                    }
                }
                // the view changed at `u` alone, and there exactly at `v`
                assert(graph_row(old(self)@, u) == row_view(row0));
                assert forall|w: Vertex| #[trigger]
                    self@.contains_key(w) implies old(self)@.insert(
                    u,
                    graph_row(old(self)@, u).insert(v, r),
                ).contains_key(w) && self@[w] == old(self)@.insert(
                    u,
                    graph_row(old(self)@, u).insert(v, r),
                )[w] by {
                    if w == u {
                        assert(alist_get(self.adj@, u) == self.adj@[ii].1);
                        assert(self@[u] == row_view(row1));
                    } else {
                        assert(alist_get(self.adj@, w) == alist_get(s0, w));
                    }
                }
                assert(self@ =~= old(self)@.insert(u, graph_row(old(self)@, u).insert(v, r)));
            }
        } else {
            proof {
                assert(false);
            }
        }
    }
}

impl Graph {
    /// Record `edge.0 -> edge.1 = rate` together with the implicit reverse
    /// edge `edge.1 -> edge.0 = 1/rate`, overwriting both directions when
    /// the edge was already present.  Endpoints must differ and the rate
    /// must be valid: those are programming errors, not recoverable ones.
    pub fn add_rate(&mut self, edge: Edge, rate: Rate)
        requires
            old(self).wf(),
            edge.0 != edge.1,
            rate.valid(),
        ensures
            final(self).wf(),
            final(self)@ == with_rate(old(self)@, edge.0, edge.1, rate),
            final(self)@.contains_key(edge.0),
            final(self)@.contains_key(edge.1),
    {
        let src = edge.0;
        let dst = edge.1;
        let ghost g0 = self@;
        self.ensure_vertex(src);
        let ghost ga = self@;
        self.ensure_vertex(dst);
        let ghost gb = self@;
        self.set_rate(src, dst, rate);
        let ghost gc = self@;
        let r_inv = rate.inv();
        self.set_rate(dst, src, r_inv);
        proof {
            let gd = self@;
            let target = with_rate(g0, src, dst, rate);
            // rows were not touched by vertex insertion
            assert forall|w: Vertex| #[trigger] graph_row(gb, w) == graph_row(g0, w) by {
                if ga.contains_key(w) != g0.contains_key(w) {
                    assert(w == src);
                    assert(graph_row(g0, src) =~= Map::<Vertex, Rate>::empty());
                }
                if gb.contains_key(w) != ga.contains_key(w) {
                    assert(w == dst);
                    assert(graph_row(ga, dst) =~= Map::<Vertex, Rate>::empty());
                }
            }
            assert(graph_row(gc, dst) == graph_row(gb, dst));
            assert(gd =~= target);

            // the bidirectional invariant survives the double update
            assert forall|u: Vertex, v: Vertex| #[trigger]
                has_edge(gd, u, v) implies has_edge(gd, v, u) && edge_rate(gd, v, u)
                == edge_rate(gd, u, v).spec_inv() by {
                let row_u = graph_row(g0, u);
                if u == src {
                    if v == dst {
                        assert(edge_rate(gd, src, dst) == rate);
                        assert(edge_rate(gd, dst, src) == rate.spec_inv());
                    } else {
                        assert(gd[src] == graph_row(g0, src).insert(dst, rate));
                        assert(graph_row(g0, src).contains_key(v));
                        assert(g0.contains_key(src));
                        assert(has_edge(g0, src, v));
                        old(self).lemma_edge_props(src, v);
                        assert(v != src);
                        assert(has_edge(g0, v, src));
                        assert(gd[v] == graph_row(g0, v));
                        assert(edge_rate(gd, u, v) == edge_rate(g0, u, v));
                        assert(edge_rate(gd, v, u) == edge_rate(g0, v, u));
                    }
                } else if u == dst {
                    if v == src {
                        assert(edge_rate(gd, dst, src) == rate.spec_inv());
                        assert(edge_rate(gd, src, dst) == rate);
                        assert(rate.spec_inv().spec_inv() == rate);
                    } else {
                        assert(gd[dst] == graph_row(g0, dst).insert(src, rate.spec_inv()));
                        assert(graph_row(g0, dst).contains_key(v));
                        assert(g0.contains_key(dst));
                        assert(has_edge(g0, dst, v));
                        old(self).lemma_edge_props(dst, v);
                        assert(v != dst);
                        assert(has_edge(g0, v, dst));
                        assert(gd[v] == graph_row(g0, v));
                        assert(edge_rate(gd, u, v) == edge_rate(g0, u, v));
                        assert(edge_rate(gd, v, u) == edge_rate(g0, v, u));
                    }
                } else {
                    assert(gd[u] == graph_row(g0, u));
                    assert(g0.contains_key(u));
                    assert(has_edge(g0, u, v));
                    assert(has_edge(g0, v, u));
                    assert(edge_rate(gd, u, v) == edge_rate(g0, u, v));
                    if v == src {
                        assert(gd[src] == graph_row(g0, src).insert(dst, rate));
                        assert(u != dst);
                        assert(graph_row(g0, src).contains_key(u));
                        assert(edge_rate(gd, src, u) == edge_rate(g0, src, u));
                    } else if v == dst {
                        assert(gd[dst] == graph_row(g0, dst).insert(src, rate.spec_inv()));
                        assert(u != src);
                        assert(graph_row(g0, dst).contains_key(u));
                        assert(edge_rate(gd, dst, u) == edge_rate(g0, dst, u));
                    } else {
                        assert(gd[v] == graph_row(g0, v));
                        assert(edge_rate(gd, v, u) == edge_rate(g0, v, u));
                    }
                }
            }
        }
    }
}

impl Graph {
    /// All known vertices, in ascending character order: a deterministic,
    /// restartable enumeration.
    pub fn vertices(&self) -> (r: Vec<Vertex>)
        requires
            self.wf(),
        ensures
            sorted_strict(r@),
            forall|v: Vertex| r@.contains(v) <==> self@.contains_key(v),
    {
        let mut r: Vec<Vertex> = Vec::new();
        let mut i: usize = 0;
        while i < self.adj.len()
            invariant
                i <= self.adj@.len(),
                r@.len() == i,
                forall|k: int| 0 <= k < i ==> r@[k] == self.adj@[k].0,
            decreases self.adj@.len() - i,
        {
            r.push(self.adj[i].0);
            i = i + 1;
        }
        proof {
            let keys = self.adj@.map_values(|e: (Vertex, Vec<(Vertex, Rate)>)| e.0);
            assert(r@ =~= keys);
            assert forall|v: Vertex| r@.contains(v) implies self@.contains_key(v) by {
                let k = choose|k: int| 0 <= k < r@.len() && r@[k] == v;
                assert(self.adj@[k].0 == v);
            }
            assert forall|v: Vertex| self@.contains_key(v) implies r@.contains(v) by {
                let k = alist_index(self.adj@, v);
                assert(r@[k] == v);
            }
        }
        r
    }

    /// The outgoing rates of `v`: every `(neighbor, rate)` pair recorded for
    /// it, or an empty vector when `v` has no recorded edges.
    pub fn neighbors(&self, v: &Vertex) -> (r: Vec<(Vertex, Rate)>)
        requires
            self.wf(),
        ensures
            alist_unique(r@),
            forall|j: int|
                0 <= j < r@.len() ==> has_edge(self@, *v, (#[trigger] r@[j]).0) && r@[j].1
                    == edge_rate(self@, *v, r@[j].0) && r@[j].1.valid() && r@[j].0 != *v,
            forall|w: Vertex| has_edge(self@, *v, w) ==> alist_has(r@, w),
    {
        match find_key(&self.adj, v) {
            Some(i) => {
                let ghost ii = i as int;
                proof {
                    lemma_alist_at(self.adj@, ii);
                    assert(row_wf((#[trigger] self.adj@[ii]).1@, self.adj@[ii].0));
                }
                let pair = &self.adj[i];
                let row = &pair.1;
                let mut r: Vec<(Vertex, Rate)> = Vec::new();
                let mut j: usize = 0;
                while j < row.len()
                    invariant
                        j <= row@.len(),
                        r@ == row@.subrange(0, j as int),
                    decreases row@.len() - j,
                {
                    r.push(row[j]);
                    proof {
                        assert(r@ =~= row@.subrange(0, j + 1));
                    }
                    j = j + 1;
                }
                proof {
                    assert(r@ =~= row@);
                    assert forall|jx: int|
                        0 <= jx < r@.len() implies has_edge(self@, *v, (#[trigger] r@[jx]).0)
                        && r@[jx].1 == edge_rate(self@, *v, r@[jx].0) && r@[jx].1.valid()
                        && r@[jx].0 != *v by {
                        lemma_alist_at(row@, jx);
                        assert(self@[*v] == row_view(row@));
                    }
                    assert forall|w: Vertex| has_edge(self@, *v, w) implies alist_has(r@, w) by {
                        assert(self@[*v] == row_view(row@));
                    }
                }
                r
            },
            None => {
                let r: Vec<(Vertex, Rate)> = Vec::new();
                proof {
                    assert(!self@.contains_key(*v));
                }
                r
            },
        }
    }
}

/// The graph holding exactly one inserted edge `src -> dst = r` (and its
/// implicit reverse).
pub open spec fn single_edge(src: Vertex, dst: Vertex, r: Rate) -> Map<
    Vertex,
    Map<Vertex, Rate>,
> {
    with_rate(Map::<Vertex, Map<Vertex, Rate>>::empty(), src, dst, r)
}

/// Inverse consistency: in a graph holding exactly one inserted edge
/// `src -> dst = r`, every simple path from `dst` back to `src` is the
/// two-vertex path over the implicit reverse edge, so its compounded rate is
/// exactly the reciprocal `r.den / r.num`.  Together with the contract of
/// `Graph::find_best_rate`, the rate reported for `(dst, src)` is exactly
/// `1/r`.
pub proof fn lemma_single_edge_inverse(src: Vertex, dst: Vertex, r: Rate)
    requires
        src != dst,
    ensures
        forall|p: Seq<Vertex>|
            #[trigger] is_simple_path(single_edge(src, dst, r), p, dst, src) ==> path_num(
                single_edge(src, dst, r),
                p,
            ) == r.den && path_den(single_edge(src, dst, r), p) == r.num,
{
    let g = single_edge(src, dst, r);
    assert forall|p: Seq<Vertex>|
        #[trigger] is_simple_path(g, p, dst, src) implies path_num(g, p) == r.den && path_den(
        g,
        p,
    ) == r.num by {
        assert forall|i: int| 0 <= i < p.len() implies p[i] == src || p[i] == dst by {
            if i < p.len() - 1 {
                assert(has_edge(g, p[i], p[i + 1]));
            } else {
                assert(p[i] == p.last());
            }
        }
        assert(p.len() >= 2);
        if p.len() > 2 {
            assert(p[0] != p[1] && p[0] != p[2] && p[1] != p[2]);
            assert(false);
        }
        assert(p[0] == dst && p[1] == src);
        assert(edge_rate(g, dst, src) == r.spec_inv());
        assert(p.drop_last().len() == 1);
        assert(path_num(g, p) == path_num(g, p.drop_last()) * r.spec_inv().num);
        assert(path_den(g, p) == path_den(g, p.drop_last()) * r.spec_inv().den);
    }
}

/// Idempotent re-insertion: inserting a rate for the same ordered pair twice
/// leaves exactly the graph of the second insertion alone — only the latest
/// rate, and its reciprocal, remain in effect.
pub proof fn lemma_reinsert_overwrites(
    g: Map<Vertex, Map<Vertex, Rate>>,
    src: Vertex,
    dst: Vertex,
    r1: Rate,
    r2: Rate,
)
    requires
        src != dst,
    ensures
        with_rate(with_rate(g, src, dst, r1), src, dst, r2) == with_rate(g, src, dst, r2),
{
    let g1 = with_rate(g, src, dst, r1);
    assert(graph_row(g1, src) == graph_row(g, src).insert(dst, r1));
    assert(graph_row(g1, dst) == graph_row(g, dst).insert(src, r1.spec_inv()));
    assert(graph_row(g1, src).insert(dst, r2) =~= graph_row(g, src).insert(dst, r2));
    assert(graph_row(g1, dst).insert(src, r2.spec_inv()) =~= graph_row(g, dst).insert(
        src,
        r2.spec_inv(),
    ));
    assert(with_rate(g1, src, dst, r2) =~= with_rate(g, src, dst, r2));
}

/// Linear search for `u` among the keys of an association list.
pub(crate) fn find_key<V>(s: &Vec<(Vertex, V)>, u: &Vertex) -> (r: Option<usize>)
    ensures
        match r {
            Some(i) => i < s@.len() && s@[i as int].0 == *u,
            None => !alist_has(s@, *u),
        },
{
    let mut i: usize = 0;
    while i < s.len()
        invariant
            i <= s@.len(),
            forall|k: int| 0 <= k < i ==> s@[k].0 != *u,
        decreases s@.len() - i,
    {
        if s[i].0 == *u {
            return Some(i);
        }
        i = i + 1;
    }
    None
}

} // verus!
