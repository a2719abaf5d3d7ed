//! The best-rate search: a breadth-first exploration of simple paths with a
//! relaxation rule — a vertex is revisited only when a strictly better
//! compounded rate reaches it — so that dominated paths are pruned and the
//! search stays tractable on graphs with many reconverging routes.

use vstd::prelude::*;

use crate::graph::connected;
use crate::graph::distinct_seq;
use crate::graph::edge_rate;
use crate::graph::find_key;
use crate::graph::has_edge;
use crate::graph::is_path;
use crate::graph::is_simple_path;
use crate::graph::lemma_alist_pointwise_update;
use crate::graph::lemma_alist_push;
use crate::graph::path_den;
use crate::graph::path_num;
use crate::graph::Graph;
use crate::graph::Vertex;
use crate::path::Path;
use crate::rate::lemma_rat_le_lt_trans;
use crate::rate::rat_le;
use crate::rate::Rate;

verus! {

/// What the search knows of every path it has queued: a simple path in `g`
/// starting at `src`, touching `dst` at most as its terminal vertex, whose
/// recorded rate is exactly the product of the traversed edge rates.
spec fn qent_ok(
    g: Map<Vertex, Map<Vertex, Rate>>,
    p: Path,
    src: Vertex,
    dst: Vertex,
) -> bool {
    &&& is_path(g, p@)
    &&& distinct_seq(p@)
    &&& p@.first() == src
    &&& !p@.drop_last().contains(dst)
    &&& p.rate.num == path_num(g, p@)
    &&& p.rate.den == path_den(g, p@)
    &&& p.rate.valid()
}

/// A candidate answer: a queued-path shape that has reached `dst`.
spec fn best_ok(
    g: Map<Vertex, Map<Vertex, Rate>>,
    p: Path,
    src: Vertex,
    dst: Vertex,
) -> bool {
    qent_ok(g, p, src, dst) && p@.last() == dst
}

/// The seed of a search: the singleton path at `src` with rate `1/1`.
spec fn is_seed(p: Path, src: Vertex) -> bool {
    p@ == seq![src] && p.rate == (Rate { num: 1, den: 1 })
}

/// The two-vertex path over the direct edge `src -> dst`.
spec fn is_direct2(
    g: Map<Vertex, Map<Vertex, Rate>>,
    p: Path,
    src: Vertex,
    dst: Vertex,
) -> bool {
    &&& p@ == seq![src, dst]
    &&& p.rate.num == edge_rate(g, src, dst).num
    &&& p.rate.den == edge_rate(g, src, dst).den
}

/// The entry at `k` still guarantees that the direct edge will become a
/// candidate: it is the pending direct two-vertex path itself — or the
/// still-unexpanded seed — and no earlier pending entry ends at `dst`.
spec fn direct_pending(
    g: Map<Vertex, Map<Vertex, Rate>>,
    q: Seq<Path>,
    head: int,
    visited: Seq<(Vertex, Rate)>,
    k: int,
    src: Vertex,
    dst: Vertex,
) -> bool {
    &&& head <= k < q.len()
    &&& forall|k2: int| head <= k2 < k ==> (#[trigger] q[k2])@.last() != dst
    &&& (is_direct2(g, q[k], src, dst) || (k == 0 && head == 0 && visited.len() == 0
        && is_seed(q[0], src)))
}

/// Either the best candidate already compounds at least the direct rate, or
/// the direct edge's candidacy is still pending in the queue.
spec fn direct_progress(
    g: Map<Vertex, Map<Vertex, Rate>>,
    q: Seq<Path>,
    head: int,
    visited: Seq<(Vertex, Rate)>,
    best: Option<Path>,
    src: Vertex,
    dst: Vertex,
) -> bool {
    ||| (best matches Some(b) && rat_le(edge_rate(g, src, dst), b.rate))
    ||| (best is None && !crate::graph::alist_has(visited, dst) && exists|k: int|
        #[trigger] direct_pending(g, q, head, visited, k, src, dst))
}

/// Extending a path by an edge extends its exact compounded-rate fractions
/// by the edge's fractions.
proof fn lemma_path_push(g: Map<Vertex, Map<Vertex, Rate>>, p: Seq<Vertex>, v: Vertex)
    requires
        is_path(g, p),
        has_edge(g, p.last(), v),
    ensures
        is_path(g, p.push(v)),
        path_num(g, p.push(v)) == path_num(g, p) * edge_rate(g, p.last(), v).num,
        path_den(g, p.push(v)) == path_den(g, p) * edge_rate(g, p.last(), v).den,
{
    let q = p.push(v);
    assert forall|i: int| 0 <= i < q.len() - 1 implies has_edge(g, #[trigger] q[i], q[i + 1]) by {
        if i < p.len() - 1 {
            assert(has_edge(g, p[i], p[i + 1]));
        } else {
            assert(q[i] == p.last());
            assert(q[i + 1] == v);
        }
    }
    assert(q.drop_last() =~= p);
    assert(q[q.len() - 2] == p.last());
    assert(q[q.len() - 1] == v);
}

/// A path that avoids `v` stays duplicate-free when `v` is appended.
proof fn lemma_distinct_push(p: Seq<Vertex>, v: Vertex)
    requires
        distinct_seq(p),
        !p.contains(v),
    ensures
        distinct_seq(p.push(v)),
{
    let q = p.push(v);
    assert forall|i: int, j: int| 0 <= i < j < q.len() implies q[i] != q[j] by {
        if j == p.len() {
            assert(q[i] == p[i]);
            if p[i] == v {
                assert(p.contains(v));
            }
        }
    }
}

/// Whatever is appended to the queue, a pending direct-edge guarantee stays
/// pending.
proof fn lemma_progress_push(
    g: Map<Vertex, Map<Vertex, Rate>>,
    q: Seq<Path>,
    head: int,
    visited: Seq<(Vertex, Rate)>,
    best: Option<Path>,
    x: Path,
    src: Vertex,
    dst: Vertex,
)
    requires
        0 <= head,
        direct_progress(g, q, head, visited, best, src, dst),
    ensures
        direct_progress(g, q.push(x), head, visited, best, src, dst),
{
    if best is None && !crate::graph::alist_has(visited, dst) {
        if exists|k: int| #[trigger] direct_pending(g, q, head, visited, k, src, dst) {
            let k = choose|k: int| #[trigger] direct_pending(g, q, head, visited, k, src, dst);
            assert(direct_pending(g, q, head, visited, k, src, dst));
            assert(head <= k < q.len());
            assert(q.push(x)[k] == q[k]);
            assert forall|k2: int| head <= k2 < k implies (#[trigger] q.push(x)[k2])@.last()
                != dst by {
                assert(q.push(x)[k2] == q[k2]);
            }
            assert(direct_pending(g, q.push(x), head, visited, k, src, dst));
        }
    }
}

impl Graph {
    /// The best simple path from `src` to `dst`, by compounded rate.
    ///
    /// A best-first-pruned breadth-first search: the queue starts from the
    /// singleton path at `src`; a dequeued path is dropped when its terminal
    /// vertex already carries a best-known rate at least as good
    /// (the relaxation rule), becomes a candidate answer when it has reached
    /// `dst`, and otherwise branches to every neighbor not yet on it.
    ///
    /// The returned path is a simple path from `src` to `dst` in the graph
    /// whose recorded rate is exactly the product of its edge rates; a
    /// query with `src == dst` reports no path, there being no implicit
    /// identity path; and when a direct edge exists the search always
    /// returns a path at least as good as that edge.  By the first clause,
    /// an unreachable `dst` always reports `None`.
    pub fn find_best_path(&self, src: &Vertex, dst: &Vertex) -> (res: Option<Path>)
        requires
            self.wf(),
        ensures
            res matches Some(p) ==> (is_simple_path(self@, p@, *src, *dst) && p.rate.num
                == path_num(self@, p@) && p.rate.den == path_den(self@, p@)
                && p.rate.valid()),
            !connected(self@, *src, *dst) ==> res is None,
            *src == *dst ==> res is None,
            has_edge(self@, *src, *dst) ==> (res matches Some(p) && rat_le(
                edge_rate(self@, *src, *dst),
                p.rate,
            )),
    {
        let s: Vertex = *src;
        let d: Vertex = *dst;
        if s == d {
            proof {
                if has_edge(self@, s, d) {
                    self.lemma_edge_props(s, d);
                }
            }
            return None;
        }
        let ghost g = self@;
        let mut queue: Vec<Path> = Vec::new();
        queue.push(Path::new(s));
        let mut head: usize = 0;
        let mut fuel: u64 = u64::MAX;
        let mut visited: Vec<(Vertex, Rate)> = Vec::new();
        let mut best: Option<Path> = None;
        proof {
            let p0 = queue@[0];
            assert(p0@ =~= seq![s]);
            assert(p0@.drop_last() =~= Seq::<Vertex>::empty());
            assert(qent_ok(g, p0, s, d));
            if has_edge(g, s, d) {
                assert(direct_pending(g, queue@, 0, visited@, 0, s, d));
            }
        }
        while head < queue.len() && fuel > 0
            invariant
                head <= queue@.len(),
                fuel as int == u64::MAX - head as int,
                forall|k: int| 0 <= k < queue@.len() ==> qent_ok(g, #[trigger] queue@[k], s, d),
                crate::graph::alist_unique(visited@),
                best matches Some(b) ==> best_ok(g, b, s, d),
                head == 0 ==> best is None && visited@.len() == 0 && queue@.len() == 1
                    && is_seed(queue@[0], s),
                has_edge(g, s, d) ==> direct_progress(
                    g,
                    queue@,
                    head as int,
                    visited@,
                    best,
                    s,
                    d,
                ),
            decreases fuel,
        {
            let ghost cur = head as int;
            let ghost q_at_entry = queue@;
            let ghost visited0 = visited@;
            let ghost best0 = best;
            proof {
                assert(qent_ok(g, queue@[cur], s, d));
            }
            let pt: Vertex = queue[head].terminal();
            let pr: Rate = queue[head].rate();
            let idx: usize = head;
            head = head + 1;
            fuel = fuel - 1;

            // the relaxation check: drop the path when its terminal vertex
            // already carries a rate at least as good, record or improve the
            // best-known rate otherwise
            let mut dominated = false;
            match find_key(&visited, &pt) {
                Some(j) => {
                    let known = visited[j].1;
                    if !known.lt(&pr) {
                        dominated = true;
                        proof {
                            assert(visited@[j as int].0 == pt);
                            assert(crate::graph::alist_has(visited@, pt));
                        }
                    } else {
                        let ghost jv = j as int;
                        visited.set(j, (pt, pr));
                        proof {
                            lemma_alist_pointwise_update(visited0, visited@, jv);
                        }
                    }
                },
                None => {
                    visited.push((pt, pr));
                    proof {
                        lemma_alist_push(visited0, pt, pr);
                    }
                },
            }
            proof {
                assert(crate::graph::alist_unique(visited@));
                assert forall|w: Vertex|
                    crate::graph::alist_has(visited@, w) implies crate::graph::alist_has(
                    visited0,
                    w,
                ) || w == pt by {}
            }

            if !dominated {
                if pt == d {
                    // a candidate answer: keep the strictly better of the
                    // two, ties keeping the earlier-found one; do not expand
                    // past the destination
                    let cand = queue[idx].duplicate();
                    let replace: bool = match &best {
                        Some(b) => b.rate().lt(&cand.rate()),
                        None => true,
                    };
                    proof {
                        assert(best_ok(g, cand, s, d));
                        if has_edge(g, s, d) {
                            self.lemma_edge_props(s, d);
                            let er = edge_rate(g, s, d);
                            if best0 is None {
                                // the pending entry must be this very one:
                                // everything pending before it avoids `dst`
                                let k = choose|k: int|
                                    #[trigger] direct_pending(
                                        g,
                                        q_at_entry,
                                        cur,
                                        visited0,
                                        k,
                                        s,
                                        d,
                                    );
                                assert(direct_pending(g, q_at_entry, cur, visited0, k, s, d));
                                if k > cur {
                                    assert(q_at_entry[cur]@.last() != d);
                                    assert(false);
                                }
                                if is_seed(q_at_entry[cur], s) && !is_direct2(
                                    g,
                                    q_at_entry[cur],
                                    s,
                                    d,
                                ) {
                                    assert(q_at_entry[cur]@ == seq![s]);
                                    assert(pt == s);
                                    assert(false);
                                }
                                assert(is_direct2(g, q_at_entry[cur], s, d));
                                assert(cand.rate.num == er.num && cand.rate.den == er.den);
                                assert(rat_le(er, cand.rate));
                            } else {
                                let b = best0->0;
                                if replace {
                                    lemma_rat_le_lt_trans(er, b.rate, cand.rate);
                                }
                            }
                        }
                    }
                    if replace {
                        best = Some(cand);
                    }
                } else {
                    // branch to every neighbor not already on the path
                    let row = self.neighbors(&pt);
                    proof {
                        // carry the direct-edge guarantee over the head
                        // increment and the relaxation bookkeeping
                        if has_edge(g, s, d) {
                            if best0 is Some {
                                assert(direct_progress(g, queue@, head as int, visited@, best, s, d));
                            } else {
                                let k = choose|k: int|
                                    #[trigger] direct_pending(
                                        g,
                                        q_at_entry,
                                        cur,
                                        visited0,
                                        k,
                                        s,
                                        d,
                                    );
                                assert(direct_pending(g, q_at_entry, cur, visited0, k, s, d));
                                if k == cur {
                                    if is_direct2(g, q_at_entry[cur], s, d) {
                                        assert(q_at_entry[cur]@ == seq![s, d]);
                                        assert(pt == d);
                                        assert(false);
                                    }
                                    assert(cur == 0 && is_seed(q_at_entry[0], s));
                                    assert(q_at_entry.len() == 1);
                                    assert(pt == s);
                                    assert(!crate::graph::alist_has(visited@, d));
                                } else {
                                    assert(q_at_entry[cur]@.last() != d);
                                    assert(pt != d);
                                    assert(!crate::graph::alist_has(visited@, d));
                                    assert(is_direct2(g, queue@[k], s, d));
                                    assert(direct_pending(
                                        g,
                                        queue@,
                                        head as int,
                                        visited@,
                                        k,
                                        s,
                                        d,
                                    ));
                                }
                            }
                        }
                    }
                    let ghost q_snap = queue@;
                    let mut j: usize = 0;
                    while j < row.len()
                        invariant
                            j <= row@.len(),
                            queue@.len() >= q_snap.len(),
                            forall|k: int| 0 <= k < q_snap.len() ==> queue@[k] == q_snap[k],
                            forall|k: int|
                                0 <= k < queue@.len() ==> qent_ok(g, #[trigger] queue@[k], s, d),
                            has_edge(g, s, d) ==> (direct_progress(
                                g,
                                queue@,
                                head as int,
                                visited@,
                                best,
                                s,
                                d,
                            ) || (cur == 0 && best is None && !crate::graph::alist_has(
                                visited@,
                                d,
                            ) && (forall|k2: int|
                                1 <= k2 < queue@.len() ==> (#[trigger] queue@[k2])@.last() != d)
                                && (forall|jj: int|
                                0 <= jj < j ==> (#[trigger] row@[jj]).0 != d))),
                        decreases row@.len() - j,
                    {
                        let entry = row[j];
                        let v: Vertex = entry.0;
                        let er: Rate = entry.1;
                        let mut p2 = queue[idx].duplicate();
                        let ghost pbase = p2@;
                        proof {
                            assert(qent_ok(g, queue@[cur], s, d));
                            assert(pbase == q_at_entry[cur]@);
                            assert(has_edge(g, pt, v));
                            assert(er == edge_rate(g, pt, v));
                            assert(pbase.last() == pt);
                            // the base path avoids `dst` entirely
                            assert forall|ii: int| 0 <= ii < pbase.len() implies pbase[ii]
                                != d by {
                                if ii < pbase.len() - 1 {
                                    assert(pbase.drop_last()[ii] == pbase[ii]);
                                    assert(pbase.drop_last().contains(pbase[ii]));
                                }
                            }
                        }
                        let ok = p2.append(v, er);
                        if ok {
                            proof {
                                lemma_path_push(g, pbase, v);
                                lemma_distinct_push(pbase, v);
                                assert(p2@ == pbase.push(v));
                                assert(p2@.drop_last() =~= pbase);
                                if p2@.drop_last().contains(d) {
                                    assert(pbase.contains(d));
                                    let wi = choose|ii: int|
                                        0 <= ii < pbase.len() && pbase[ii] == d;
                                    assert(false);
                                }
                                assert(qent_ok(g, p2, s, d));
                            }
                            let ghost q_before = queue@;
                            queue.push(p2);
                            proof {
                                if has_edge(g, s, d) {
                                    if direct_progress(
                                        g,
                                        q_before,
                                        head as int,
                                        visited@,
                                        best,
                                        s,
                                        d,
                                    ) {
                                        lemma_progress_push(
                                            g,
                                            q_before,
                                            head as int,
                                            visited@,
                                            best,
                                            p2,
                                            s,
                                            d,
                                        );
                                    } else {
                                        // the seed dichotomy: watch for the
                                        // direct edge among the neighbors
                                        assert(cur == 0);
                                        assert(is_seed(q_at_entry[0], s));
                                        assert(pbase =~= seq![s]);
                                        assert(pt == s);
                                        if v == d {
                                            assert(p2@ =~= seq![s, d]);
                                            assert(p2.rate.num == 1 * er.num);
                                            assert(is_direct2(g, p2, s, d));
                                            let kn = q_before.len() as int;
                                            assert(queue@[kn] == p2);
                                            assert forall|k2: int|
                                                1 <= k2 < kn implies (
                                            #[trigger] queue@[k2])@.last() != d by {
                                                assert(queue@[k2] == q_before[k2]);
                                            }
                                            assert(direct_pending(
                                                g,
                                                queue@,
                                                head as int,
                                                visited@,
                                                kn,
                                                s,
                                                d,
                                            ));
                                        } else {
                                            assert(queue@[q_before.len() as int]@.last() == v);
                                        }
                                    }
                                }
                            }
                        } else {
                            proof {
                                // in the seed dichotomy every append
                                // succeeds: the seed holds only the source,
                                // and its rate is still `1/1`
                                if has_edge(g, s, d) && !direct_progress(
                                    g,
                                    queue@,
                                    head as int,
                                    visited@,
                                    best,
                                    s,
                                    d,
                                ) {
                                    assert(cur == 0);
                                    assert(pbase =~= seq![s]);
                                    assert(v != s);
                                    assert(!pbase.contains(v));
                                    assert(queue@[cur].rate == (Rate { num: 1, den: 1 }));
                                    assert(1 * er.num <= u64::MAX);
                                    assert(1 * er.den <= u64::MAX);
                                    assert(false);
                                }
                            }
                        }
                        j = j + 1;
                    }
                    proof {
                        // once every neighbor is branched to, the direct
                        // edge is pending in the queue if it was not already
                        if has_edge(g, s, d) && !direct_progress(
                            g,
                            queue@,
                            head as int,
                            visited@,
                            best,
                            s,
                            d,
                        ) {
                            assert(cur == 0);
                            assert(is_seed(q_at_entry[0], s));
                            assert(pt == s);
                            assert(crate::graph::alist_has(row@, d));
                            let jd = crate::graph::alist_index(row@, d);
                            assert(row@[jd].0 == d);
                            assert(false);
                        }
                    }
                }
            } else {
                proof {
                    // a dominated entry cannot be the pending guarantee:
                    // the seed meets an empty map, the direct two-vertex
                    // path a map still lacking `dst`
                    if has_edge(g, s, d) && best0 is None {
                        let k = choose|k: int|
                            #[trigger] direct_pending(g, q_at_entry, cur, visited0, k, s, d);
                        assert(direct_pending(g, q_at_entry, cur, visited0, k, s, d));
                        if k == cur {
                            if is_direct2(g, q_at_entry[cur], s, d) {
                                assert(q_at_entry[cur]@ == seq![s, d]);
                                assert(pt == d);
                            } else {
                                assert(visited0.len() == 0);
                            }
                            assert(false);
                        }
                        assert(q_at_entry[cur]@.last() != d);
                        assert(pt != d);
                        assert(direct_pending(g, queue@, head as int, visited@, k, s, d));
                    }
                }
            }
        }
        proof {
            let bb = best;
            if bb is Some {
                assert(is_simple_path(g, bb->0@, s, d));
                assert(connected(g, s, d));
            }
            if has_edge(g, s, d) {
                if !(bb matches Some(b) && rat_le(edge_rate(g, s, d), b.rate)) {
                    let k = choose|k: int|
                        #[trigger] direct_pending(g, queue@, head as int, visited@, k, s, d);
                    assert(head as int <= k < queue@.len());
                    assert(queue@.len() <= usize::MAX);
                    assert(false);
                }
            }
        }
        best
    }

    /// The best compounded rate from `src` to `dst` over the simple paths
    /// the pruned search explores, exact: the fraction returned is a product
    /// of edge-rate fractions along a real simple path.  `src == dst`
    /// reports `None` (no implicit identity rate), an unreachable `dst`
    /// reports `None`, and when a direct edge exists the result is at least
    /// its rate.
    pub fn find_best_rate(&self, src: &Vertex, dst: &Vertex) -> (res: Option<Rate>)
        requires
            self.wf(),
        ensures
            res matches Some(r) ==> ((exists|p: Seq<Vertex>|
                #[trigger] is_simple_path(self@, p, *src, *dst) && r.num == path_num(self@, p)
                    && r.den == path_den(self@, p)) && r.valid()),
            !connected(self@, *src, *dst) ==> res is None,
            *src == *dst ==> res is None,
            has_edge(self@, *src, *dst) ==> (res matches Some(r) && rat_le(
                edge_rate(self@, *src, *dst),
                r,
            )),
    {
        match self.find_best_path(src, dst) {
            Some(p) => {
                proof {
                    assert(is_simple_path(self@, p@, *src, *dst) && p.rate.num == path_num(
                        self@,
                        p@,
                    ) && p.rate.den == path_den(self@, p@));
                }
                Some(p.rate())
            },
            None => None,
        }
    }
}

} // verus!
