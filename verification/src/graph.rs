//! Graph-shape predicates over edge compositions: whether a set of edges
//! closes into a single-looped cycle and whether it forms an open line, both
//! decided by how many edges meet at each grid point.

use vstd::prelude::*;

use crate::dataclass::{seq_view, Attribute, Coordinate, Structure, StructureView};
use crate::dataclass::lemma_seq_view_index;

verus! {

broadcast use vstd::std_specs::vec::group_vec_axioms;

/// A coordinate as a pair of unbounded integers.
pub open spec fn key_pair(c: Coordinate) -> (int, int) {
    (c.0 as int, c.1 as int)
}

/// Whether an attribute names an edge lying between two points or two cells.
pub open spec fn is_edge_attr(a: Attribute) -> bool {
    a == Attribute::Hp || a == Attribute::Hc || a == Attribute::Vp || a == Attribute::Vc
}

/// The two grid points an edge element connects: its own coordinate and the
/// next one rightward for a horizontal edge, downward for a vertical edge.
pub open spec fn edge_points(e: crate::dataclass::Element) -> ((int, int), (int, int)) {
    if e.attr == Attribute::Hp || e.attr == Attribute::Hc {
        ((e.coor.0 as int, e.coor.1 as int), (e.coor.0 as int, e.coor.1 as int + 1))
    } else {
        ((e.coor.0 as int, e.coor.1 as int), (e.coor.0 as int + 1, e.coor.1 as int))
    }
}

/// How many endpoints of the single member `v` fall on the point `p`:
/// zero for a non-element member.
pub open spec fn count_in_edge(v: StructureView, p: (int, int)) -> nat {
    if v.is_element() {
        let pts = edge_points(v.elem());
        (if pts.0 == p {
            1nat
        } else {
            0nat
        }) + (if pts.1 == p {
            1nat
        } else {
            0nat
        })
    } else {
        0
    }
}

/// How many edge endpoints of the whole member list fall on the point `p`.
pub open spec fn endpoint_count(s: Seq<StructureView>, p: (int, int)) -> nat
    decreases s.len(),
{
    if s.len() == 0 {
        0
    } else {
        endpoint_count(s.drop_last(), p) + count_in_edge(s.last(), p)
    }
}

/// Every element member is an edge, and its coordinate leaves room for the
/// neighbouring point: what the endpoint analysis demands of its input.
pub open spec fn edge_members_ok(s: Seq<StructureView>) -> bool {
    forall|k: int|
        0 <= k < s.len() && (#[trigger] s[k]).is_element() ==> is_edge_attr(s[k].elem().attr)
            && s[k].elem().coor.0 < i32::MAX && s[k].elem().coor.1 < i32::MAX
}

/// The count that an association list of coordinates assigns to the point
/// `p`: the count of the last entry keyed by `p`, or zero.
pub open spec fn assoc_find(entries: Seq<(Coordinate, usize)>, p: (int, int)) -> nat
    decreases entries.len(),
{
    if entries.len() == 0 {
        0
    } else if key_pair(entries.last().0) == p {
        entries.last().1 as nat
    } else {
        assoc_find(entries.drop_last(), p)
    }
}

/// No two entries share a key.
pub open spec fn distinct_keys(entries: Seq<(Coordinate, usize)>) -> bool {
    forall|k1: int, k2: int|
        0 <= k1 < k2 < entries.len() ==> key_pair((#[trigger] entries[k1]).0) != key_pair(
            (#[trigger] entries[k2]).0,
        )
}

/// Updating the entry at a key's index moves `assoc_find` at that key alone.
proof fn lemma_assoc_find_update(
    entries: Seq<(Coordinate, usize)>,
    idx: int,
    v: usize,
    p: (int, int),
)
    requires
        distinct_keys(entries),
        0 <= idx < entries.len(),
    ensures
        assoc_find(entries.update(idx, (entries[idx].0, v)), p) == if p == key_pair(
            entries[idx].0,
        ) {
            v as nat
        } else {
            assoc_find(entries, p)
        },
    decreases entries.len(),
{
    let updated = entries.update(idx, (entries[idx].0, v));
    assert(updated.len() == entries.len());
    if idx == entries.len() - 1 {
        assert(updated.last() == (entries[idx].0, v));
        assert(updated.drop_last() =~= entries.drop_last());
    } else {
        assert(updated.last() == entries.last());
        assert(updated.drop_last() =~= entries.drop_last().update(idx, (entries[idx].0, v)));
        assert(distinct_keys(entries.drop_last()));
        assert(entries.drop_last()[idx] == entries[idx]);
        lemma_assoc_find_update(entries.drop_last(), idx, v, p);
        if p == key_pair(entries[idx].0) {
            assert(key_pair(entries.last().0) != key_pair(entries[idx].0));
        }
    }
}

/// A table counting, for each coordinate seen so far, how many edge endpoints
/// fall on it, in first-seen order.
pub struct CoordCounts {
    pub entries: Vec<(Coordinate, usize)>,
}

impl CoordCounts {
    /// The table's keys are distinct and no count has overflowed.
    pub open spec fn wf(self) -> bool {
        distinct_keys(self.entries@) && (forall|k: int|
            0 <= k < self.entries@.len() ==> 1 <= (#[trigger] self.entries@[k]).1 < usize::MAX)
            && (forall|k: int|
            0 <= k < self.entries@.len() ==> assoc_find(self.entries@, key_pair(
                (#[trigger] self.entries@[k]).0,
            )) == self.entries@[k].1 as nat)
    }

    /// The count this table assigns to a point.
    pub open spec fn count(self, p: (int, int)) -> nat {
        assoc_find(self.entries@, p)
    }

    /// An empty table: every point counts zero.
    pub fn new() -> (r: Self)
        ensures
            r.wf(),
            forall|p: (int, int)| r.count(p) == 0,
    {
        let r = CoordCounts { entries: Vec::new() };
        proof {
            assert forall|p: (int, int)| r.count(p) == 0 by {}
        }
        r
    }

    /// Adds one to the count of the given coordinate.
    #[verifier::loop_isolation(false)]
    pub fn increment(&mut self, c: Coordinate)
        requires
            old(self).wf(),
            old(self).count(key_pair(c)) < usize::MAX - 1,
        ensures
            final(self).wf(),
            forall|p: (int, int)|
                final(self).count(p) == if p == key_pair(c) {
                    old(self).count(p) + 1
                } else {
                    old(self).count(p)
                },
    {
        let ghost olde = self.entries@;
        let mut idx: usize = 0;
        let n = self.entries.len();
        while idx < n
            invariant
                idx <= n,
                n == self.entries@.len(),
                self.entries@ == olde,
                forall|k: int| 0 <= k < idx ==> key_pair((#[trigger] olde[k]).0) != key_pair(c),
            decreases n - idx,
        {
            let entry = self.entries[idx];
            if entry.0.0 == c.0 && entry.0.1 == c.1 {
                let newv = entry.1 + 1;
                proof {
                    assert(key_pair(entry.0) == key_pair(c));
                    assert(assoc_find(olde, key_pair(c)) == entry.1 as nat);
                    assert(entry.1 < usize::MAX - 1);
                }
                self.entries.set(idx, (entry.0, newv));
                proof {
                    assert(self.entries@ =~= olde.update(idx as int, (olde[idx as int].0, newv)));
                    assert forall|p: (int, int)|
                        self.count(p) == if p == key_pair(c) {
                            assoc_find(olde, p) + 1
                        } else {
                            assoc_find(olde, p)
                        } by {
                        lemma_assoc_find_update(olde, idx as int, newv, p);
                    }
                    assert(distinct_keys(self.entries@));
                    assert forall|k: int|
                        0 <= k < self.entries@.len() implies assoc_find(
                        self.entries@,
                        key_pair((#[trigger] self.entries@[k]).0),
                    ) == self.entries@[k].1 as nat by {
                        lemma_assoc_find_update(
                            olde,
                            idx as int,
                            newv,
                            key_pair(self.entries@[k].0),
                        );
                    }
                }
                return ;
            }
            idx = idx + 1;
        }
        proof {
            assert(assoc_find(olde, key_pair(c)) == 0) by {
                lemma_assoc_find_absent(olde, key_pair(c));
            }
        }
        self.entries.push((c, 1));
        proof {
            assert(self.entries@.drop_last() =~= olde);
            assert(self.entries@.last() == (c, 1usize));
            assert forall|p: (int, int)|
                self.count(p) == if p == key_pair(c) {
                    assoc_find(olde, p) + 1
                } else {
                    assoc_find(olde, p)
                } by {
                if p == key_pair(c) {
                    lemma_assoc_find_absent(olde, p);
                }
            }
            assert(distinct_keys(self.entries@));
            assert forall|k: int|
                0 <= k < self.entries@.len() implies assoc_find(
                self.entries@,
                key_pair((#[trigger] self.entries@[k]).0),
            ) == self.entries@[k].1 as nat by {
                if k < olde.len() {
                    assert(self.entries@[k] == olde[k]);
                    assert(key_pair(olde[k].0) != key_pair(c));
                }
            }
        }
    }
}

/// A point keyed by no entry counts zero.
pub proof fn lemma_assoc_find_absent(entries: Seq<(Coordinate, usize)>, p: (int, int))
    requires
        forall|k: int| 0 <= k < entries.len() ==> key_pair((#[trigger] entries[k]).0) != p,
    ensures
        assoc_find(entries, p) == 0,
    decreases entries.len(),
{
    if entries.len() > 0 {
        lemma_assoc_find_absent(entries.drop_last(), p);
    }
}

/// Builds the endpoint-count table of a member list: for each point of the
/// grid, how many of the list's edges end there.
#[verifier::loop_isolation(false)]
pub fn count_endpoints(entity: &Vec<Structure>) -> (r: CoordCounts)
    requires
        edge_members_ok(seq_view(entity@)),
        entity@.len() < 0x7fff_ffff,
    ensures
        r.wf(),
        forall|p: (int, int)| r.count(p) == endpoint_count(seq_view(entity@), p),
{
    proof {
        lemma_seq_view_index(entity@);
    }
    let ghost ev = seq_view(entity@);
    let mut counts = CoordCounts::new();
    proof {
        assert(ev.take(0) =~= Seq::<StructureView>::empty());
    }
    let mut i: usize = 0;
    while i < entity.len()
        invariant
            i <= entity.len(),
            counts.wf(),
            forall|p: (int, int)| counts.count(p) == endpoint_count(ev.take(i as int), p),
        decreases entity.len() - i,
    {
        proof {
            assert(ev.take(i as int + 1).drop_last() =~= ev.take(i as int));
            assert(ev.take(i as int + 1).last() == ev[i as int]);
            assert(ev[i as int] == entity@[i as int]@);
            lemma_endpoint_count_bound(ev.take(i as int), i as int);
        }
        match &entity[i] {
            Structure::Element(e) => {
                proof {
                    assert(ev[i as int] == (StructureView::Element { elem: *e }));
                    assert(is_edge_attr(e.attr));
                }
                let points = match e.attr {
                    Attribute::Hp | Attribute::Hc => e.coor.horizon_points(),
                    _ => e.coor.vertical_points(),
                };
                let ghost pts = edge_points(*e);
                proof {
                    assert(key_pair(points.0) == pts.0);
                    assert(key_pair(points.1) == pts.1);
                    assert(pts.0 != pts.1);
                }
                counts.increment(points.0);
                counts.increment(points.1);
                proof {
                    assert forall|p: (int, int)|
                        counts.count(p) == endpoint_count(ev.take(i as int + 1), p) by {
                        assert(endpoint_count(ev.take(i as int + 1), p) == endpoint_count(
                            ev.take(i as int),
                            p,
                        ) + count_in_edge(ev[i as int], p));
                    }
                }
            },
            _ => {
                proof {
                    assert(!ev[i as int].is_element());
                    assert forall|p: (int, int)|
                        counts.count(p) == endpoint_count(ev.take(i as int + 1), p) by {
                        assert(count_in_edge(ev[i as int], p) == 0);
                        assert(endpoint_count(ev.take(i as int + 1), p) == endpoint_count(
                            ev.take(i as int),
                            p,
                        ));
                    }
                }
            },
        }
        i = i + 1;
    }
    proof {
        assert(ev.take(entity@.len() as int) =~= ev);
    }
    counts
}

/// The count of any point is at most twice the number of edges.
proof fn lemma_endpoint_count_bound(s: Seq<StructureView>, bound: int)
    requires
        s.len() <= bound,
    ensures
        forall|p: (int, int)| endpoint_count(s, p) <= 2 * bound,
    decreases s.len(),
{
    if s.len() > 0 {
        lemma_endpoint_count_bound(s.drop_last(), bound - 1);
        assert forall|p: (int, int)| endpoint_count(s, p) <= 2 * bound by {
            assert(endpoint_count(s.drop_last(), p) <= 2 * (bound - 1));
            assert(count_in_edge(s.last(), p) <= 2);
        }
    } else {
        assert forall|p: (int, int)| endpoint_count(s, p) <= 2 * bound by {}
    }
}

/// A composition of edges closes into cycles: its edge count is even and
/// every grid point meets either no edge ends or exactly two. An atomic
/// structure passes vacuously.
pub open spec fn spec_only_cycle(g: StructureView) -> bool {
    if g.is_composition() {
        g.entity().len() % 2 == 0 && (forall|p: (int, int)|
            endpoint_count(g.entity(), p) == 0 || #[trigger] endpoint_count(g.entity(), p) == 2)
    } else {
        true
    }
}

/// A composition of edges forms one open line: two distinct grid points meet
/// exactly one edge end, and every other point meets none or two. An atomic
/// structure passes vacuously.
pub open spec fn spec_only_line(g: StructureView) -> bool {
    if g.is_composition() {
        exists|p1: (int, int), p2: (int, int)|
            {
                &&& p1 != p2
                &&& #[trigger] endpoint_count(g.entity(), p1) == 1
                &&& #[trigger] endpoint_count(g.entity(), p2) == 1
                &&& forall|q: (int, int)|
                    q != p1 && q != p2 ==> endpoint_count(g.entity(), q) == 0 || #[trigger]
                    endpoint_count(g.entity(), q) == 2
            }
    } else {
        false
    }
}

} // verus!

verus! {

/// Whether a composition of edges closes into cycles: an even number of
/// edges, with every grid point meeting either no edge ends or exactly two.
/// An odd member count is rejected at once, before any endpoint analysis.
#[allow(non_snake_case)]
#[verifier::loop_isolation(false)]
pub fn only_cycle(G: &Structure) -> (b: bool)
    requires
        G@.is_composition() ==> edge_members_ok(G@.entity()) && G@.entity().len() < 0x7fff_ffff,
    ensures
        b == spec_only_cycle(G@),
{
    match G {
        Structure::Composition(g) => {
            proof {
                lemma_seq_view_index(g.entity@);
                assert(G@ == (StructureView::Composition {
                    val: g.val,
                    entity: seq_view(g.entity@),
                }));
            }
            let ghost ev = seq_view(g.entity@);
            if g.entity.len() % 2 == 1 {
                return false;
            }
            let counts = count_endpoints(&g.entity);
            let n = counts.entries.len();
            let mut idx: usize = 0;
            while idx < n
                invariant
                    idx <= n,
                    n == counts.entries@.len(),
                    forall|k: int| 0 <= k < idx ==> (#[trigger] counts.entries@[k]).1 == 2,
                decreases n - idx,
            {
                let entry = counts.entries[idx];
                if entry.1 != 2 {
                    proof {
                        let q = key_pair(entry.0);
                        assert(counts.count(q) == entry.1 as nat);
                        assert(endpoint_count(ev, q) == entry.1 as nat);
                        assert(entry.1 >= 1);
                        assert(!(endpoint_count(ev, q) == 0 || endpoint_count(ev, q) == 2));
                    }
                    return false;
                }
                idx = idx + 1;
            }
            proof {
                assert forall|p: (int, int)|
                    endpoint_count(ev, p) == 0 || #[trigger] endpoint_count(ev, p) == 2 by {
                    if endpoint_count(ev, p) != 0 {
                        if forall|k: int|
                            0 <= k < counts.entries@.len() ==> key_pair(
                                (#[trigger] counts.entries@[k]).0,
                            ) != p {
                            lemma_assoc_find_absent(counts.entries@, p);
                            assert(counts.count(p) == 0);
                            assert(false);
                        }
                        let k = choose|k: int|
                            0 <= k < counts.entries@.len() && key_pair(
                                (#[trigger] counts.entries@[k]).0,
                            ) == p;
                        assert(counts.count(p) == counts.entries@[k].1 as nat);
                        assert(counts.entries@[k].1 == 2);
                    }
                }
            }
            true
        },
        _ => {
            true
        },
    }
}

/// Whether a composition of edges forms one open line: exactly two grid
/// points meet one edge end, and every other point meets none or two.
#[allow(non_snake_case)]
#[verifier::loop_isolation(false)]
pub fn only_line(G: &Structure) -> (b: bool)
    requires
        G@.is_composition() ==> edge_members_ok(G@.entity()) && G@.entity().len() < 0x7fff_ffff,
    ensures
        b == spec_only_line(G@),
{
    match G {
        Structure::Composition(g) => {
            proof {
                lemma_seq_view_index(g.entity@);
                assert(G@ == (StructureView::Composition {
                    val: g.val,
                    entity: seq_view(g.entity@),
                }));
            }
            let ghost ev = seq_view(g.entity@);
            let counts = count_endpoints(&g.entity);
            let n = counts.entries.len();
            let mut singles: usize = 0;
            let mut p1 = Coordinate(0, 0);
            let mut p2 = Coordinate(0, 0);
            let ghost mut gi1: int = 0;
            let ghost mut gi2: int = 0;
            let mut idx: usize = 0;
            while idx < n
                invariant
                    idx <= n,
                    n == counts.entries@.len(),
                    counts.wf(),
                    forall|p: (int, int)| counts.count(p) == endpoint_count(ev, p),
                    singles <= 2,
                    forall|k: int|
                        0 <= k < idx ==> (#[trigger] counts.entries@[k]).1 == 1
                            || counts.entries@[k].1 == 2,
                    singles >= 1 ==> 0 <= gi1 < idx && counts.entries@[gi1] == (p1, 1usize),
                    singles >= 2 ==> 0 <= gi2 < idx && gi1 != gi2 && counts.entries@[gi2] == (
                    p2,
                    1usize,
                    ),
                    forall|k: int|
                        0 <= k < idx && (#[trigger] counts.entries@[k]).1 == 1 ==> (singles >= 1
                            && k == gi1) || (singles >= 2 && k == gi2),
                decreases n - idx,
            {
                let entry = counts.entries[idx];
                if entry.1 == 1 {
                    if singles == 0 {
                        p1 = entry.0;
                        proof {
                            gi1 = idx as int;
                        }
                        singles = 1;
                    } else if singles == 1 {
                        p2 = entry.0;
                        proof {
                            gi2 = idx as int;
                        }
                        singles = 2;
                    } else {
                        proof {
                            let a = key_pair(counts.entries@[gi1].0);
                            let b = key_pair(counts.entries@[gi2].0);
                            let c = key_pair(entry.0);
                            assert(counts.count(a) == 1);
                            assert(counts.count(b) == 1);
                            assert(counts.count(c) == 1);
                            assert(a != b && a != c && b != c);
                            assert(!spec_only_line(G@)) by {
                                if spec_only_line(G@) {
                                    let (w1, w2) = choose|w1: (int, int), w2: (int, int)|
                                        {
                                            &&& w1 != w2
                                            &&& #[trigger] endpoint_count(ev, w1) == 1
                                            &&& #[trigger] endpoint_count(ev, w2) == 1
                                            &&& forall|q: (int, int)|
                                                q != w1 && q != w2 ==> endpoint_count(ev, q) == 0
                                                    || #[trigger] endpoint_count(ev, q) == 2
                                        };
                                    if a != w1 && a != w2 {
                                        assert(endpoint_count(ev, a) == 0 || endpoint_count(ev, a)
                                            == 2);
                                    } else if b != w1 && b != w2 {
                                        assert(endpoint_count(ev, b) == 0 || endpoint_count(ev, b)
                                            == 2);
                                    } else {
                                        assert(c != w1 && c != w2);
                                        assert(endpoint_count(ev, c) == 0 || endpoint_count(ev, c)
                                            == 2);
                                    }
                                }
                            }
                        }
                        return false;
                    }
                } else if entry.1 != 2 {
                    proof {
                        let q = key_pair(entry.0);
                        assert(counts.count(q) == entry.1 as nat);
                        assert(entry.1 >= 1);
                        assert(endpoint_count(ev, q) >= 3);
                        assert(!spec_only_line(G@)) by {
                            if spec_only_line(G@) {
                                let (w1, w2) = choose|w1: (int, int), w2: (int, int)|
                                    {
                                        &&& w1 != w2
                                        &&& #[trigger] endpoint_count(ev, w1) == 1
                                        &&& #[trigger] endpoint_count(ev, w2) == 1
                                        &&& forall|q0: (int, int)|
                                            q0 != w1 && q0 != w2 ==> endpoint_count(ev, q0) == 0
                                                || #[trigger] endpoint_count(ev, q0) == 2
                                    };
                                assert(q != w1 && q != w2);
                                assert(endpoint_count(ev, q) == 0 || endpoint_count(ev, q) == 2);
                            }
                        }
                    }
                    return false;
                }
                idx = idx + 1;
            }
            if singles == 2 {
                proof {
                    let a = key_pair(counts.entries@[gi1].0);
                    let b = key_pair(counts.entries@[gi2].0);
                    assert(a != b);
                    assert(endpoint_count(ev, a) == 1);
                    assert(endpoint_count(ev, b) == 1);
                    assert forall|q: (int, int)|
                        q != a && q != b implies endpoint_count(ev, q) == 0 || #[trigger]
                    endpoint_count(ev, q) == 2 by {
                        if endpoint_count(ev, q) != 0 {
                            if forall|k: int|
                                0 <= k < counts.entries@.len() ==> key_pair(
                                    (#[trigger] counts.entries@[k]).0,
                                ) != q {
                                lemma_assoc_find_absent(counts.entries@, q);
                                assert(counts.count(q) == 0);
                                assert(false);
                            }
                            let k = choose|k: int|
                                0 <= k < counts.entries@.len() && key_pair(
                                    (#[trigger] counts.entries@[k]).0,
                                ) == q;
                            assert(counts.count(q) == counts.entries@[k].1 as nat);
                            if counts.entries@[k].1 == 1 {
                                assert(k == gi1 || k == gi2);
                                assert(false);
                            }
                        }
                    }
                    assert(spec_only_line(G@));
                }
                true
            } else {
                proof {
                    assert(!spec_only_line(G@)) by {
                        if spec_only_line(G@) {
                            let (w1, w2) = choose|w1: (int, int), w2: (int, int)|
                                {
                                    &&& w1 != w2
                                    &&& #[trigger] endpoint_count(ev, w1) == 1
                                    &&& #[trigger] endpoint_count(ev, w2) == 1
                                    &&& forall|q0: (int, int)|
                                        q0 != w1 && q0 != w2 ==> endpoint_count(ev, q0) == 0
                                            || #[trigger] endpoint_count(ev, q0) == 2
                                };
                            assert(counts.count(w1) == 1);
                            assert(counts.count(w2) == 1);
                            if forall|k: int|
                                0 <= k < counts.entries@.len() ==> key_pair(
                                    (#[trigger] counts.entries@[k]).0,
                                ) != w1 {
                                lemma_assoc_find_absent(counts.entries@, w1);
                                assert(counts.count(w1) == 0);
                                assert(false);
                            }
                            let k1 = choose|k: int|
                                0 <= k < counts.entries@.len() && key_pair(
                                    (#[trigger] counts.entries@[k]).0,
                                ) == w1;
                            if forall|k: int|
                                0 <= k < counts.entries@.len() ==> key_pair(
                                    (#[trigger] counts.entries@[k]).0,
                                ) != w2 {
                                lemma_assoc_find_absent(counts.entries@, w2);
                                assert(counts.count(w2) == 0);
                                assert(false);
                            }
                            let k2 = choose|k: int|
                                0 <= k < counts.entries@.len() && key_pair(
                                    (#[trigger] counts.entries@[k]).0,
                                ) == w2;
                            assert(counts.entries@[k1].1 == 1);
                            assert(counts.entries@[k2].1 == 1);
                            assert(k1 != k2);
                            assert(singles >= 2);
                        }
                    }
                }
                false
            }
        },
        _ => {
            false
        },
    }
}

} // verus!

verus! {

/// Which family of edge points the member list belongs to: true when the
/// last element member is a point-edge, false when it is a cell-edge, true
/// when no element member occurs.
pub open spec fn points_family(s: Seq<StructureView>) -> bool
    decreases s.len(),
{
    if s.len() == 0 {
        true
    } else if s.last().is_element() {
        s.last().elem().attr == Attribute::Hp || s.last().elem().attr == Attribute::Vp
    } else {
        points_family(s.drop_last())
    }
}

} // verus!
