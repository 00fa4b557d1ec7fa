//! The combine engine: the power set of a universe of structures, filtered
//! down to the well-formed sub-structures — every member pairwise clear of
//! the forbidden relationships, every member related to a partner, the whole
//! connected under the permitted relationships, and every caller cutoff met.

use vstd::prelude::*;
use vstd::arithmetic::power2::pow2;

use crate::dataclass::{seq_view, Structure, StructureView};
use crate::dataclass::{clone_structures, lemma_seq_view_index, lemma_vec_deep_view, Composition};
use crate::relationship::{spec_relationship, Relationship};
use crate::board_validation::spec_non_related;
use crate::cutoff::{cutoffs_input_ok, spec_cutoffs, Cutoff};

verus! {

broadcast use vstd::std_specs::vec::group_vec_axioms;

/// Every subset of a sequence, as a sequence of subsequences: the power set
/// of the empty sequence holds only the empty sequence; otherwise it is the
/// power set of all but the last item, once as it is and once with the last
/// item appended to each subset.
pub open spec fn pow_seqs<A>(s: Seq<A>) -> Seq<Seq<A>>
    decreases s.len(),
{
    if s.len() == 0 {
        seq![Seq::empty()]
    } else {
        let p = pow_seqs(s.drop_last());
        p + p.map_values(|t: Seq<A>| t.push(s.last()))
    }
}

/// The power set of `n` items holds exactly `2^n` subsets.
pub proof fn lemma_pow_seqs_len<A>(s: Seq<A>)
    ensures
        pow_seqs(s).len() == pow2(s.len()),
    decreases s.len(),
{
    if s.len() == 0 {
        vstd::arithmetic::power2::lemma2_to64();
        assert(pow2(0) == 1);
    } else {
        vstd::arithmetic::power2::lemma_pow2_unfold(s.len());
        lemma_pow_seqs_len(s.drop_last());
        assert(pow2(s.len()) == 2 * pow2((s.len() - 1) as nat));
    }
}

/// Produces every subset of the given structures. Each subset keeps the
/// relative order of the original; there are exactly two to the power of the
/// input length of them.
#[verifier::loop_isolation(false)]
pub fn power_set(set: &Vec<Structure>) -> (out: Vec<Vec<Structure>>)
    ensures
        out.deep_view() == pow_seqs(set.deep_view()),
{
    proof {
        lemma_seq_view_index(set@);
        lemma_vec_deep_view(*set);
    }
    let ghost sv = set.deep_view();
    let mut out: Vec<Vec<Structure>> = Vec::new();
    let first: Vec<Structure> = Vec::new();
    out.push(first);
    proof {
        assert(sv.take(0) =~= Seq::<StructureView>::empty());
        assert(out.deep_view() =~~= pow_seqs(sv.take(0)));
    }
    let mut i: usize = 0;
    while i < set.len()
        invariant
            i <= set.len(),
            out.deep_view() == pow_seqs(sv.take(i as int)),
        decreases set.len() - i,
    {
        let ghost p = out.deep_view();
        let n = out.len();
        let mut j: usize = 0;
        let mut added: Vec<Vec<Structure>> = Vec::new();
        proof {
            assert(added.deep_view() =~= p.map_values(
                |t: Seq<StructureView>| t.push(sv[i as int]),
            ).take(0));
        }
        while j < n
            invariant
                j <= n,
                i < set.len(),
                n == out@.len(),
                out.deep_view() == p,
                added.deep_view() == p.map_values(
                    |t: Seq<StructureView>| t.push(sv[i as int]),
                ).take(j as int),
            decreases n - j,
        {
            let mut w = clone_structures(&out[j]);
            let ghost wv = w.deep_view();
            let item = set[i].clone();
            w.push(item);
            proof {
                assert(w.deep_view() =~= wv.push(sv[i as int]));
                assert(out@[j as int].deep_view() == p[j as int]);
                assert(w.deep_view() == p[j as int].push(sv[i as int]));
            }
            let ghost addedv = added.deep_view();
            added.push(w);
            proof {
                let f = |t: Seq<StructureView>| t.push(sv[i as int]);
                assert(added.deep_view() =~= addedv.push(p[j as int].push(sv[i as int])));
                assert(p.map_values(f).take(j as int + 1) =~= p.map_values(f).take(j as int).push(
                    f(p[j as int]),
                ));
                assert(added.deep_view() =~= p.map_values(f).take(j as int + 1));
            }
            j = j + 1;
        }
        let ghost addedv = added.deep_view();
        let mut tail = added;
        out.append(&mut tail);
        proof {
            let f = |t: Seq<StructureView>| t.push(sv[i as int]);
            assert(addedv =~= p.map_values(f));
            assert(out.deep_view() =~= p + addedv);
            assert(sv.take(i as int + 1).drop_last() =~= sv.take(i as int));
            assert(sv.take(i as int + 1).last() == sv[i as int]);
            assert(pow_seqs(sv.take(i as int + 1)) == p + p.map_values(
                |t: Seq<StructureView>| t.push(sv.take(i as int + 1).last()),
            ));
            assert(p.map_values(|t: Seq<StructureView>| t.push(sv.take(i as int + 1).last()))
                =~= p.map_values(f));
        }
        i = i + 1;
    }
    proof {
        assert(sv.take(set@.len() as int) =~= sv);
    }
    out
}

} // verus!

verus! {

/// Two structure views are related under some relationship of the set.
pub open spec fn related_under_some(
    a: StructureView,
    b: StructureView,
    rels: Seq<Relationship>,
) -> bool {
    exists|k: int| 0 <= k < rels.len() && #[trigger] spec_relationship(a, b, rels[k])
}

/// The relation is symmetric, because every named relationship is.
pub proof fn lemma_related_under_some_symmetric(
    a: StructureView,
    b: StructureView,
    rels: Seq<Relationship>,
)
    ensures
        related_under_some(a, b, rels) == related_under_some(b, a, rels),
{
    if related_under_some(a, b, rels) {
        let k = choose|k: int| 0 <= k < rels.len() && #[trigger] spec_relationship(a, b, rels[k]);
        crate::relationship::lemma_relationship_symmetric(a, b, rels[k]);
        assert(spec_relationship(b, a, rels[k]));
    }
    if related_under_some(b, a, rels) {
        let k = choose|k: int| 0 <= k < rels.len() && #[trigger] spec_relationship(b, a, rels[k]);
        crate::relationship::lemma_relationship_symmetric(b, a, rels[k]);
        assert(spec_relationship(a, b, rels[k]));
    }
}

/// A walk through member indices: every step joins two members related under
/// some permitted relationship.
pub open spec fn is_index_path(
    e: Seq<StructureView>,
    rels: Seq<Relationship>,
    p: Seq<int>,
) -> bool {
    &&& p.len() > 0
    &&& forall|t: int| 0 <= t < p.len() ==> 0 <= #[trigger] p[t] < e.len()
    &&& forall|t: int|
        0 <= t < p.len() - 1 ==> #[trigger] related_under_some(e[p[t]], e[p[t + 1]], rels)
}

/// Member `b` can be reached from member `a` along permitted relationships.
pub open spec fn connected_pair(
    e: Seq<StructureView>,
    rels: Seq<Relationship>,
    a: int,
    b: int,
) -> bool {
    exists|p: Seq<int>| #[trigger] is_index_path(e, rels, p) && p.first() == a && p.last() == b
}

/// Every member can be reached from the first member.
pub open spec fn spec_connected(e: Seq<StructureView>, rels: Seq<Relationship>) -> bool {
    forall|j: int| 0 <= j < e.len() ==> #[trigger] connected_pair(e, rels, 0, j)
}

/// Every member reaches itself.
pub proof fn lemma_path_single(e: Seq<StructureView>, rels: Seq<Relationship>, a: int)
    requires
        0 <= a < e.len(),
    ensures
        connected_pair(e, rels, a, a),
{
    let p = seq![a];
    assert(is_index_path(e, rels, p));
    assert(p.first() == a && p.last() == a);
}

/// A reached member's neighbour is reached.
pub proof fn lemma_path_extend(
    e: Seq<StructureView>,
    rels: Seq<Relationship>,
    a: int,
    b: int,
    c: int,
)
    requires
        connected_pair(e, rels, a, b),
        related_under_some(e[b], e[c], rels),
        0 <= c < e.len(),
    ensures
        connected_pair(e, rels, a, c),
{
    let p = choose|p: Seq<int>| #[trigger] is_index_path(e, rels, p) && p.first() == a && p.last()
        == b;
    let q = p.push(c);
    assert forall|t: int|
        0 <= t < q.len() - 1 implies #[trigger] related_under_some(
        e[q[t]],
        e[q[t + 1]],
        rels,
    ) by {
        if t < p.len() - 1 {
            assert(q[t] == p[t]);
            assert(q[t + 1] == p[t + 1]);
        } else {
            assert(q[t] == p.last());
            assert(q[t + 1] == c);
        }
    }
    assert(is_index_path(e, rels, q));
    assert(q.first() == a && q.last() == c);
}

/// Reaching is transitive: two walks join end to end.
pub proof fn lemma_path_concat(
    e: Seq<StructureView>,
    rels: Seq<Relationship>,
    a: int,
    b: int,
    c: int,
)
    requires
        connected_pair(e, rels, a, b),
        connected_pair(e, rels, b, c),
    ensures
        connected_pair(e, rels, a, c),
{
    let p1 = choose|p: Seq<int>| #[trigger] is_index_path(e, rels, p) && p.first() == a && p.last()
        == b;
    let p2 = choose|p: Seq<int>| #[trigger] is_index_path(e, rels, p) && p.first() == b && p.last()
        == c;
    let q = p1 + p2.drop_first();
    if p2.len() == 1 {
        assert(q =~= p1);
        assert(p1.last() == c);
    } else {
        assert(q.len() == p1.len() + p2.len() - 1);
        assert forall|t: int| 0 <= t < q.len() implies 0 <= #[trigger] q[t] < e.len() by {
            if t < p1.len() {
                assert(q[t] == p1[t]);
            } else {
                assert(q[t] == p2[t - p1.len() + 1]);
            }
        }
        assert forall|t: int|
            0 <= t < q.len() - 1 implies #[trigger] related_under_some(
            e[q[t]],
            e[q[t + 1]],
            rels,
        ) by {
            if t < p1.len() - 1 {
                assert(q[t] == p1[t]);
                assert(q[t + 1] == p1[t + 1]);
                assert(related_under_some(e[p1[t]], e[p1[t + 1]], rels));
            } else if t == p1.len() - 1 {
                assert(q[t] == p1.last());
                assert(p1.last() == b && b == p2.first() && p2.first() == p2[0]);
                assert(q[t + 1] == p2[1]);
                assert(related_under_some(e[p2[0int]], e[p2[0int + 1]], rels));
            } else {
                let u = t - p1.len() + 1;
                assert(q[t] == p2[u]);
                assert(q[t + 1] == p2[u + 1]);
                assert(related_under_some(e[p2[u]], e[p2[u + 1]], rels));
            }
        }
        assert(is_index_path(e, rels, q));
        assert(q.first() == a);
        assert(q.last() == p2.last());
    }
}

/// Reaching is symmetric: a walk runs as well backwards.
pub proof fn lemma_path_reverse(e: Seq<StructureView>, rels: Seq<Relationship>, a: int, b: int)
    requires
        connected_pair(e, rels, a, b),
    ensures
        connected_pair(e, rels, b, a),
{
    let p = choose|p: Seq<int>| #[trigger] is_index_path(e, rels, p) && p.first() == a && p.last()
        == b;
    let q = p.reverse();
    assert(q.len() == p.len());
    assert forall|t: int| 0 <= t < q.len() implies 0 <= #[trigger] q[t] < e.len() by {
        assert(q[t] == p[p.len() - 1 - t]);
    }
    assert forall|t: int|
        0 <= t < q.len() - 1 implies #[trigger] related_under_some(
        e[q[t]],
        e[q[t + 1]],
        rels,
    ) by {
        let u = p.len() - 2 - t;
        assert(q[t] == p[u + 1]);
        assert(q[t + 1] == p[u]);
        assert(related_under_some(e[p[u]], e[p[u + 1]], rels));
        lemma_related_under_some_symmetric(e[p[u]], e[p[u + 1]], rels);
    }
    assert(is_index_path(e, rels, q));
    assert(q.first() == b && q.last() == a);
}

/// A walk from a visited member to an unvisited one crosses the frontier
/// somewhere: some step leaves the visited set.
proof fn lemma_path_crosses_frontier(
    e: Seq<StructureView>,
    rels: Seq<Relationship>,
    p: Seq<int>,
    visited: Seq<bool>,
) -> (t: int)
    requires
        is_index_path(e, rels, p),
        visited.len() == e.len(),
        visited[p.first()],
        !visited[p.last()],
    ensures
        0 <= t < p.len() - 1,
        visited[p[t]],
        !visited[p[t + 1]],
        related_under_some(e[p[t]], e[p[t + 1]], rels),
    decreases p.len(),
{
    if visited[p[p.len() - 2]] {
        let t = p.len() - 2;
        assert(p[t + 1] == p.last());
        t
    } else {
        let shorter = p.drop_last();
        assert(shorter.first() == p.first());
        assert(shorter.last() == p[p.len() - 2]);
        assert forall|t: int|
            0 <= t < shorter.len() - 1 implies #[trigger] related_under_some(
            e[shorter[t]],
            e[shorter[t + 1]],
            rels,
        ) by {
            assert(shorter[t] == p[t]);
            assert(shorter[t + 1] == p[t + 1]);
            assert(related_under_some(e[p[t]], e[p[t + 1]], rels));
        }
        let t = lemma_path_crosses_frontier(e, rels, shorter, visited);
        assert(shorter[t] == p[t]);
        assert(shorter[t + 1] == p[t + 1]);
        t
    }
}

} // verus!

verus! {

/// Whether two structures satisfy some relationship of the set.
#[verifier::loop_isolation(false)]
pub fn related_any(x: &Structure, y: &Structure, rels: &Vec<Relationship>) -> (b: bool)
    ensures
        b == related_under_some(x@, y@, rels@),
{
    let mut k: usize = 0;
    while k < rels.len()
        invariant
            k <= rels.len(),
            forall|k0: int| 0 <= k0 < k ==> !spec_relationship(x@, y@, #[trigger] rels@[k0]),
        decreases rels.len() - k,
    {
        if crate::relationship::relationship(x, y, rels[k]) {
            return true;
        }
        k = k + 1;
    }
    false
}

/// A sequence of distinct indices below a bound is no longer than the bound.
proof fn lemma_distinct_bounded(q: Seq<usize>, n: int)
    requires
        q.no_duplicates(),
        forall|t: int| 0 <= t < q.len() ==> (#[trigger] q[t]) < n,
        0 <= n,
    ensures
        q.len() <= n,
    decreases n,
{
    if q.len() > 0 {
        let last = q.last();
        let shorter = q.drop_last().map_values(
            |u: usize|
                if u < last {
                    u
                } else {
                    (u - 1) as usize
                },
        );
        assert forall|t1: int, t2: int|
            0 <= t1 < t2 < shorter.len() implies shorter[t1] != shorter[t2] by {
            assert(q.drop_last()[t1] == q[t1]);
            assert(q.drop_last()[t2] == q[t2]);
            assert(q[t1] != q[t2]);
            assert(q[t1] != last && q[t2] != last);
        }
        assert(shorter.no_duplicates());
        assert forall|t: int| 0 <= t < shorter.len() implies (#[trigger] shorter[t]) < n - 1 by {
            assert(q.drop_last()[t] == q[t]);
            assert(q[t] != last);
        }
        lemma_distinct_bounded(shorter, n - 1);
    }
}

/// Whether a composition's members form one connected component: a
/// breadth-first traversal from the first member, following edges defined by
/// the permitted relationships, visits every member.
#[allow(non_snake_case)]
#[verifier::loop_isolation(false)]
fn is_connected_graph(structure: &Structure, R: &Vec<Relationship>) -> (b: bool)
    requires
        structure@.is_composition(),
        structure@.entity().len() >= 1,
    ensures
        b == spec_connected(structure@.entity(), R@),
{
    match structure {
        Structure::Composition(composition) => {
            proof {
                lemma_seq_view_index(composition.entity@);
                assert(structure@ == (StructureView::Composition {
                    val: composition.val,
                    entity: seq_view(composition.entity@),
                }));
            }
            let ghost ev = seq_view(composition.entity@);
            let n = composition.entity.len();
            let mut visited: Vec<bool> = Vec::new();
            let mut t: usize = 0;
            while t < n
                invariant
                    t <= n,
                    visited@.len() == t,
                    forall|k: int| 0 <= k < t ==> !(#[trigger] visited@[k]),
                decreases n - t,
            {
                visited.push(false);
                t = t + 1;
            }
            visited.set(0, true);
            let mut queue: Vec<usize> = Vec::new();
            queue.push(0);
            let mut qhead: usize = 0;
            proof {
                lemma_path_single(ev, R@, 0);
                assert(queue@[0] == 0usize);
                assert forall|k: int| 0 <= k < n && #[trigger] visited@[k] implies exists|t0: int|
                    0 <= t0 < queue@.len() && queue@[t0] == k by {
                    assert(k == 0);
                    assert(queue@[0] == k);
                }
            }
            while qhead < queue.len()
                invariant
                    n == ev.len(),
                    visited@.len() == n,
                    qhead <= queue@.len(),
                    queue@.no_duplicates(),
                    visited@[0],
                    forall|t0: int| 0 <= t0 < queue@.len() ==> (#[trigger] queue@[t0]) < n,
                    forall|t0: int|
                        0 <= t0 < queue@.len() ==> visited@[#[trigger] queue@[t0] as int],
                    forall|k: int|
                        0 <= k < n && #[trigger] visited@[k] ==> connected_pair(ev, R@, 0, k),
                    forall|k: int|
                        0 <= k < n && #[trigger] visited@[k] ==> exists|t0: int|
                            0 <= t0 < queue@.len() && queue@[t0] == k,
                    forall|t0: int, k: int|
                        0 <= t0 < qhead && 0 <= k < n && !visited@[k]
                            ==> !related_under_some(ev[#[trigger] queue@[t0] as int], #[trigger] ev[k], R@),
                decreases n - qhead,
            {
                let cur = queue[qhead];
                qhead = qhead + 1;
                let mut j: usize = 0;
                while j < n
                    invariant
                        n == ev.len(),
                        visited@.len() == n,
                        j <= n,
                        cur < n,
                        qhead <= queue@.len(),
                        queue@.no_duplicates(),
                        visited@[0],
                        visited@[cur as int],
                        cur == queue@[qhead - 1],
                        forall|t0: int| 0 <= t0 < queue@.len() ==> (#[trigger] queue@[t0]) < n,
                        forall|t0: int|
                            0 <= t0 < queue@.len() ==> visited@[#[trigger] queue@[t0] as int],
                        forall|k: int|
                            0 <= k < n && #[trigger] visited@[k] ==> connected_pair(ev, R@, 0, k),
                        forall|k: int|
                            0 <= k < n && #[trigger] visited@[k] ==> exists|t0: int|
                                0 <= t0 < queue@.len() && queue@[t0] == k,
                        forall|t0: int, k: int|
                            0 <= t0 < qhead - 1 && 0 <= k < n && !visited@[k]
                                ==> !related_under_some(ev[#[trigger] queue@[t0] as int], #[trigger] ev[k], R@),
                        forall|k: int|
                            0 <= k < j && !visited@[k] ==> !related_under_some(
                                ev[cur as int],
                                #[trigger] ev[k],
                                R@,
                            ),
                    decreases n - j,
                {
                    if !visited[j] {
                        if related_any(&composition.entity[cur], &composition.entity[j], R) {
                            proof {
                                assert(ev[cur as int] == composition.entity@[cur as int]@);
                                assert(ev[j as int] == composition.entity@[j as int]@);
                                lemma_path_extend(ev, R@, 0, cur as int, j as int);
                                lemma_distinct_bounded(queue@, n as int);
                            }
                            let ghost oldq = queue@;
                            let ghost oldv = visited@;
                            proof {
                                assert forall|t0: int|
                                    0 <= t0 < oldq.len() implies oldq[t0] != j by {
                                    assert(oldv[oldq[t0] as int]);
                                }
                            }
                            visited.set(j, true);
                            queue.push(j);
                            proof {
                                assert(queue@.drop_last() =~= oldq);
                                assert(queue@.last() == j);
                                assert(queue@.no_duplicates());
                                assert forall|k: int|
                                    0 <= k < n && #[trigger] visited@[k] implies exists|t0: int|
                                    0 <= t0 < queue@.len() && queue@[t0] == k by {
                                    if k == j as int {
                                        assert(queue@[queue@.len() - 1] == k as usize);
                                    } else {
                                        assert(oldv[k]);
                                        let t0 = choose|t0: int|
                                            0 <= t0 < oldq.len() && oldq[t0] == k;
                                        assert(queue@[t0] == k);
                                    }
                                }
                            }
                        } else {
                            proof {
                                assert(ev[cur as int] == composition.entity@[cur as int]@);
                                assert(ev[j as int] == composition.entity@[j as int]@);
                            }
                        }
                    }
                    j = j + 1;
                }
                proof {
                    lemma_distinct_bounded(queue@, n as int);
                }
            }
            let mut all = true;
            let mut k: usize = 0;
            while k < n
                invariant
                    k <= n,
                    n == visited@.len(),
                    all == (forall|k0: int| 0 <= k0 < k ==> #[trigger] visited@[k0]),
                decreases n - k,
            {
                if !visited[k] {
                    all = false;
                }
                k = k + 1;
            }
            proof {
                if all {
                    assert forall|j0: int| 0 <= j0 < ev.len() implies #[trigger] connected_pair(
                        ev,
                        R@,
                        0,
                        j0,
                    ) by {
                        assert(visited@[j0]);
                    }
                    assert(spec_connected(ev, R@));
                } else {
                    let bad = choose|k0: int| 0 <= k0 < n && !visited@[k0];
                    if connected_pair(ev, R@, 0, bad) {
                        let p = choose|p: Seq<int>|
                            #[trigger] is_index_path(ev, R@, p) && p.first() == 0 && p.last()
                                == bad;
                        let t0 = lemma_path_crosses_frontier(ev, R@, p, visited@);
                        let c = p[t0];
                        let d = p[t0 + 1];
                        assert(visited@[c]);
                        let tq = choose|tq: int| 0 <= tq < queue@.len() && queue@[tq] == c;
                        assert(!related_under_some(ev[queue@[tq] as int], ev[d], R@));
                        assert(false);
                    }
                    assert(!spec_connected(ev, R@));
                }
            }
            all
        },
        _ => {
            proof {
                assert(false);
            }
            false
        },
    }
}

} // verus!

verus! {

/// Member `i` has a partner: some member with a different value that it is
/// related to under the permitted set.
pub open spec fn has_partner(e: Seq<StructureView>, i: int, rels: Seq<Relationship>) -> bool {
    exists|j: int|
        0 <= j < e.len() && e[j] != e[i] && #[trigger] related_under_some(e[i], e[j], rels)
}

/// Every member has a partner.
pub open spec fn all_have_partner(e: Seq<StructureView>, rels: Seq<Relationship>) -> bool {
    forall|i: int| 0 <= i < e.len() ==> #[trigger] has_partner(e, i, rels)
}

/// No pair of distinct members satisfies any forbidden relationship.
pub open spec fn no_forbidden(e: Seq<StructureView>, nrels: Seq<Relationship>) -> bool {
    forall|k: int| 0 <= k < nrels.len() ==> spec_non_related(e, #[trigger] nrels[k])
}

/// The composition the combine engine wraps an accepted subset into: the
/// members under a fresh unset value.
pub open spec fn wrap_composition(e: Seq<StructureView>) -> StructureView {
    StructureView::Composition { val: None, entity: e }
}

/// What the combine engine accepts: a non-empty subset that, when it has two
/// or more members, is clear of every forbidden relationship, gives every
/// member a partner, and is one connected component under the permitted
/// relationships; and that passes every caller cutoff.
pub open spec fn spec_admitted(
    e: Seq<StructureView>,
    rels: Seq<Relationship>,
    nrels: Seq<Relationship>,
    cutoffs: Seq<Cutoff>,
) -> bool {
    &&& e.len() >= 1
    &&& (e.len() >= 2 ==> no_forbidden(e, nrels) && all_have_partner(e, rels) && spec_connected(
        e,
        rels,
    ))
    &&& spec_cutoffs(cutoffs, wrap_composition(e))
}

/// Decides whether one subset is admitted, and wraps it into a composition if
/// it is. The subset is consumed.
#[allow(non_snake_case)]
#[verifier::loop_isolation(false)]
pub fn candidate_structure(
    e: Vec<Structure>,
    R: &Vec<Relationship>,
    not_R: &Vec<Relationship>,
    cutoff_fn: &Vec<Cutoff>,
) -> (r: Option<Structure>)
    requires
        cutoffs_input_ok(cutoff_fn@, e.deep_view()),
    ensures
        r.is_some() == spec_admitted(e.deep_view(), R@, not_R@, cutoff_fn@),
        r matches Some(s) ==> s@ == wrap_composition(e.deep_view()),
{
    proof {
        lemma_seq_view_index(e@);
        lemma_vec_deep_view(e);
    }
    let ghost ev = e.deep_view();
    let n = e.len();
    if n == 0 {
        return None;
    }
    if n >= 2 {
        // Forbidden relationships: every distinct pair must fail all of them.
        let mut i: usize = 0;
        while i < n
            invariant
                i <= n,
                n == e@.len(),
                forall|i0: int, j0: int, k0: int|
                    0 <= i0 < i && 0 <= j0 < n && 0 <= k0 < not_R@.len() && ev[i0] != ev[j0]
                        ==> !spec_relationship(#[trigger] ev[i0], #[trigger] ev[j0], #[trigger] not_R@[k0]),
            decreases n - i,
        {
            let mut j: usize = 0;
            while j < n
                invariant
                    i < n,
                    j <= n,
                    n == e@.len(),
                    forall|j0: int, k0: int|
                        0 <= j0 < j && 0 <= k0 < not_R@.len() && ev[i as int] != ev[j0]
                            ==> !spec_relationship(ev[i as int], #[trigger] ev[j0], #[trigger] not_R@[k0]),
                decreases n - j,
            {
                if !crate::board_validation::structures_equal(&e[i], &e[j]) {
                    let mut k: usize = 0;
                    while k < not_R.len()
                        invariant
                            i < n,
                            j < n,
                            k <= not_R@.len(),
                            n == e@.len(),
                            ev[i as int] != ev[j as int],
                            forall|k0: int|
                                0 <= k0 < k ==> !spec_relationship(
                                    ev[i as int],
                                    ev[j as int],
                                    #[trigger] not_R@[k0],
                                ),
                        decreases not_R@.len() - k,
                    {
                        if crate::relationship::relationship(&e[i], &e[j], not_R[k]) {
                            proof {
                                assert(spec_relationship(ev[i as int], ev[j as int], not_R@[k as int]));
                                assert(!spec_non_related(ev, not_R@[k as int]));
                                assert(!no_forbidden(ev, not_R@));
                            }
                            return None;
                        }
                        k = k + 1;
                    }
                }
                j = j + 1;
            }
            i = i + 1;
        }
        proof {
            assert forall|k0: int|
                0 <= k0 < not_R@.len() implies spec_non_related(ev, #[trigger] not_R@[k0]) by {
                assert forall|i0: int, j0: int|
                    0 <= i0 < ev.len() && 0 <= j0 < ev.len() && ev[i0] != ev[j0]
                        implies !spec_relationship(#[trigger] ev[i0], #[trigger] ev[j0], not_R@[k0]) by {}
            }
            assert(no_forbidden(ev, not_R@));
        }
        // Permitted relationships: every member needs a partner.
        let mut i: usize = 0;
        while i < n
            invariant
                i <= n,
                n == e@.len(),
                no_forbidden(ev, not_R@),
                forall|i0: int| 0 <= i0 < i ==> #[trigger] has_partner(ev, i0, R@),
            decreases n - i,
        {
            let mut related = false;
            let mut j: usize = 0;
            while j < n
                invariant
                    i < n,
                    j <= n,
                    n == e@.len(),
                    related ==> has_partner(ev, i as int, R@),
                    !related ==> forall|j0: int|
                        0 <= j0 < j && ev[j0] != ev[i as int] ==> !related_under_some(
                            ev[i as int],
                            #[trigger] ev[j0],
                            R@,
                        ),
                decreases n - j,
            {
                if !related {
                    if !crate::board_validation::structures_equal(&e[i], &e[j]) {
                        if related_any(&e[i], &e[j], R) {
                            proof {
                                assert(ev[j as int] != ev[i as int]);
                                assert(related_under_some(ev[i as int], ev[j as int], R@));
                            }
                            related = true;
                        }
                    }
                }
                j = j + 1;
            }
            if !related {
                proof {
                    assert(!has_partner(ev, i as int, R@));
                }
                return None;
            }
            i = i + 1;
        }
        // Connectivity: one component under the permitted relationships.
        let s = Structure::Composition(Composition { val: None, entity: e });
        proof {
            assert(s@ == wrap_composition(ev));
            assert(s@.entity() == ev);
        }
        if !is_connected_graph(&s, R) {
            return None;
        }
        // Caller cutoffs.
        if !crate::cutoff::eval_cutoffs(cutoff_fn, &s) {
            return None;
        }
        proof {
            assert(spec_admitted(ev, R@, not_R@, cutoff_fn@));
        }
        Some(s)
    } else {
        // A single member is structurally valid; only the cutoffs decide.
        let s = Structure::Composition(Composition { val: None, entity: e });
        proof {
            assert(s@ == wrap_composition(ev));
            assert(s@.entity() == ev);
        }
        if !crate::cutoff::eval_cutoffs(cutoff_fn, &s) {
            return None;
        }
        proof {
            assert(spec_admitted(ev, R@, not_R@, cutoff_fn@));
        }
        Some(s)
    }
}

} // verus!

verus! {

/// `sub` can be read off `sup` left to right: it keeps the relative order of
/// the original sequence.
pub open spec fn is_subseq_of<A>(sub: Seq<A>, sup: Seq<A>) -> bool
    decreases sub.len() + sup.len(),
{
    if sub.len() == 0 {
        true
    } else if sup.len() == 0 {
        false
    } else {
        (sub.last() == sup.last() && is_subseq_of(sub.drop_last(), sup.drop_last())) || is_subseq_of(
            sub,
            sup.drop_last(),
        )
    }
}

/// A subsequence of a shorter sequence is one of the longer.
proof fn lemma_subseq_widen<A>(sub: Seq<A>, sup: Seq<A>)
    requires
        sup.len() > 0,
        is_subseq_of(sub, sup.drop_last()),
    ensures
        is_subseq_of(sub, sup),
{
}

/// Every subset the power set produces is a subsequence of the universe, in
/// the universe's order.
pub proof fn lemma_pow_seqs_subseqs<A>(s: Seq<A>)
    ensures
        forall|t: int|
            0 <= t < pow_seqs(s).len() ==> is_subseq_of(#[trigger] pow_seqs(s)[t], s),
    decreases s.len(),
{
    if s.len() == 0 {
        assert forall|t: int|
            0 <= t < pow_seqs(s).len() implies is_subseq_of(#[trigger] pow_seqs(s)[t], s) by {
            assert(pow_seqs(s)[t] == Seq::<A>::empty());
        }
    } else {
        let p = pow_seqs(s.drop_last());
        lemma_pow_seqs_subseqs(s.drop_last());
        assert forall|t: int|
            0 <= t < pow_seqs(s).len() implies is_subseq_of(#[trigger] pow_seqs(s)[t], s) by {
            if t < p.len() {
                assert(pow_seqs(s)[t] == p[t]);
                assert(is_subseq_of(p[t], s.drop_last()));
                lemma_subseq_widen(p[t], s);
            } else {
                let f = |x: Seq<A>| x.push(s.last());
                assert(pow_seqs(s)[t] == p.map_values(f)[t - p.len()]);
                let x = p[t - p.len()];
                assert(pow_seqs(s)[t] == x.push(s.last()));
                assert(is_subseq_of(x, s.drop_last()));
                assert(x.push(s.last()).last() == s.last());
                assert(x.push(s.last()).drop_last() =~= x);
                assert(is_subseq_of(x.push(s.last()), s));
            }
        }
    }
}

/// Each member of a subsequence is a member of the full sequence.
pub proof fn lemma_subseq_members<A>(sub: Seq<A>, sup: Seq<A>)
    requires
        is_subseq_of(sub, sup),
    ensures
        forall|k: int|
            0 <= k < sub.len() ==> exists|j: int| 0 <= j < sup.len() && #[trigger] sub[k] == sup[j],
    decreases sub.len() + sup.len(),
{
    if sub.len() == 0 {
    } else if sup.len() == 0 {
    } else if sub.last() == sup.last() && is_subseq_of(sub.drop_last(), sup.drop_last()) {
        lemma_subseq_members(sub.drop_last(), sup.drop_last());
        assert forall|k: int|
            0 <= k < sub.len() implies exists|j: int|
            0 <= j < sup.len() && #[trigger] sub[k] == sup[j] by {
            if k < sub.len() - 1 {
                assert(sub.drop_last()[k] == sub[k]);
                let j = choose|j: int|
                    0 <= j < sup.drop_last().len() && #[trigger] sub.drop_last()[k] == sup.drop_last()[j];
                assert(sub[k] == sup[j]);
            } else {
                assert(sub[k] == sup[sup.len() - 1]);
            }
        }
    } else {
        lemma_subseq_members(sub, sup.drop_last());
        assert forall|k: int|
            0 <= k < sub.len() implies exists|j: int|
            0 <= j < sup.len() && #[trigger] sub[k] == sup[j] by {
            let j = choose|j: int|
                0 <= j < sup.drop_last().len() && #[trigger] sub[k] == sup.drop_last()[j];
            assert(sub[k] == sup[j]);
        }
    }
}

/// A sequence with no duplicate members has no subsequence ending in a value
/// it does not hold.
proof fn lemma_subseq_no_alien<A>(sub: Seq<A>, sup: Seq<A>, v: A)
    requires
        is_subseq_of(sub, sup),
        !sup.contains(v),
        sub.len() > 0,
    ensures
        sub.last() != v,
{
    lemma_subseq_members(sub, sup);
    assert(sub[sub.len() - 1] == sub.last());
    let j = choose|j: int| 0 <= j < sup.len() && sub[sub.len() - 1] == sup[j];
    assert(sup[j] == sub.last());
}

/// Over a universe without duplicate members, the power set's subsets are
/// pairwise distinct: the same holds of any universe read as its sequence of
/// positions.
pub proof fn lemma_pow_seqs_distinct<A>(s: Seq<A>)
    requires
        s.no_duplicates(),
    ensures
        pow_seqs(s).no_duplicates(),
    decreases s.len(),
{
    if s.len() > 0 {
        let p = pow_seqs(s.drop_last());
        let f = |x: Seq<A>| x.push(s.last());
        let mapped = p.map_values(f);
        assert(s.drop_last().no_duplicates());
        lemma_pow_seqs_distinct(s.drop_last());
        lemma_pow_seqs_subseqs(s.drop_last());
        assert(!s.drop_last().contains(s.last())) by {
            if s.drop_last().contains(s.last()) {
                let j = choose|j: int|
                    0 <= j < s.drop_last().len() && s.drop_last()[j] == s.last();
                assert(s[j] == s[s.len() - 1]);
            }
        }
        assert forall|t1: int, t2: int|
            0 <= t1 < t2 < pow_seqs(s).len() implies pow_seqs(s)[t1] != pow_seqs(s)[t2] by {
            if t1 < p.len() && t2 < p.len() {
                assert(pow_seqs(s)[t1] == p[t1]);
                assert(pow_seqs(s)[t2] == p[t2]);
            } else if t1 >= p.len() && t2 >= p.len() {
                assert(pow_seqs(s)[t1] == mapped[t1 - p.len()]);
                assert(pow_seqs(s)[t2] == mapped[t2 - p.len()]);
                let x1 = p[t1 - p.len()];
                let x2 = p[t2 - p.len()];
                assert(x1 != x2);
                if x1.push(s.last()) == x2.push(s.last()) {
                    assert(x1.push(s.last()).drop_last() =~= x1);
                    assert(x2.push(s.last()).drop_last() =~= x2);
                    assert(false);
                }
            } else {
                let x1 = p[t1];
                let x2 = p[t2 - p.len()];
                assert(pow_seqs(s)[t1] == x1);
                assert(pow_seqs(s)[t2] == x2.push(s.last()));
                let w = x2.push(s.last());
                assert(w.len() > 0 && w.last() == s.last());
                if x1 == w {
                    lemma_subseq_no_alien(x1, s.drop_last(), s.last());
                    assert(false);
                }
            }
        }
    }
}

} // verus!

verus! {

/// A subsequence is no longer than the sequence it is read off.
pub proof fn lemma_subseq_len<A>(sub: Seq<A>, sup: Seq<A>)
    requires
        is_subseq_of(sub, sup),
    ensures
        sub.len() <= sup.len(),
    decreases sub.len() + sup.len(),
{
    if sub.len() == 0 {
    } else if sup.len() == 0 {
    } else if sub.last() == sup.last() && is_subseq_of(sub.drop_last(), sup.drop_last()) {
        lemma_subseq_len(sub.drop_last(), sup.drop_last());
    } else {
        lemma_subseq_len(sub, sup.drop_last());
    }
}

/// What a subset of the universe may be asked by the cutoffs, the whole
/// universe answers for: edge-only membership carries over to subsequences.
pub proof fn lemma_cutoff_input_hereditary(
    cs: Seq<Cutoff>,
    sub: Seq<StructureView>,
    sup: Seq<StructureView>,
)
    requires
        is_subseq_of(sub, sup),
        forall|k: int| 0 <= k < cs.len() ==> crate::cutoff::cutoff_input_ok(#[trigger] cs[k], sup),
    ensures
        cutoffs_input_ok(cs, sub),
{
    lemma_subseq_members(sub, sup);
    lemma_subseq_len(sub, sup);
    assert forall|k: int|
        0 <= k < cs.len() implies crate::cutoff::cutoff_input_ok(#[trigger] cs[k], sub) by {
        if crate::graph::edge_members_ok(sup) {
            assert forall|t: int|
                0 <= t < sub.len() && (#[trigger] sub[t]).is_element() implies crate::graph::is_edge_attr(
                sub[t].elem().attr,
            ) && sub[t].elem().coor.0 < i32::MAX && sub[t].elem().coor.1 < i32::MAX by {
                let j = choose|j: int| 0 <= j < sup.len() && #[trigger] sub[t] == sup[j];
                assert(sup[j].is_element());
            }
            assert(crate::graph::edge_members_ok(sub));
        }
    }
}

/// Relies on rayon's `into_par_iter`, `filter_map` and `collect` for `Vec`:
/// each subset's verdict is computed independently by `candidate_structure`,
/// and `collect` gathers the kept results in the input order (rayon's reduce
/// concatenates split results left to right). So the output equals the
/// sequential filter of the subsets by the admission predicate, each wrapped
/// into a composition.
#[allow(non_snake_case)]
#[verifier::external_body]
fn par_filter_candidates(
    subsets: Vec<Vec<Structure>>,
    R: &Vec<Relationship>,
    not_R: &Vec<Relationship>,
    cutoff_fn: &Vec<Cutoff>,
) -> (out: Vec<Structure>)
    requires
        forall|t: int|
            0 <= t < subsets.deep_view().len() ==> cutoffs_input_ok(
                cutoff_fn@,
                #[trigger] subsets.deep_view()[t],
            ),
    ensures
        seq_view(out@) == subsets.deep_view().filter(
            |e: Seq<StructureView>| spec_admitted(e, R@, not_R@, cutoff_fn@),
        ).map_values(|e: Seq<StructureView>| wrap_composition(e)),
{
    rayon::iter::ParallelIterator::collect(rayon::iter::ParallelIterator::filter_map(
        rayon::iter::IntoParallelIterator::into_par_iter(subsets),
        |e| candidate_structure(e, R, not_R, cutoff_fn),
    ))
}

/// Produces every legal sub-structure of the universe `E`: every subset of
/// `E` that is non-empty, clear of the forbidden relationships, has a partner
/// for each member, forms one connected component under the permitted
/// relationships, and passes every cutoff — each wrapped into a composition
/// with an unset value, in power-set order.
#[allow(non_snake_case)]
pub fn combine(
    R: Vec<Relationship>,
    not_R: Vec<Relationship>,
    E: &Vec<Structure>,
    cutoff_fn: &Vec<Cutoff>,
) -> (out: Vec<Structure>)
    requires
        forall|k: int|
            0 <= k < cutoff_fn@.len() ==> crate::cutoff::cutoff_input_ok(
                #[trigger] cutoff_fn@[k],
                E.deep_view(),
            ),
    ensures
        seq_view(out@) == pow_seqs(E.deep_view()).filter(
            |e: Seq<StructureView>| spec_admitted(e, R@, not_R@, cutoff_fn@),
        ).map_values(|e: Seq<StructureView>| wrap_composition(e)),
{
    let subsets = power_set(E);
    proof {
        lemma_pow_seqs_subseqs(E.deep_view());
        assert forall|t: int|
            0 <= t < subsets.deep_view().len() implies cutoffs_input_ok(
            cutoff_fn@,
            #[trigger] subsets.deep_view()[t],
        ) by {
            lemma_cutoff_input_hereditary(cutoff_fn@, subsets.deep_view()[t], E.deep_view());
        }
    }
    par_filter_candidates(subsets, &R, &not_R, cutoff_fn)
}

/// Of every composition the combine engine accepts with two or more members:
/// each member is related, under some permitted relationship, to a member
/// with a different value, and no pair of distinct members satisfies any
/// forbidden relationship.
pub proof fn lemma_admitted_members(
    e: Seq<StructureView>,
    rels: Seq<Relationship>,
    nrels: Seq<Relationship>,
    cutoffs: Seq<Cutoff>,
)
    requires
        spec_admitted(e, rels, nrels, cutoffs),
        e.len() > 1,
    ensures
        forall|i: int| 0 <= i < e.len() ==> #[trigger] has_partner(e, i, rels),
        forall|k: int| 0 <= k < nrels.len() ==> spec_non_related(e, #[trigger] nrels[k]),
{
}

/// In every composition the combine engine accepts, a traversal along the
/// permitted relationships may start at any member: every member reaches
/// every member.
pub proof fn lemma_admitted_connected_any_start(
    e: Seq<StructureView>,
    rels: Seq<Relationship>,
    nrels: Seq<Relationship>,
    cutoffs: Seq<Cutoff>,
    s: int,
    j: int,
)
    requires
        spec_admitted(e, rels, nrels, cutoffs),
        e.len() > 1,
        0 <= s < e.len(),
        0 <= j < e.len(),
    ensures
        connected_pair(e, rels, s, j),
{
    assert(connected_pair(e, rels, 0, s));
    assert(connected_pair(e, rels, 0, j));
    lemma_path_reverse(e, rels, 0, s);
    lemma_path_concat(e, rels, s, 0, j);
}

} // verus!

verus! {

/// Every subsequence of the universe occurs among the power set's subsets.
/// Together with `lemma_pow_seqs_subseqs` and `lemma_pow_seqs_distinct`:
/// over a duplicate-free universe — and the positions of any universe are
/// such a sequence — the output is exactly the power set, each subset of the
/// positions occurring exactly once.
pub proof fn lemma_pow_seqs_complete<A>(s: Seq<A>, t: Seq<A>)
    requires
        is_subseq_of(t, s),
    ensures
        pow_seqs(s).contains(t),
    decreases s.len(),
{
    if s.len() == 0 {
        assert(t.len() == 0);
        assert(t =~= Seq::<A>::empty());
        assert(pow_seqs(s)[0] == Seq::<A>::empty());
        assert(pow_seqs(s).contains(t));
    } else {
        let p = pow_seqs(s.drop_last());
        let f = |x: Seq<A>| x.push(s.last());
        if t.len() > 0 && t.last() == s.last() && is_subseq_of(t.drop_last(), s.drop_last()) {
            lemma_pow_seqs_complete(s.drop_last(), t.drop_last());
            let i = choose|i: int| 0 <= i < p.len() && p[i] == t.drop_last();
            assert(p.map_values(f)[i] == f(p[i]));
            assert(f(p[i]) =~= t);
            assert(pow_seqs(s)[p.len() + i] == t);
            assert(pow_seqs(s).contains(t));
        } else {
            assert(is_subseq_of(t, s.drop_last()));
            lemma_pow_seqs_complete(s.drop_last(), t);
            let i = choose|i: int| 0 <= i < p.len() && p[i] == t;
            assert(pow_seqs(s)[i] == t);
            assert(pow_seqs(s).contains(t));
        }
    }
}

} // verus!

verus! {

/// Read over its sequence of positions, any universe of length `n` has an
/// exact power set: `2^n` pairwise-distinct subsets, each an order-preserving
/// subsequence of the positions, and every subsequence of the positions
/// occurring.
pub proof fn lemma_pow_seqs_exact_on_positions(n: nat)
    ensures
        ({
            let positions = Seq::new(n, |i: int| i);
            &&& pow_seqs(positions).len() == pow2(n)
            &&& pow_seqs(positions).no_duplicates()
            &&& forall|t: int|
                0 <= t < pow_seqs(positions).len() ==> is_subseq_of(
                    #[trigger] pow_seqs(positions)[t],
                    positions,
                )
            &&& forall|t: Seq<int>|
                is_subseq_of(t, positions) ==> #[trigger] pow_seqs(positions).contains(t)
        }),
{
    let positions = Seq::new(n, |i: int| i);
    assert(positions.no_duplicates());
    lemma_pow_seqs_len(positions);
    lemma_pow_seqs_distinct(positions);
    lemma_pow_seqs_subseqs(positions);
    assert forall|t: Seq<int>|
        is_subseq_of(t, positions) implies #[trigger] pow_seqs(positions).contains(t) by {
        lemma_pow_seqs_complete(positions, t);
    }
}

} // verus!
