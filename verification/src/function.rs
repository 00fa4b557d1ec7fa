//! General operators over structures: work-size estimation, value-blind
//! structural comparison, union, containment extraction, distinctness of
//! assigned values, cell neighbourhood, edge endpoint analysis, and randomized
//! sampling.

use vstd::prelude::*;
use vstd::arithmetic::power::pow;

use crate::dataclass::{seq_view, Element, Structure, StructureView};
use crate::dataclass::lemma_seq_view_index;

verus! {

broadcast use vstd::std_specs::vec::group_vec_axioms;

/// The number of assignments that enumerating a domain of size `domain_size`
/// over `set_size` positions will visit: `domain_size ^ set_size`.
pub fn progress_size(domain_size: usize, set_size: usize) -> (r: u64)
    requires
        pow(domain_size as int, set_size as nat) <= u64::MAX,
    ensures
        r == pow(domain_size as int, set_size as nat),
{
    let mut r: u64 = 1;
    let mut k: usize = 0;
    proof {
        vstd::arithmetic::power::lemma_pow0(domain_size as int);
    }
    #[verifier::loop_isolation(false)]
    while k < set_size
        invariant
            k <= set_size,
            r == pow(domain_size as int, k as nat),
        decreases set_size - k,
    {
        proof {
            vstd::arithmetic::power::lemma_pow1(domain_size as int);
            vstd::arithmetic::power::lemma_pow_adds(domain_size as int, k as nat, 1nat);
            assert(pow(domain_size as int, (k + 1) as nat) == pow(domain_size as int, k as nat)
                * domain_size as int);
            if domain_size >= 1 {
                vstd::arithmetic::power::lemma_pow_increases(
                    domain_size as nat,
                    (k + 1) as nat,
                    set_size as nat,
                );
                assert(r * domain_size as int <= u64::MAX);
            } else {
                assert(domain_size as int == 0);
                assert(r * (domain_size as int) == 0) by (nonlinear_arith)
                    requires
                        domain_size as int == 0,
                ;
            }
        }
        r = r * (domain_size as u64);
        k = k + 1;
    }
    r
}

/// Two element views stand for the same grid entity: same attribute and same
/// coordinate; values play no part.
pub open spec fn element_match(a: StructureView, b: StructureView) -> bool {
    a.is_element() && b.is_element() && a.elem().attr == b.elem().attr && a.elem().coor
        == b.elem().coor
}

/// The member `a` is an element that some member of `sb` matches.
pub open spec fn member_covered(a: StructureView, sb: Seq<StructureView>) -> bool {
    exists|j: int| 0 <= j < sb.len() && #[trigger] element_match(a, sb[j])
}

/// Every member of `sa` is an element matched by some member of `sb`.
pub open spec fn all_members_covered(sa: Seq<StructureView>, sb: Seq<StructureView>) -> bool {
    forall|i: int| 0 <= i < sa.len() ==> member_covered(#[trigger] sa[i], sb)
}

/// Value-blind structural sameness. Two elements are the same iff attribute
/// and coordinate agree; two compositions are the same iff they have the same
/// member count and each side's members are all elements matched on the other
/// side, regardless of order; a mixed pair is never the same.
pub open spec fn spec_matches(x: StructureView, y: StructureView) -> bool {
    match (x, y) {
        (
            StructureView::Composition { entity: ex, .. },
            StructureView::Composition { entity: ey, .. },
        ) => ex.len() == ey.len() && all_members_covered(ex, ey) && all_members_covered(ey, ex),
        (StructureView::Element { .. }, StructureView::Element { .. }) => element_match(x, y),
        _ => false,
    }
}

/// Whether the element view `a` is matched by some member of `sb`.
#[verifier::loop_isolation(false)]
fn find_match(a: &Element, sb: &Vec<Structure>) -> (b: bool)
    ensures
        b == member_covered(StructureView::Element { elem: *a }, seq_view(sb@)),
{
    proof {
        lemma_seq_view_index(sb@);
    }
    let ghost av = StructureView::Element { elem: *a };
    let ghost sbv = seq_view(sb@);
    let mut j: usize = 0;
    while j < sb.len()
        invariant
            j <= sb.len(),
            forall|j0: int| 0 <= j0 < j ==> !element_match(av, #[trigger] sbv[j0]),
        decreases sb.len() - j,
    {
        match &sb[j] {
            Structure::Element(e) => {
                if e.attr == a.attr && e.coor == a.coor {
                    proof {
                        assert(sbv[j as int] == sb@[j as int]@);
                        assert(element_match(av, sbv[j as int]));
                    }
                    return true;
                }
            },
            _ => {},
        }
        proof {
            assert(sbv[j as int] == sb@[j as int]@);
            assert(!element_match(av, sbv[j as int]));
        }
        j = j + 1;
    }
    false
}

/// Every member of `sa` is an element matched by some member of `sb`;
/// rejects as soon as one is not.
#[verifier::loop_isolation(false)]
fn all_covered(sa: &Vec<Structure>, sb: &Vec<Structure>) -> (b: bool)
    ensures
        b == all_members_covered(seq_view(sa@), seq_view(sb@)),
{
    proof {
        lemma_seq_view_index(sa@);
        lemma_seq_view_index(sb@);
    }
    let ghost sav = seq_view(sa@);
    let ghost sbv = seq_view(sb@);
    let mut i: usize = 0;
    while i < sa.len()
        invariant
            i <= sa.len(),
            forall|i0: int| 0 <= i0 < i ==> member_covered(#[trigger] sav[i0], sbv),
        decreases sa.len() - i,
    {
        match &sa[i] {
            Structure::Element(e) => {
                if !find_match(e, sb) {
                    proof {
                        assert(sav[i as int] == sa@[i as int]@);
                        assert(!member_covered(sav[i as int], sbv));
                    }
                    return false;
                }
                proof {
                    assert(sav[i as int] == sa@[i as int]@);
                }
            },
            _ => {
                proof {
                    assert(sav[i as int] == sa@[i as int]@);
                    assert(!sav[i as int].is_element());
                    assert forall|j0: int| 0 <= j0 < sbv.len() implies !element_match(
                        sav[i as int],
                        #[trigger] sbv[j0],
                    ) by {}
                    assert(!member_covered(sav[i as int], sbv));
                }
                return false;
            },
        }
        i = i + 1;
    }
    true
}

/// Whether two structures stand for the same grid entities, values ignored:
/// elements by attribute and coordinate, compositions by mutual containment
/// of their element members, order-blind.
pub fn compare_structures(s1: &Structure, s2: &Structure) -> (b: bool)
    ensures
        b == spec_matches(s1@, s2@),
{
    match (s1, s2) {
        (Structure::Composition(c1), Structure::Composition(c2)) => {
            proof {
                lemma_seq_view_index(c1.entity@);
                lemma_seq_view_index(c2.entity@);
            }
            if c1.entity.len() != c2.entity.len() {
                return false;
            }
            all_covered(&c1.entity, &c2.entity) && all_covered(&c2.entity, &c1.entity)
        },
        (Structure::Element(e1), Structure::Element(e2)) => e1.attr == e2.attr && e1.coor
            == e2.coor,
        _ => false,
    }
}

} // verus!

verus! {

/// The union of two compositions: the members of the first followed by the
/// members of the second, duplicates kept, under a fresh unset value.
pub fn add_up_structures(structure_1: &Structure, structure_2: &Structure) -> (r: Structure)
    requires
        structure_1@.is_composition(),
        structure_2@.is_composition(),
    ensures
        r@.is_composition(),
        r@.val() == None::<i32>,
        r@.entity() == structure_1@.entity() + structure_2@.entity(),
{
    match (structure_1, structure_2) {
        (Structure::Composition(s1), Structure::Composition(s2)) => {
            let mut add_up_entity = crate::dataclass::clone_structures(&s1.entity);
            let ghost e1v = add_up_entity@;
            let mut tail = crate::dataclass::clone_structures(&s2.entity);
            let ghost e2v = tail@;
            add_up_entity.append(&mut tail);
            proof {
                lemma_seq_view_index(add_up_entity@);
                lemma_seq_view_index(e1v);
                lemma_seq_view_index(e2v);
                lemma_seq_view_index(s1.entity@);
                lemma_seq_view_index(s2.entity@);
                assert(add_up_entity@ == e1v + e2v);
                assert(seq_view(add_up_entity@) =~= seq_view(s1.entity@) + seq_view(s2.entity@));
            }
            let r = Structure::Composition(crate::dataclass::Composition::new(add_up_entity));
            r
        },
        _ => {
            proof {
                assert(false);
            }
            Structure::Element(
                Element::new(
                    crate::dataclass::Attribute::P,
                    crate::dataclass::Coordinate(0, 0),
                ),
            )
        },
    }
}

/// Some member of `acc` already stands for the same entity as `c`.
pub open spec fn has_match(acc: Seq<StructureView>, c: StructureView) -> bool {
    exists|k: int| 0 <= k < acc.len() && spec_matches(#[trigger] acc[k], c)
}

/// One scan of the comparison list for a fixed child: each comparison that
/// stands for the same entity as the child and is not yet represented in the
/// accumulator is appended.
pub open spec fn ecs_inner(
    acc: Seq<StructureView>,
    child: StructureView,
    compares: Seq<StructureView>,
) -> Seq<StructureView>
    decreases compares.len(),
{
    if compares.len() == 0 {
        acc
    } else {
        let c = compares.first();
        let acc2 = if spec_matches(child, c) && !has_match(acc, c) {
            acc.push(c)
        } else {
            acc
        };
        ecs_inner(acc2, child, compares.drop_first())
    }
}

/// The scan of the comparison list for every child in turn.
pub open spec fn ecs_outer(
    acc: Seq<StructureView>,
    children: Seq<StructureView>,
    compares: Seq<StructureView>,
) -> Seq<StructureView>
    decreases children.len(),
{
    if children.len() == 0 {
        acc
    } else {
        ecs_outer(ecs_inner(acc, children.first(), compares), children.drop_first(), compares)
    }
}

/// The comparisons that stand for some member of the parent, first occurrence
/// kept, later duplicates dropped. An atomic parent contains nothing.
pub open spec fn spec_extract_contains(
    compares: Seq<StructureView>,
    parent: StructureView,
) -> Seq<StructureView> {
    if parent.is_composition() {
        ecs_outer(Seq::empty(), parent.entity(), compares)
    } else {
        Seq::empty()
    }
}

/// Whether some member of `contains` stands for the same entity as `compare`.
#[verifier::loop_isolation(false)]
fn contains_match(contains: &Vec<Structure>, compare: &Structure) -> (b: bool)
    ensures
        b == has_match(seq_view(contains@), compare@),
{
    proof {
        lemma_seq_view_index(contains@);
    }
    let ghost cv = seq_view(contains@);
    let mut k: usize = 0;
    while k < contains.len()
        invariant
            k <= contains.len(),
            forall|k0: int| 0 <= k0 < k ==> !spec_matches(#[trigger] cv[k0], compare@),
        decreases contains.len() - k,
    {
        if compare_structures(&contains[k], compare) {
            proof {
                assert(cv[k as int] == contains@[k as int]@);
                assert(spec_matches(cv[k as int], compare@));
            }
            return true;
        }
        proof {
            assert(cv[k as int] == contains@[k as int]@);
        }
        k = k + 1;
    }
    false
}

/// Collects, from the comparison list, the entries that stand for a member of
/// the parent, without letting two collected entries stand for the same
/// entity. This bridges a bare structure and a live element list: values live
/// in the list and are found by identity, not stored in the structure.
#[verifier::loop_isolation(false)]
pub fn extract_contains_structures(compares: &Vec<Structure>, parent: &Structure) -> (r: Vec<
    Structure,
>)
    ensures
        seq_view(r@) == spec_extract_contains(seq_view(compares@), parent@),
{
    let mut contains: Vec<Structure> = Vec::new();
    match parent {
        Structure::Composition(parent_content) => {
            proof {
                lemma_seq_view_index(parent_content.entity@);
                lemma_seq_view_index(compares@);
            }
            let ghost children = seq_view(parent_content.entity@);
            let ghost comparesv = seq_view(compares@);
            proof {
                assert(children.skip(0) =~= children);
                assert(seq_view(contains@) =~= Seq::<StructureView>::empty());
            }
            let mut i: usize = 0;
            while i < parent_content.entity.len()
                invariant
                    i <= parent_content.entity.len(),
                    ecs_outer(seq_view(contains@), children.skip(i as int), comparesv) == ecs_outer(
                        Seq::empty(),
                        children,
                        comparesv,
                    ),
                decreases parent_content.entity.len() - i,
            {
                let child = &parent_content.entity[i];
                let ghost pre_inner = seq_view(contains@);
                proof {
                    assert(comparesv.skip(0) =~= comparesv);
                }
                let mut j: usize = 0;
                while j < compares.len()
                    invariant
                        i < parent_content.entity.len(),
                        j <= compares.len(),
                        child == &parent_content.entity[i as int],
                        ecs_inner(seq_view(contains@), child@, comparesv.skip(j as int))
                            == ecs_inner(pre_inner, child@, comparesv),
                    decreases compares.len() - j,
                {
                    let compare = &compares[j];
                    let ghost cur = seq_view(contains@);
                    let ghost rest = comparesv.skip(j as int);
                    proof {
                        assert(rest.len() > 0);
                        assert(rest.first() == comparesv[j as int]);
                        assert(comparesv[j as int] == compares@[j as int]@);
                        assert(rest.drop_first() =~= comparesv.skip(j as int + 1));
                    }
                    let matched = compare_structures(child, compare);
                    let already = contains_match(&contains, compare);
                    if matched && !already {
                        let ghost oldc = contains@;
                        let cloned = compare.clone();
                        contains.push(cloned);
                        proof {
                            assert(contains@.drop_last() =~= oldc);
                            assert(seq_view(contains@) == seq_view(contains@.drop_last()).push(
                                contains@.last()@,
                            ));
                            assert(contains@.last()@ == compare@);
                            assert(seq_view(contains@) == cur.push(compare@));
                        }
                    }
                    proof {
                        let acc2 = if spec_matches(child@, rest.first()) && !has_match(
                            cur,
                            rest.first(),
                        ) {
                            cur.push(rest.first())
                        } else {
                            cur
                        };
                        assert(seq_view(contains@) == acc2);
                        assert(ecs_inner(cur, child@, rest) == ecs_inner(
                            acc2,
                            child@,
                            rest.drop_first(),
                        ));
                        assert(ecs_inner(seq_view(contains@), child@, comparesv.skip(j as int + 1))
                            == ecs_inner(pre_inner, child@, comparesv));
                    }
                    j = j + 1;
                }
                proof {
                    assert(comparesv.skip(compares@.len() as int) =~= Seq::<
                        StructureView,
                    >::empty());
                    assert(ecs_inner(seq_view(contains@), child@, Seq::empty()) == seq_view(
                        contains@,
                    ));
                    assert(seq_view(contains@) == ecs_inner(pre_inner, child@, comparesv));
                    let rest_children = children.skip(i as int);
                    assert(rest_children.len() > 0);
                    assert(rest_children.first() == children[i as int]);
                    assert(children[i as int] == parent_content.entity@[i as int]@);
                    assert(rest_children.drop_first() =~= children.skip(i as int + 1));
                    assert(ecs_outer(pre_inner, rest_children, comparesv) == ecs_outer(
                        ecs_inner(pre_inner, rest_children.first(), comparesv),
                        rest_children.drop_first(),
                        comparesv,
                    ));
                }
                i = i + 1;
            }
            proof {
                assert(children.skip(parent_content.entity@.len() as int) =~= Seq::<
                    StructureView,
                >::empty());
                assert(ecs_outer(seq_view(contains@), Seq::empty(), comparesv) == seq_view(
                    contains@,
                ));
                assert(parent@ == StructureView::Composition {
                    val: parent_content.val,
                    entity: children,
                });
            }
        },
        _ => {},
    }
    contains
}

/// Whether, among the comparisons that stand for members of the parent, no
/// two distinct element entries carry the same value.
pub open spec fn spec_all_different(contains: Seq<StructureView>) -> bool {
    forall|i: int, j: int|
        0 <= i < contains.len() && 0 <= j < contains.len() && contains[i] != contains[j]
            && (#[trigger] contains[i]).is_element() && (#[trigger] contains[j]).is_element()
            ==> contains[i].elem().val != contains[j].elem().val
}

/// Extracts the comparisons contained in the parent and checks that no two
/// distinct element entries carry the same value.
#[verifier::loop_isolation(false)]
pub fn all_different(compares: &Vec<Structure>, parent: &Structure) -> (b: bool)
    ensures
        b == spec_all_different(spec_extract_contains(seq_view(compares@), parent@)),
{
    let contains = extract_contains_structures(compares, parent);
    proof {
        lemma_seq_view_index(contains@);
    }
    let ghost cv = seq_view(contains@);
    let mut i: usize = 0;
    while i < contains.len()
        invariant
            i <= contains.len(),
            forall|i0: int, j0: int|
                0 <= i0 < i && 0 <= j0 < contains@.len() && cv[i0] != cv[j0]
                    && (#[trigger] cv[i0]).is_element() && (#[trigger] cv[j0]).is_element()
                    ==> cv[i0].elem().val != cv[j0].elem().val,
        decreases contains.len() - i,
    {
        let mut j: usize = 0;
        while j < contains.len()
            invariant
                i < contains.len(),
                j <= contains.len(),
                forall|j0: int|
                    0 <= j0 < j && cv[i as int] != cv[j0] && cv[i as int].is_element() && (
                    #[trigger] cv[j0]).is_element() ==> cv[i as int].elem().val
                        != cv[j0].elem().val,
            decreases contains.len() - j,
        {
            if !crate::board_validation::structures_equal(&contains[i], &contains[j]) {
                match (&contains[i], &contains[j]) {
                    (Structure::Element(x_content), Structure::Element(y_content)) => {
                        let vals_equal = match (x_content.val, y_content.val) {
                            (Option::None, Option::None) => true,
                            (Option::Some(a), Option::Some(b)) => a == b,
                            _ => false,
                        };
                        if vals_equal {
                            proof {
                                assert(cv[i as int] == contains@[i as int]@);
                                assert(cv[j as int] == contains@[j as int]@);
                                assert(!spec_all_different(cv));
                            }
                            return false;
                        }
                    },
                    _ => {},
                }
            }
            proof {
                assert(cv[i as int] == contains@[i as int]@);
                assert(cv[j as int] == contains@[j as int]@);
            }
            j = j + 1;
        }
        i = i + 1;
    }
    true
}

} // verus!

verus! {

/// The value carried by an element view, or zero for a non-element or an
/// unset value.
pub open spec fn edge_contribution(v: StructureView) -> int {
    if v.is_element() && v.elem().val matches Some(k) {
        v.elem().val->0 as int
    } else {
        0
    }
}

/// The positions, in the point-edge list laid out row by row (all horizontal
/// edges first, then all vertical edges), of the four edges around the cell
/// at row `y`, column `x` of an `n` by `m` board: top, bottom, left, right.
pub open spec fn cycle_indices(y: int, x: int, n: int, m: int) -> (int, int, int, int) {
    (
        (y - 1) * m + x - 1,
        y * m + x - 1,
        m * (n + 1) + (y - 1) * (m + 1) + x - 1,
        m * (n + 1) + (y - 1) * (m + 1) + x,
    )
}

/// The four edge positions around an in-board cell lie within the point-edge
/// list.
pub proof fn lemma_cycle_indices_in_range(y: int, x: int, n: int, m: int)
    requires
        1 <= x <= m,
        1 <= y <= n,
    ensures
        ({
            let (a, b, c, d) = cycle_indices(y, x, n, m);
            0 <= a && a < b && b < c && c < d && d < m * (n + 1) + n * (m + 1)
        }),
{
    assert(({
        let (a, b, c, d) = cycle_indices(y, x, n, m);
        0 <= a && a < b && b < c && c < d && d < m * (n + 1) + n * (m + 1)
    })) by (nonlinear_arith)
        requires
            1 <= x <= m,
            1 <= y <= n,
    ;
}

/// The value of an element edge; zero for a non-element entry.
fn edge_value(s: &Structure) -> (r: i64)
    requires
        s@.is_element() ==> s@.elem().val.is_some(),
    ensures
        r == edge_contribution(s@),
        i32::MIN <= r <= i32::MAX,
{
    match s {
        Structure::Element(e) => {
            proof {
                assert(s@ == (StructureView::Element { elem: *e }));
            }
            e.val.unwrap() as i64
        },
        Structure::Composition(c) => {
            proof {
                assert(s@.is_composition());
            }
            0
        },
    }
}

/// Sums the values of the four point-edges around a cell: the edge above,
/// below, left of, and right of the cell, located by position in the
/// point-edge list.
#[allow(non_snake_case)]
pub fn cycle(cell: &Structure, Ep: &Vec<Structure>, board_size: &crate::dataclass::BoardSize) -> (r:
    i32)
    requires
        cell@.is_element(),
        cell@.elem().attr == crate::dataclass::Attribute::C,
        1 <= cell@.elem().coor.1 <= board_size.1,
        1 <= cell@.elem().coor.0 <= board_size.0,
        Ep@.len() == board_size.1 * (board_size.0 + 1) + board_size.0 * (board_size.1 + 1),
        ({
            let (a, b, c, d) = cycle_indices(
                cell@.elem().coor.0 as int,
                cell@.elem().coor.1 as int,
                board_size.0 as int,
                board_size.1 as int,
            );
            let epv = seq_view(Ep@);
            &&& (epv[a].is_element() ==> epv[a].elem().val.is_some())
            &&& (epv[b].is_element() ==> epv[b].elem().val.is_some())
            &&& (epv[c].is_element() ==> epv[c].elem().val.is_some())
            &&& (epv[d].is_element() ==> epv[d].elem().val.is_some())
            &&& i32::MIN <= edge_contribution(epv[a]) + edge_contribution(epv[b])
                + edge_contribution(epv[c]) + edge_contribution(epv[d]) <= i32::MAX
        }),
    ensures
        ({
            let (a, b, c, d) = cycle_indices(
                cell@.elem().coor.0 as int,
                cell@.elem().coor.1 as int,
                board_size.0 as int,
                board_size.1 as int,
            );
            let epv = seq_view(Ep@);
            r == edge_contribution(epv[a]) + edge_contribution(epv[b]) + edge_contribution(epv[c])
                + edge_contribution(epv[d])
        }),
{
    proof {
        lemma_seq_view_index(Ep@);
    }
    match cell {
        Structure::Element(cell_content) => {
            let x: i128 = cell_content.coor.1 as i128;
            let y: i128 = cell_content.coor.0 as i128;
            let n: i128 = board_size.0 as i128;
            let m: i128 = board_size.1 as i128;

            proof {
                assert(cell@ == (StructureView::Element { elem: *cell_content }));
                lemma_cycle_indices_in_range(y as int, x as int, n as int, m as int);
                assert({
                    &&& 0 <= (y - 1) * m <= 0x4000_0000_0000_0000
                    &&& 0 <= y * m <= 0x4000_0000_0000_0000
                    &&& 0 <= m * (n + 1) <= 0x4000_0000_0000_0000
                    &&& 0 <= (y - 1) * (m + 1) <= 0x4000_0000_0000_0000
                }) by (nonlinear_arith)
                    requires
                        1 <= x <= m,
                        1 <= y <= n,
                        m <= 0x7fff_ffff,
                        n <= 0x7fff_ffff,
                ;
            }
            let h_top: i128 = (y - 1) * m + x - 1;
            let h_bottom: i128 = y * m + x - 1;
            let v_top: i128 = m * (n + 1) + (y - 1) * (m + 1) + x - 1;
            let v_bottom: i128 = m * (n + 1) + (y - 1) * (m + 1) + x;

            proof {
                let (a, b, c, d) = cycle_indices(y as int, x as int, n as int, m as int);
                assert(h_top as int == a);
                assert(h_bottom as int == b);
                assert(v_top as int == c);
                assert(v_bottom as int == d);
                assert(d < Ep@.len());
            }
            let total_len: usize = Ep.len();
            proof {
                assert(Ep@.len() == total_len as int);
                assert(Ep@.len() <= usize::MAX);
            }
            let h_top: usize = h_top as usize;
            let h_bottom: usize = h_bottom as usize;
            let v_top: usize = v_top as usize;
            let v_bottom: usize = v_bottom as usize;

            let ghost epv = seq_view(Ep@);
            proof {
                let (a, b, c, d) = cycle_indices(y as int, x as int, n as int, m as int);
                assert(h_top as int == a);
                assert(h_bottom as int == b);
                assert(v_top as int == c);
                assert(v_bottom as int == d);
                assert(epv[h_top as int] == Ep@[h_top as int]@);
                assert(epv[h_bottom as int] == Ep@[h_bottom as int]@);
                assert(epv[v_top as int] == Ep@[v_top as int]@);
                assert(epv[v_bottom as int] == Ep@[v_bottom as int]@);
            }
            let mut result: i64 = 0;
            result = result + edge_value(&Ep[h_top]);
            result = result + edge_value(&Ep[h_bottom]);
            result = result + edge_value(&Ep[v_top]);
            result = result + edge_value(&Ep[v_bottom]);
            result as i32
        },
        _ => {
            proof {
                assert(false);
            }
            0
        },
    }
}

/// Whether a cell lies on the right or bottom edge of the board.
pub fn is_side(cell: &Structure, board_size: &crate::dataclass::BoardSize) -> (b: bool)
    requires
        cell@.is_element(),
        cell@.elem().attr == crate::dataclass::Attribute::C,
    ensures
        b == (cell@.elem().coor.1 == board_size.1 || cell@.elem().coor.0 == board_size.0),
{
    match cell {
        Structure::Element(cell_content) => {
            let x = cell_content.coor.1;
            let y = cell_content.coor.0;
            x == board_size.1 || y == board_size.0
        },
        _ => {
            proof {
                assert(false);
            }
            false
        },
    }
}

/// The view is an element whose coordinate touches row `y`, column `x` by one
/// step up, down, left, or right.
pub open spec fn is_rook_adjacent(v: StructureView, y: int, x: int) -> bool {
    v.is_element() && ((v.elem().coor.0 == y - 1 && v.elem().coor.1 == x) || (v.elem().coor.0 == y
        + 1 && v.elem().coor.1 == x) || (v.elem().coor.0 == y && v.elem().coor.1 == x - 1) || (
    v.elem().coor.0 == y && v.elem().coor.1 == x + 1))
}

/// The elements of `parent` one step up, down, left, or right of the given
/// cell, in their order in `parent`.
#[verifier::loop_isolation(false)]
pub fn adjacent(element: &Structure, parent: &Vec<Structure>) -> (r: Vec<Structure>)
    requires
        element@.is_element(),
        element@.elem().attr == crate::dataclass::Attribute::C,
    ensures
        seq_view(r@) == seq_view(parent@).filter(
            |v: StructureView|
                is_rook_adjacent(v, element@.elem().coor.0 as int, element@.elem().coor.1 as int),
        ),
{
    broadcast use vstd::seq_lib::group_seq_properties;
    broadcast use Seq::<_>::lemma_filter_push;

    proof {
        lemma_seq_view_index(parent@);
    }
    match element {
        Structure::Element(element_content) => {
            let x: i64 = element_content.coor.1 as i64;
            let y: i64 = element_content.coor.0 as i64;
            let ghost pred = |v: StructureView| is_rook_adjacent(v, y as int, x as int);
            let ghost pv = seq_view(parent@);
            let mut result: Vec<Structure> = Vec::new();
            proof {
                assert(pv.take(0) =~= Seq::<StructureView>::empty());
                assert(seq_view(result@) =~= Seq::<StructureView>::empty());
                assert(Seq::<StructureView>::empty().filter(pred) =~= Seq::<
                    StructureView,
                >::empty());
            }
            let mut i: usize = 0;
            while i < parent.len()
                invariant
                    i <= parent.len(),
                    seq_view(result@) == pv.take(i as int).filter(pred),
                decreases parent.len() - i,
            {
                let ghost oldr = result@;
                let mut take_child = false;
                match &parent[i] {
                    Structure::Element(child_content) => {
                        let cy: i64 = child_content.coor.0 as i64;
                        let cx: i64 = child_content.coor.1 as i64;
                        if (cy == y - 1 && cx == x) || (cy == y + 1 && cx == x) || (cy == y && cx
                            == x - 1) || (cy == y && cx == x + 1) {
                            take_child = true;
                        }
                    },
                    _ => {},
                }
                proof {
                    assert(pv[i as int] == parent@[i as int]@);
                    assert(take_child == pred(pv[i as int]));
                    assert(pv.take(i as int + 1) =~= pv.take(i as int).push(pv[i as int]));
                    assert(pv.take(i as int).push(pv[i as int]).filter(pred) == if pred(
                        pv[i as int],
                    ) {
                        pv.take(i as int).filter(pred).push(pv[i as int])
                    } else {
                        pv.take(i as int).filter(pred)
                    });
                }
                if take_child {
                    let cloned = parent[i].clone();
                    result.push(cloned);
                    proof {
                        assert(result@.drop_last() =~= oldr);
                        assert(seq_view(result@) == seq_view(result@.drop_last()).push(
                            result@.last()@,
                        ));
                        assert(result@.last()@ == pv[i as int]);
                        assert(seq_view(result@) == seq_view(oldr).push(pv[i as int]));
                    }
                }
                i = i + 1;
            }
            proof {
                assert(pv.take(parent@.len() as int) =~= pv);
            }
            result
        },
        _ => {
            proof {
                assert(false);
            }
            Vec::new()
        },
    }
}

} // verus!

verus! {

/// Whether the last element member of the list is a point-edge; true when no
/// element member occurs.
#[verifier::loop_isolation(false)]
fn family_is_point(entity: &Vec<Structure>) -> (b: bool)
    ensures
        b == crate::graph::points_family(seq_view(entity@)),
{
    proof {
        lemma_seq_view_index(entity@);
    }
    let ghost ev = seq_view(entity@);
    let mut k: usize = entity.len();
    proof {
        assert(ev.take(entity@.len() as int) =~= ev);
    }
    while k > 0
        invariant
            k <= entity@.len(),
            crate::graph::points_family(ev) == crate::graph::points_family(ev.take(k as int)),
        decreases k,
    {
        let idx = k - 1;
        proof {
            assert(ev.take(k as int).drop_last() =~= ev.take(idx as int));
            assert(ev.take(k as int).last() == ev[idx as int]);
            assert(ev[idx as int] == entity@[idx as int]@);
        }
        match &entity[idx] {
            Structure::Element(e) => {
                return e.attr == crate::dataclass::Attribute::Hp || e.attr
                    == crate::dataclass::Attribute::Vp;
            },
            _ => {},
        }
        k = idx;
    }
    proof {
        assert(ev.take(0) =~= Seq::<StructureView>::empty());
    }
    true
}

/// The loose ends of a set of edges: one fresh element for every grid point
/// that exactly one edge of the composition ends on — points (`P`) when the
/// last edge belongs to the point family, cells (`C`) when to the cell
/// family. The returned elements carry no values and no two share a
/// coordinate. An atomic input yields nothing.
#[verifier::loop_isolation(false)]
#[verifier::rlimit(50)]
pub fn line_edgepoints(line: &Structure) -> (r: Vec<Structure>)
    requires
        line@.is_composition() ==> crate::graph::edge_members_ok(line@.entity())
            && line@.entity().len() < 0x7fff_ffff,
    ensures
        line@.is_composition() ==> {
            let ev = line@.entity();
            let rv = seq_view(r@);
            let attr = if crate::graph::points_family(ev) {
                crate::dataclass::Attribute::P
            } else {
                crate::dataclass::Attribute::C
            };
            &&& forall|t: int|
                0 <= t < rv.len() ==> (#[trigger] rv[t]).is_element() && rv[t].elem().val
                    == None::<i32> && rv[t].elem().attr == attr && crate::graph::endpoint_count(
                    ev,
                    crate::graph::key_pair(rv[t].elem().coor),
                ) == 1
            &&& forall|p: (int, int)|
                #[trigger] crate::graph::endpoint_count(ev, p) == 1 ==> exists|t: int|
                    0 <= t < rv.len() && crate::graph::key_pair(#[trigger] rv[t].elem().coor) == p
            &&& forall|t1: int, t2: int|
                0 <= t1 < t2 < rv.len() ==> crate::graph::key_pair(
                    (#[trigger] rv[t1]).elem().coor,
                ) != crate::graph::key_pair((#[trigger] rv[t2]).elem().coor)
        },
        !line@.is_composition() ==> r@.len() == 0,
{
    let mut result: Vec<Structure> = Vec::new();
    match line {
        Structure::Composition(l) => {
            proof {
                lemma_seq_view_index(l.entity@);
                assert(line@ == (StructureView::Composition {
                    val: l.val,
                    entity: seq_view(l.entity@),
                }));
            }
            let ghost ev = seq_view(l.entity@);
            let is_point = family_is_point(&l.entity);
            let attr = if is_point {
                crate::dataclass::Attribute::P
            } else {
                crate::dataclass::Attribute::C
            };
            let counts = crate::graph::count_endpoints(&l.entity);
            let n = counts.entries.len();
            let mut idx: usize = 0;
            while idx < n
                invariant
                    idx <= n,
                    n == counts.entries@.len(),
                    counts.wf(),
                    forall|p: (int, int)|
                        counts.count(p) == crate::graph::endpoint_count(ev, p),
                    attr == if crate::graph::points_family(ev) {
                        crate::dataclass::Attribute::P
                    } else {
                        crate::dataclass::Attribute::C
                    },
                    forall|t: int|
                        0 <= t < seq_view(result@).len() ==> (#[trigger] seq_view(result@)[t]).is_element()
                            && seq_view(result@)[t].elem().val == None::<i32> && seq_view(
                            result@,
                        )[t].elem().attr == attr,
                    forall|t: int|
                        0 <= t < seq_view(result@).len() ==> exists|k: int|
                            0 <= k < idx && counts.entries@[k].0 == (#[trigger] seq_view(
                                result@,
                            )[t]).elem().coor && counts.entries@[k].1 == 1,
                    forall|k: int|
                        0 <= k < idx && (#[trigger] counts.entries@[k]).1 == 1 ==> exists|t: int|
                            0 <= t < seq_view(result@).len() && (#[trigger] seq_view(
                                result@,
                            )[t]).elem().coor == counts.entries@[k].0,
                    forall|t1: int, t2: int|
                        0 <= t1 < t2 < seq_view(result@).len() ==> crate::graph::key_pair(
                            (#[trigger] seq_view(result@)[t1]).elem().coor,
                        ) != crate::graph::key_pair((#[trigger] seq_view(result@)[t2]).elem().coor),
                decreases n - idx,
            {
                let entry = counts.entries[idx];
                let ghost oldrv = seq_view(result@);
                if entry.1 == 1 {
                    let ghost oldr = result@;
                    let edgepoint = Structure::Element(crate::dataclass::Element::new(
                        attr,
                        entry.0,
                    ));
                    result.push(edgepoint);
                    proof {
                        assert(result@.drop_last() =~= oldr);
                        assert(seq_view(result@) == seq_view(oldr).push(result@.last()@));
                        assert(result@.last()@ == (StructureView::Element {
                            elem: crate::dataclass::Element { val: None, attr, coor: entry.0 },
                        }));
                        assert forall|t1: int, t2: int|
                            0 <= t1 < t2 < seq_view(result@).len() implies crate::graph::key_pair(
                            (#[trigger] seq_view(result@)[t1]).elem().coor,
                        ) != crate::graph::key_pair(
                            (#[trigger] seq_view(result@)[t2]).elem().coor,
                        ) by {
                            if t2 == seq_view(result@).len() - 1 {
                                let k1 = choose|k: int|
                                    0 <= k < idx && counts.entries@[k].0 == (#[trigger] seq_view(
                                        oldr,
                                    )[t1]).elem().coor && counts.entries@[k].1 == 1;
                                assert(counts.entries@[k1].0 == seq_view(result@)[t1].elem().coor);
                                assert(crate::graph::key_pair(counts.entries@[k1].0)
                                    != crate::graph::key_pair(counts.entries@[idx as int].0));
                            } else {
                                assert(seq_view(result@)[t1] == seq_view(oldr)[t1]);
                                assert(seq_view(result@)[t2] == seq_view(oldr)[t2]);
                            }
                        }
                        assert forall|k: int|
                            0 <= k < idx + 1 && (#[trigger] counts.entries@[k]).1 == 1
                                implies exists|t: int|
                            0 <= t < seq_view(result@).len() && (#[trigger] seq_view(
                                result@,
                            )[t]).elem().coor == counts.entries@[k].0 by {
                            let rv2 = seq_view(result@);
                            if k == idx {
                                assert(rv2[rv2.len() - 1].elem().coor == entry.0);
                            } else {
                                let t = choose|t: int|
                                    0 <= t < oldrv.len() && (#[trigger] oldrv[t]).elem().coor
                                        == counts.entries@[k].0;
                                assert(rv2[t] == oldrv[t]);
                            }
                        }
                    }
                } else {
                    proof {
                        assert forall|k: int|
                            0 <= k < idx + 1 && (#[trigger] counts.entries@[k]).1 == 1
                                implies exists|t: int|
                            0 <= t < seq_view(result@).len() && (#[trigger] seq_view(
                                result@,
                            )[t]).elem().coor == counts.entries@[k].0 by {
                            assert(k < idx);
                            let t = choose|t: int|
                                0 <= t < oldrv.len() && (#[trigger] oldrv[t]).elem().coor
                                    == counts.entries@[k].0;
                        }
                    }
                }
                idx = idx + 1;
            }
            proof {
                let rv = seq_view(result@);
                assert forall|t: int|
                    0 <= t < rv.len() implies crate::graph::endpoint_count(
                    ev,
                    crate::graph::key_pair((#[trigger] rv[t]).elem().coor),
                ) == 1 by {
                    let k = choose|k: int|
                        0 <= k < counts.entries@.len() && counts.entries@[k].0 == (
                        #[trigger] rv[t]).elem().coor && counts.entries@[k].1 == 1;
                    assert(counts.count(crate::graph::key_pair(counts.entries@[k].0)) == 1);
                }
                assert forall|p: (int, int)|
                    #[trigger] crate::graph::endpoint_count(ev, p) == 1 implies exists|t: int|
                    0 <= t < rv.len() && crate::graph::key_pair(#[trigger] rv[t].elem().coor)
                        == p by {
                    assert(counts.count(p) == 1);
                    if forall|k: int|
                        0 <= k < counts.entries@.len() ==> crate::graph::key_pair(
                            (#[trigger] counts.entries@[k]).0,
                        ) != p {
                        crate::graph::lemma_assoc_find_absent(counts.entries@, p);
                        assert(counts.count(p) == 0);
                        assert(false);
                    }
                    let k = choose|k: int|
                        0 <= k < counts.entries@.len() && crate::graph::key_pair(
                            (#[trigger] counts.entries@[k]).0,
                        ) == p;
                    assert(counts.count(p) == counts.entries@[k].1 as nat);
                    assert(counts.entries@[k].1 == 1);
                    let t = choose|t: int|
                        0 <= t < rv.len() && (#[trigger] rv[t]).elem().coor
                            == counts.entries@[k].0;
                    assert(crate::graph::key_pair(rv[t].elem().coor) == p);
                }
            }
            result
        },
        _ => {
            result
        },
    }
}

} // verus!

verus! {

/// Relies on `rand::random::<bool>`: an independent fair coin flip. Nothing
/// can be promised of the outcome.
#[verifier::external_body]
fn coin_flip() -> bool {
    rand::random::<bool>()
}

/// Relies on `rand::Rng::gen_range` over `0..n`: a uniformly random index
/// below `n`. The range is non-empty, so the call cannot panic; nothing more
/// is promised of the outcome.
#[verifier::external_body]
fn random_index(n: usize) -> (i: usize)
    requires
        n > 0,
    ensures
        i < n,
{
    rand::Rng::gen_range(&mut rand::thread_rng(), 0..n)
}

/// Picks one structure of a non-empty list at random; the result is a copy of
/// some member.
pub fn extract_random_structure(structures: &Vec<Structure>) -> (r: Structure)
    requires
        structures@.len() > 0,
    ensures
        exists|i: int| 0 <= i < structures@.len() && r@ == (#[trigger] structures@[i])@,
{
    let index = random_index(structures.len());
    let r = structures[index].clone();
    proof {
        assert(r@ == structures@[index as int]@);
    }
    r
}

/// Draws one random subset: each member of `set` goes in with one fair coin
/// flip, order kept.
#[verifier::loop_isolation(false)]
fn sample_subset(set: &Vec<Structure>) -> (sub: Vec<Structure>)
    ensures
        crate::combine::is_subseq_of(sub.deep_view(), set.deep_view()),
        sub@.len() <= set@.len(),
{
    proof {
        lemma_seq_view_index(set@);
        crate::dataclass::lemma_vec_deep_view(*set);
    }
    let ghost sv = set.deep_view();
    let mut subset: Vec<Structure> = Vec::new();
    proof {
        assert(sv.take(0) =~= Seq::<StructureView>::empty());
        assert(subset.deep_view() =~= Seq::<StructureView>::empty());
    }
    let mut i: usize = 0;
    while i < set.len()
        invariant
            i <= set.len(),
            subset@.len() <= i,
            crate::combine::is_subseq_of(subset.deep_view(), sv.take(i as int)),
        decreases set.len() - i,
    {
        let ghost pre = subset.deep_view();
        proof {
            assert(sv.take(i as int + 1).drop_last() =~= sv.take(i as int));
            assert(sv.take(i as int + 1).last() == sv[i as int]);
        }
        if coin_flip() {
            let item = set[i].clone();
            subset.push(item);
            proof {
                assert(subset.deep_view() =~= pre.push(sv[i as int]));
                assert(subset.deep_view().drop_last() =~= pre);
                assert(crate::combine::is_subseq_of(subset.deep_view(), sv.take(i as int + 1)));
            }
        } else {
            proof {
                assert(crate::combine::is_subseq_of(subset.deep_view(), sv.take(i as int + 1)));
            }
        }
        i = i + 1;
    }
    proof {
        assert(sv.take(set@.len() as int) =~= sv);
    }
    subset
}

/// Repeatedly draws a random subset of `set`, re-drawing whenever the
/// candidate is empty or fails a validation, and giving up after the stated
/// number of attempts. Every returned subset is non-empty, keeps the order of
/// `set`, and passes every validation; an empty source set can never yield
/// one. When the validations are unlikely to be satisfiable under fair
/// sampling, the caller must expect `None` and shape the input instead.
pub fn random_subset_with_validation(
    set: &Vec<Structure>,
    board_validation_fn: &Vec<crate::board_validation::BoardValidation>,
    attempts: u64,
) -> (r: Option<Vec<Structure>>)
    ensures
        r matches Some(sub) ==> crate::combine::is_subseq_of(sub.deep_view(), set.deep_view())
            && sub.deep_view().len() > 0 && crate::board_validation::spec_board_validations(
            board_validation_fn@,
            sub.deep_view(),
        ),
        set@.len() == 0 ==> r.is_none(),
{
    let mut tries: u64 = 0;
    #[verifier::loop_isolation(false)]
    while tries < attempts
        invariant
            true,
        decreases attempts - tries,
    {
        let subset = sample_subset(set);
        if subset.len() > 0 {
            if crate::board_validation::eval_board_validations(board_validation_fn, &subset) {
                proof {
                    crate::dataclass::lemma_vec_deep_view(subset);
                    lemma_seq_view_index(subset@);
                }
                return Some(subset);
            }
        }
        tries = tries + 1;
    }
    None
}

} // verus!

verus! {

/// A structure with no nesting: a single element, or a composition whose
/// members are all elements.
pub open spec fn is_flat(x: StructureView) -> bool {
    x.is_element() || (x.is_composition() && forall|i: int|
        0 <= i < x.entity().len() ==> (#[trigger] x.entity()[i]).is_element())
}

/// Value-blind comparison is reflexive on flat structures. A composition
/// holding a nested composition does not stand for itself: comparison only
/// ever matches element members.
pub proof fn lemma_matches_reflexive(x: StructureView)
    requires
        is_flat(x),
    ensures
        spec_matches(x, x),
{
    if x.is_composition() {
        assert(x == (StructureView::Composition {
            val: x->Composition_val,
            entity: x->Composition_entity,
        }));
        let e = x.entity();
        assert forall|i: int| 0 <= i < e.len() implies member_covered(#[trigger] e[i], e) by {
            assert(element_match(e[i], e[i]));
        }
    }
}

/// Value-blind comparison is symmetric.
pub proof fn lemma_matches_symmetric(x: StructureView, y: StructureView)
    ensures
        spec_matches(x, y) == spec_matches(y, x),
{
}

/// Value-blind comparison is transitive.
pub proof fn lemma_matches_transitive(x: StructureView, y: StructureView, z: StructureView)
    requires
        spec_matches(x, y),
        spec_matches(y, z),
    ensures
        spec_matches(x, z),
{
    if x.is_composition() {
        assert(x == (StructureView::Composition {
            val: x->Composition_val,
            entity: x->Composition_entity,
        }));
        assert(y == (StructureView::Composition {
            val: y->Composition_val,
            entity: y->Composition_entity,
        }));
        assert(z == (StructureView::Composition {
            val: z->Composition_val,
            entity: z->Composition_entity,
        }));
        let ex = x.entity();
        let ey = y.entity();
        let ez = z.entity();
        assert forall|i: int| 0 <= i < ex.len() implies member_covered(#[trigger] ex[i], ez) by {
            assert(member_covered(ex[i], ey));
            let j = choose|j: int| 0 <= j < ey.len() && #[trigger] element_match(ex[i], ey[j]);
            assert(member_covered(ey[j], ez));
            let k = choose|k: int| 0 <= k < ez.len() && #[trigger] element_match(ey[j], ez[k]);
            assert(element_match(ex[i], ez[k]));
        }
        assert forall|k: int| 0 <= k < ez.len() implies member_covered(#[trigger] ez[k], ex) by {
            assert(member_covered(ez[k], ey));
            let j = choose|j: int| 0 <= j < ey.len() && #[trigger] element_match(ez[k], ey[j]);
            assert(member_covered(ey[j], ex));
            let i = choose|i: int| 0 <= i < ex.len() && #[trigger] element_match(ey[j], ex[i]);
            assert(element_match(ez[k], ex[i]));
        }
    }
}

/// Value-blind comparison does not see member order: reordering a
/// composition's member list never changes any verdict.
pub proof fn lemma_matches_permutation(x: StructureView, y: StructureView, z: StructureView)
    requires
        x.is_composition(),
        y.is_composition(),
        x.entity().to_multiset() == y.entity().to_multiset(),
    ensures
        spec_matches(x, z) == spec_matches(y, z),
{
    broadcast use vstd::seq_lib::group_to_multiset_ensures;

    assert(x == (StructureView::Composition {
        val: x->Composition_val,
        entity: x->Composition_entity,
    }));
    assert(y == (StructureView::Composition {
        val: y->Composition_val,
        entity: y->Composition_entity,
    }));
    let ex = x.entity();
    let ey = y.entity();
    assert(ex.len() == ey.len()) by {
        assert(ex.to_multiset().len() == ex.len());
        assert(ey.to_multiset().len() == ey.len());
    }
    if z.is_composition() {
        assert(z == (StructureView::Composition {
            val: z->Composition_val,
            entity: z->Composition_entity,
        }));
        let ez = z.entity();
        assert forall|a: StructureView, sb1: Seq<StructureView>, sb2: Seq<StructureView>|
            sb1.to_multiset() == sb2.to_multiset() && member_covered(a, sb1) implies member_covered(
            a,
            sb2,
        ) by {
            let j = choose|j: int| 0 <= j < sb1.len() && #[trigger] element_match(a, sb1[j]);
            assert(sb1.contains(sb1[j]));
            assert(sb1.to_multiset().count(sb1[j]) > 0);
            assert(sb2.to_multiset().count(sb1[j]) > 0);
            assert(sb2.contains(sb1[j]));
            let k = choose|k: int| 0 <= k < sb2.len() && sb2[k] == sb1[j];
            assert(element_match(a, sb2[k]));
        }
        if spec_matches(x, z) {
            assert forall|i: int| 0 <= i < ey.len() implies member_covered(#[trigger] ey[i], ez) by {
                assert(ey.contains(ey[i]));
                assert(ey.to_multiset().count(ey[i]) > 0);
                assert(ex.to_multiset().count(ey[i]) > 0);
                assert(ex.contains(ey[i]));
                let j = choose|j: int| 0 <= j < ex.len() && ex[j] == ey[i];
                assert(member_covered(ex[j], ez));
            }
            assert forall|k: int| 0 <= k < ez.len() implies member_covered(#[trigger] ez[k], ey) by {
                assert(member_covered(ez[k], ex));
            }
            assert(spec_matches(y, z));
        }
        if spec_matches(y, z) {
            assert forall|i: int| 0 <= i < ex.len() implies member_covered(#[trigger] ex[i], ez) by {
                assert(ex.contains(ex[i]));
                assert(ex.to_multiset().count(ex[i]) > 0);
                assert(ey.to_multiset().count(ex[i]) > 0);
                assert(ey.contains(ex[i]));
                let j = choose|j: int| 0 <= j < ey.len() && ey[j] == ex[i];
                assert(member_covered(ey[j], ez));
            }
            assert forall|k: int| 0 <= k < ez.len() implies member_covered(#[trigger] ez[k], ex) by {
                assert(member_covered(ez[k], ey));
            }
            assert(spec_matches(x, z));
        }
    }
}

} // verus!
