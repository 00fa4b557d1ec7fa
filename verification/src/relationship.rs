//! Pairwise geometric adjacency between grid elements (horizontal, vertical,
//! diagonal, match), and the existential lifting of such a test to whole
//! structures.

use vstd::prelude::*;

use crate::dataclass::{Attribute, Element, Structure, StructureView};
use crate::dataclass::lemma_seq_view_index;

verus! {

broadcast use vstd::std_specs::vec::group_vec_axioms;

/// A named geometric adjacency between two elements: horizontal, vertical,
/// diagonal, or identity match.
#[derive(Clone, Copy, PartialEq, Eq, Structural, Debug)]
pub enum Relationship {
    H,
    V,
    D,
    M,
}

/// Horizontal adjacency: same row and columns differing by one for like
/// attributes, or a point/cell touching its own horizontal edge. Pairs of
/// attributes not listed are never related.
pub open spec fn spec_h(x: Element, y: Element) -> bool {
    let dx = x.coor.1 - y.coor.1;
    let dy = y.coor.0 - x.coor.0;
    match (x.attr, y.attr) {
        (Attribute::P, Attribute::P) => (dx == 1 || dx == -1) && dy == 0,
        (Attribute::C, Attribute::C) => (dx == 1 || dx == -1) && dy == 0,
        (Attribute::Hp, Attribute::Hp) => (dx == 1 || dx == -1) && dy == 0,
        (Attribute::Hc, Attribute::Hc) => (dx == 1 || dx == -1) && dy == 0,
        (Attribute::P, Attribute::Hp) => (dx == 0 || dx == 1) && dy == 0,
        (Attribute::C, Attribute::Hc) => (dx == 0 || dx == 1) && dy == 0,
        (Attribute::Hp, Attribute::P) => (dx == 0 || dx == -1) && dy == 0,
        (Attribute::Hc, Attribute::C) => (dx == 0 || dx == -1) && dy == 0,
        _ => false,
    }
}

/// Vertical adjacency: same column and rows differing by one for like
/// attributes, or a point/cell touching its own vertical edge.
pub open spec fn spec_v(x: Element, y: Element) -> bool {
    let dx = x.coor.1 - y.coor.1;
    let dy = x.coor.0 - y.coor.0;
    match (x.attr, y.attr) {
        (Attribute::P, Attribute::P) => dx == 0 && (dy == 1 || dy == -1),
        (Attribute::C, Attribute::C) => dx == 0 && (dy == 1 || dy == -1),
        (Attribute::Vp, Attribute::Vp) => dx == 0 && (dy == 1 || dy == -1),
        (Attribute::Vc, Attribute::Vc) => dx == 0 && (dy == 1 || dy == -1),
        (Attribute::P, Attribute::Vp) => dx == 0 && (dy == 0 || dy == 1),
        (Attribute::C, Attribute::Vc) => dx == 0 && (dy == 0 || dy == 1),
        (Attribute::Vp, Attribute::P) => dx == 0 && (dy == 0 || dy == -1),
        (Attribute::Vc, Attribute::C) => dx == 0 && (dy == 0 || dy == -1),
        _ => false,
    }
}

/// Diagonal adjacency: rows and columns both differing by one for points and
/// cells, or the corner touch between a horizontal and a vertical edge.
pub open spec fn spec_d(x: Element, y: Element) -> bool {
    let dx = x.coor.1 - y.coor.1;
    let dy = x.coor.0 - y.coor.0;
    match (x.attr, y.attr) {
        (Attribute::C, Attribute::C) => (dx == 1 || dx == -1) && (dy == 1 || dy == -1),
        (Attribute::P, Attribute::P) => (dx == 1 || dx == -1) && (dy == 1 || dy == -1),
        (Attribute::Hp, Attribute::Vp) => (dx == 0 || dx == -1) && (dy == 0 || dy == 1),
        (Attribute::Hc, Attribute::Vc) => (dx == 0 || dx == -1) && (dy == 0 || dy == 1),
        (Attribute::Vp, Attribute::Hp) => (dx == 0 || dx == 1) && (dy == 0 || dy == -1),
        (Attribute::Vc, Attribute::Hc) => (dx == 0 || dx == 1) && (dy == 0 || dy == -1),
        _ => false,
    }
}

/// Identity match: identical coordinate and identical attribute. The value
/// plays no part.
pub open spec fn spec_m(x: Element, y: Element) -> bool {
    x.coor == y.coor && x.attr == y.attr
}

/// The element-level meaning of each named relationship.
pub open spec fn spec_rel(r: Relationship, x: Element, y: Element) -> bool {
    match r {
        Relationship::H => spec_h(x, y),
        Relationship::V => spec_v(x, y),
        Relationship::D => spec_d(x, y),
        Relationship::M => spec_m(x, y),
    }
}

/// The lifting of a relationship to structures: two compositions are related
/// iff some member of one is related to some member of the other; two
/// elements are related iff the element-level relationship holds; a mixed
/// pair is never related.
pub open spec fn spec_relationship(x: StructureView, y: StructureView, r: Relationship) -> bool
    decreases x, y,
{
    match (x, y) {
        (
            StructureView::Composition { entity: ex, .. },
            StructureView::Composition { entity: ey, .. },
        ) => members_related(ex, ey, r),
        (StructureView::Element { elem: e1 }, StructureView::Element { elem: e2 }) => spec_rel(
            r,
            e1,
            e2,
        ),
        _ => false,
    }
}

/// Some member of `ex` is related to some member of `ey`.
pub open spec fn members_related(
    ex: Seq<StructureView>,
    ey: Seq<StructureView>,
    r: Relationship,
) -> bool
    decreases ex, ey,
{
    ex.len() > 0 && (member_related_to_seq(ex.first(), ey, r) || members_related(
        ex.drop_first(),
        ey,
        r,
    ))
}

/// The structure `x` is related to some member of `ey`.
pub open spec fn member_related_to_seq(
    x: StructureView,
    ey: Seq<StructureView>,
    r: Relationship,
) -> bool
    decreases x, ey,
{
    ey.len() > 0 && (spec_relationship(x, ey.first(), r) || member_related_to_seq(
        x,
        ey.drop_first(),
        r,
    ))
}

/// `member_related_to_seq` holds exactly when some indexed member of `ey` is
/// related to `x`.
pub proof fn lemma_member_related_to_seq_iff(
    x: StructureView,
    ey: Seq<StructureView>,
    r: Relationship,
)
    ensures
        member_related_to_seq(x, ey, r) <==> exists|j: int|
            0 <= j < ey.len() && #[trigger] spec_relationship(x, ey[j], r),
    decreases ey.len(),
{
    if ey.len() > 0 {
        lemma_member_related_to_seq_iff(x, ey.drop_first(), r);
        if member_related_to_seq(x, ey, r) {
            if spec_relationship(x, ey.first(), r) {
                assert(spec_relationship(x, ey[0], r));
            } else {
                let j = choose|j: int|
                    0 <= j < ey.drop_first().len() && #[trigger] spec_relationship(
                        x,
                        ey.drop_first()[j],
                        r,
                    );
                assert(ey.drop_first()[j] == ey[j + 1]);
                assert(spec_relationship(x, ey[j + 1], r));
            }
        }
        if exists|j: int| 0 <= j < ey.len() && #[trigger] spec_relationship(x, ey[j], r) {
            let j = choose|j: int| 0 <= j < ey.len() && #[trigger] spec_relationship(x, ey[j], r);
            if j == 0 {
                assert(ey[0] == ey.first());
            } else {
                assert(ey.drop_first()[j - 1] == ey[j]);
                assert(spec_relationship(x, ey.drop_first()[j - 1], r));
            }
        }
    }
}

/// `members_related` holds exactly when some pair of indexed members is
/// related.
pub proof fn lemma_members_related_iff(
    ex: Seq<StructureView>,
    ey: Seq<StructureView>,
    r: Relationship,
)
    ensures
        members_related(ex, ey, r) <==> exists|i: int, j: int|
            0 <= i < ex.len() && 0 <= j < ey.len() && #[trigger] spec_relationship(ex[i], ey[j], r),
    decreases ex.len(),
{
    if ex.len() > 0 {
        lemma_members_related_iff(ex.drop_first(), ey, r);
        lemma_member_related_to_seq_iff(ex.first(), ey, r);
        if members_related(ex, ey, r) {
            if member_related_to_seq(ex.first(), ey, r) {
                let j = choose|j: int|
                    0 <= j < ey.len() && #[trigger] spec_relationship(ex.first(), ey[j], r);
                assert(ex[0] == ex.first());
                assert(spec_relationship(ex[0], ey[j], r));
            } else {
                let (i, j) = choose|i: int, j: int|
                    0 <= i < ex.drop_first().len() && 0 <= j < ey.len()
                        && #[trigger] spec_relationship(ex.drop_first()[i], ey[j], r);
                assert(ex.drop_first()[i] == ex[i + 1]);
                assert(spec_relationship(ex[i + 1], ey[j], r));
            }
        }
        if exists|i: int, j: int|
            0 <= i < ex.len() && 0 <= j < ey.len() && #[trigger] spec_relationship(
                ex[i],
                ey[j],
                r,
            ) {
            let (i, j) = choose|i: int, j: int|
                0 <= i < ex.len() && 0 <= j < ey.len() && #[trigger] spec_relationship(
                    ex[i],
                    ey[j],
                    r,
                );
            if i == 0 {
                assert(ex[0] == ex.first());
                assert(spec_relationship(ex.first(), ey[j], r));
            } else {
                assert(ex.drop_first()[i - 1] == ex[i]);
                assert(spec_relationship(ex.drop_first()[i - 1], ey[j], r));
            }
        }
    }
}

/// On two compositions, the lifted relationship is exactly `members_related`
/// of their member sequences.
pub proof fn lemma_relationship_composition(x: StructureView, y: StructureView, r: Relationship)
    requires
        x.is_composition(),
        y.is_composition(),
    ensures
        spec_relationship(x, y, r) == members_related(x.entity(), y.entity(), r),
{
    assert(x == (StructureView::Composition {
        val: x->Composition_val,
        entity: x->Composition_entity,
    }));
    assert(y == (StructureView::Composition {
        val: y->Composition_val,
        entity: y->Composition_entity,
    }));
}

/// From two related member sequences, a pair of indices whose members are
/// related.
pub proof fn lemma_related_witness(
    ex: Seq<StructureView>,
    ey: Seq<StructureView>,
    r: Relationship,
) -> (w: (int, int))
    requires
        members_related(ex, ey, r),
    ensures
        0 <= w.0 < ex.len(),
        0 <= w.1 < ey.len(),
        spec_relationship(ex[w.0], ey[w.1], r),
{
    lemma_members_related_iff(ex, ey, r);
    choose|i: int, j: int|
        0 <= i < ex.len() && 0 <= j < ey.len() && #[trigger] spec_relationship(ex[i], ey[j], r)
}

/// A related pair of members relates the two member sequences.
pub proof fn lemma_related_intro(
    ex: Seq<StructureView>,
    ey: Seq<StructureView>,
    r: Relationship,
    i: int,
    j: int,
)
    requires
        0 <= i < ex.len(),
        0 <= j < ey.len(),
        spec_relationship(ex[i], ey[j], r),
    ensures
        members_related(ex, ey, r),
{
    lemma_members_related_iff(ex, ey, r);
}

/// Horizontal adjacency of two elements.
#[allow(non_snake_case)]
pub fn H(X: &Element, Y: &Element) -> (r: bool)
    ensures
        r == spec_h(*X, *Y),
{
    let dx: i64 = X.coor.1 as i64 - Y.coor.1 as i64;
    let dy: i64 = Y.coor.0 as i64 - X.coor.0 as i64;
    match (X.attr, Y.attr) {
        (Attribute::P, Attribute::P)
        | (Attribute::C, Attribute::C)
        | (Attribute::Hp, Attribute::Hp)
        | (Attribute::Hc, Attribute::Hc) => (dx == 1 || dx == -1) && dy == 0,
        (Attribute::P, Attribute::Hp) | (Attribute::C, Attribute::Hc) => (dx == 0 || dx == 1)
            && dy == 0,
        (Attribute::Hp, Attribute::P) | (Attribute::Hc, Attribute::C) => (dx == 0 || dx == -1)
            && dy == 0,
        _ => false,
    }
}

/// Vertical adjacency of two elements.
#[allow(non_snake_case)]
pub fn V(X: &Element, Y: &Element) -> (r: bool)
    ensures
        r == spec_v(*X, *Y),
{
    let dx: i64 = X.coor.1 as i64 - Y.coor.1 as i64;
    let dy: i64 = X.coor.0 as i64 - Y.coor.0 as i64;
    match (X.attr, Y.attr) {
        (Attribute::P, Attribute::P)
        | (Attribute::C, Attribute::C)
        | (Attribute::Vp, Attribute::Vp)
        | (Attribute::Vc, Attribute::Vc) => dx == 0 && (dy == 1 || dy == -1),
        (Attribute::P, Attribute::Vp) | (Attribute::C, Attribute::Vc) => dx == 0 && (dy == 0 || dy
            == 1),
        (Attribute::Vp, Attribute::P) | (Attribute::Vc, Attribute::C) => dx == 0 && (dy == 0 || dy
            == -1),
        _ => false,
    }
}

/// Diagonal adjacency of two elements.
#[allow(non_snake_case)]
pub fn D(X: &Element, Y: &Element) -> (r: bool)
    ensures
        r == spec_d(*X, *Y),
{
    let dx: i64 = X.coor.1 as i64 - Y.coor.1 as i64;
    let dy: i64 = X.coor.0 as i64 - Y.coor.0 as i64;
    match (X.attr, Y.attr) {
        (Attribute::C, Attribute::C) | (Attribute::P, Attribute::P) => (dx == 1 || dx == -1) && (dy
            == 1 || dy == -1),
        (Attribute::Hp, Attribute::Vp) | (Attribute::Hc, Attribute::Vc) => (dx == 0 || dx == -1)
            && (dy == 0 || dy == 1),
        (Attribute::Vp, Attribute::Hp) | (Attribute::Vc, Attribute::Hc) => (dx == 0 || dx == 1) && (
        dy == 0 || dy == -1),
        _ => false,
    }
}

/// Identity match of two elements: same coordinate, same attribute.
#[allow(non_snake_case)]
pub fn M(X: &Element, Y: &Element) -> (r: bool)
    ensures
        r == spec_m(*X, *Y),
{
    let dx: i64 = X.coor.0 as i64 - Y.coor.0 as i64;
    let dy: i64 = X.coor.1 as i64 - Y.coor.1 as i64;
    if dx == 0 && dy == 0 {
        match (X.attr, Y.attr) {
            (Attribute::P, Attribute::P)
            | (Attribute::C, Attribute::C)
            | (Attribute::Hp, Attribute::Hp)
            | (Attribute::Vp, Attribute::Vp)
            | (Attribute::Hc, Attribute::Hc)
            | (Attribute::Vc, Attribute::Vc) => true,
            _ => false,
        }
    } else {
        false
    }
}

/// Evaluates a named relationship on two elements.
pub fn element_relationship(x: &Element, y: &Element, r: Relationship) -> (b: bool)
    ensures
        b == spec_rel(r, *x, *y),
{
    match r {
        Relationship::H => H(x, y),
        Relationship::V => V(x, y),
        Relationship::D => D(x, y),
        Relationship::M => M(x, y),
    }
}

/// Whether two structures are related: for two compositions, some member of
/// one is related to some member of the other; for two elements, the
/// element-level test; mixed pairs are never related.
#[allow(non_snake_case)]
#[verifier::loop_isolation(false)]
pub fn relationship(X: &Structure, Y: &Structure, R: Relationship) -> (b: bool)
    ensures
        b == spec_relationship(X@, Y@, R),
    decreases X,
{
    match (X, Y) {
        (Structure::Composition(x), Structure::Composition(y)) => {
            proof {
                lemma_seq_view_index(x.entity@);
                lemma_seq_view_index(y.entity@);
                assert(X@ == StructureView::Composition {
                    val: x.val,
                    entity: crate::dataclass::seq_view(x.entity@),
                });
                assert(Y@ == StructureView::Composition {
                    val: y.val,
                    entity: crate::dataclass::seq_view(y.entity@),
                });
            }
            let mut i: usize = 0;
            while i < x.entity.len()
                invariant
                    i <= x.entity.len(),
                    forall|i0: int, j0: int|
                        0 <= i0 < i && 0 <= j0 < y.entity@.len() ==> !spec_relationship(
                            x.entity@[i0]@,
                            y.entity@[j0]@,
                            R,
                        ),
                decreases x.entity.len() - i,
            {
                let mut j: usize = 0;
                while j < y.entity.len()
                    invariant
                        i < x.entity.len(),
                        j <= y.entity.len(),
                        forall|j0: int|
                            0 <= j0 < j ==> !spec_relationship(
                                x.entity@[i as int]@,
                                y.entity@[j0]@,
                                R,
                            ),
                    decreases y.entity.len() - j,
                {
                    proof {
                        assert(decreases_to!(x.entity => x.entity@[i as int]));
                        assert(decreases_to!(*X => x.entity));
                    }
                    if relationship(&x.entity[i], &y.entity[j], R) {
                        proof {
                            let ex = crate::dataclass::seq_view(x.entity@);
                            let ey = crate::dataclass::seq_view(y.entity@);
                            lemma_related_intro(ex, ey, R, i as int, j as int);
                            lemma_relationship_composition(X@, Y@, R);
                        }
                        return true;
                    }
                    j = j + 1;
                }
                i = i + 1;
            }
            proof {
                let ex = crate::dataclass::seq_view(x.entity@);
                let ey = crate::dataclass::seq_view(y.entity@);
                if members_related(ex, ey, R) {
                    let w = lemma_related_witness(ex, ey, R);
                    assert(ex[w.0] == x.entity@[w.0]@);
                    assert(ey[w.1] == y.entity@[w.1]@);
                }
                lemma_relationship_composition(X@, Y@, R);
            }
            false
        },
        (Structure::Element(x), Structure::Element(y)) => element_relationship(x, y, R),
        _ => false,
    }
}

/// Every named relationship is symmetric at the element level: exchanging the
/// two elements never changes the verdict.
pub proof fn lemma_rel_symmetric(r: Relationship, x: Element, y: Element)
    ensures
        spec_rel(r, x, y) == spec_rel(r, y, x),
{
}

/// The identity match holds exactly of two elements with the same coordinate
/// and the same attribute; in particular it is reflexive.
pub proof fn lemma_match_characterization(x: Element, y: Element)
    ensures
        spec_m(x, y) <==> (x.coor == y.coor && x.attr == y.attr),
        spec_m(x, x),
{
}

/// The lifting to structures keeps symmetry: two structures are related in
/// one order iff they are related in the other.
pub proof fn lemma_relationship_symmetric(x: StructureView, y: StructureView, r: Relationship)
    ensures
        spec_relationship(x, y, r) == spec_relationship(y, x, r),
    decreases x, y,
{
    if x.is_composition() && y.is_composition() {
        lemma_relationship_composition(x, y, r);
        lemma_relationship_composition(y, x, r);
        if spec_relationship(x, y, r) {
            let (i, j) = lemma_related_witness(x.entity(), y.entity(), r);
            lemma_relationship_symmetric(x.entity()[i], y.entity()[j], r);
            lemma_related_intro(y.entity(), x.entity(), r, j, i);
        }
        if spec_relationship(y, x, r) {
            let (j, i) = lemma_related_witness(y.entity(), x.entity(), r);
            lemma_relationship_symmetric(x.entity()[i], y.entity()[j], r);
            lemma_related_intro(x.entity(), y.entity(), r, i, j);
        }
    } else if x.is_element() && y.is_element() {
        lemma_rel_symmetric(r, x->Element_elem, y->Element_elem);
        assert(x == (StructureView::Element { elem: x->Element_elem }));
        assert(y == (StructureView::Element { elem: y->Element_elem }));
    } else {
        assert(!spec_relationship(x, y, r));
        assert(!spec_relationship(y, x, r));
    }
}

} // verus!

