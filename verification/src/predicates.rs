//! Bounding-box predicates over areas: whether a composition of cells fills a
//! rectangle or a square exactly.

use vstd::prelude::*;

use crate::dataclass::{seq_view, Structure, StructureView};
use crate::dataclass::lemma_seq_view_index;

verus! {

broadcast use vstd::std_specs::vec::group_vec_axioms;

/// The least column among the element members, starting from the sentinel
/// `i32::MAX` when no element member occurs.
pub open spec fn min_x(s: Seq<StructureView>) -> int
    decreases s.len(),
{
    if s.len() == 0 {
        i32::MAX as int
    } else {
        let rest = min_x(s.drop_last());
        if s.last().is_element() && s.last().elem().coor.1 < rest {
            s.last().elem().coor.1 as int
        } else {
            rest
        }
    }
}

/// The least row among the element members, from the same sentinel.
pub open spec fn min_y(s: Seq<StructureView>) -> int
    decreases s.len(),
{
    if s.len() == 0 {
        i32::MAX as int
    } else {
        let rest = min_y(s.drop_last());
        if s.last().is_element() && s.last().elem().coor.0 < rest {
            s.last().elem().coor.0 as int
        } else {
            rest
        }
    }
}

/// The greatest column among the element members, starting from the sentinel
/// `-i32::MAX`.
pub open spec fn max_x(s: Seq<StructureView>) -> int
    decreases s.len(),
{
    if s.len() == 0 {
        -(i32::MAX as int)
    } else {
        let rest = max_x(s.drop_last());
        if s.last().is_element() && s.last().elem().coor.1 > rest {
            s.last().elem().coor.1 as int
        } else {
            rest
        }
    }
}

/// The greatest row among the element members, from the same sentinel.
pub open spec fn max_y(s: Seq<StructureView>) -> int
    decreases s.len(),
{
    if s.len() == 0 {
        -(i32::MAX as int)
    } else {
        let rest = max_y(s.drop_last());
        if s.last().is_element() && s.last().elem().coor.0 > rest {
            s.last().elem().coor.0 as int
        } else {
            rest
        }
    }
}

/// The area of the bounding box of a composition's element members.
pub open spec fn bounding_box_size(s: Seq<StructureView>) -> int {
    (max_x(s) - min_x(s) + 1) * (max_y(s) - min_y(s) + 1)
}

/// The member count equals the bounding-box area: the cells fill a rectangle.
pub open spec fn spec_is_rectangle(g: StructureView) -> bool
    recommends
        g.is_composition(),
{
    g.entity().len() == bounding_box_size(g.entity())
}

/// The cells fill a rectangle whose width equals its height.
pub open spec fn spec_is_square(g: StructureView) -> bool
    recommends
        g.is_composition(),
{
    spec_is_rectangle(g) && max_x(g.entity()) - min_x(g.entity()) == max_y(g.entity()) - min_y(
        g.entity(),
    )
}

/// Computes the bounding box of the element members of a member list:
/// (least column, least row, greatest column, greatest row), from the
/// sentinels when no element member occurs.
#[verifier::loop_isolation(false)]
pub fn bounding_box(entity: &Vec<Structure>) -> (r: (i64, i64, i64, i64))
    ensures
        r.0 == min_x(seq_view(entity@)),
        r.1 == min_y(seq_view(entity@)),
        r.2 == max_x(seq_view(entity@)),
        r.3 == max_y(seq_view(entity@)),
        i32::MIN <= r.0 <= i32::MAX,
        i32::MIN <= r.1 <= i32::MAX,
        i32::MIN <= r.2 <= i32::MAX,
        i32::MIN <= r.3 <= i32::MAX,
{
    proof {
        lemma_seq_view_index(entity@);
    }
    let ghost ev = seq_view(entity@);
    let mut lo_x: i64 = i32::MAX as i64;
    let mut lo_y: i64 = i32::MAX as i64;
    let mut hi_x: i64 = -(i32::MAX as i64);
    let mut hi_y: i64 = -(i32::MAX as i64);
    proof {
        assert(ev.take(0) =~= Seq::<StructureView>::empty());
    }
    let mut i: usize = 0;
    while i < entity.len()
        invariant
            i <= entity.len(),
            lo_x == min_x(ev.take(i as int)),
            lo_y == min_y(ev.take(i as int)),
            hi_x == max_x(ev.take(i as int)),
            hi_y == max_y(ev.take(i as int)),
            i32::MIN <= hi_x <= i32::MAX,
            i32::MIN <= hi_y <= i32::MAX,
            i32::MIN <= lo_x <= i32::MAX,
            i32::MIN <= lo_y <= i32::MAX,
        decreases entity.len() - i,
    {
        proof {
            assert(ev.take(i as int + 1).drop_last() =~= ev.take(i as int));
            assert(ev.take(i as int + 1).last() == ev[i as int]);
            assert(ev[i as int] == entity@[i as int]@);
        }
        match &entity[i] {
            Structure::Element(cell_content) => {
                let x = cell_content.coor.1 as i64;
                let y = cell_content.coor.0 as i64;
                if x < lo_x {
                    lo_x = x;
                }
                if y < lo_y {
                    lo_y = y;
                }
                if x > hi_x {
                    hi_x = x;
                }
                if y > hi_y {
                    hi_y = y;
                }
            },
            _ => {
                proof {
                    assert(!ev[i as int].is_element());
                }
            },
        }
        i = i + 1;
    }
    proof {
        assert(ev.take(entity@.len() as int) =~= ev);
    }
    (lo_x, lo_y, hi_x, hi_y)
}

/// Whether a composition of cells fills its bounding box exactly: the box's
/// area equals the member count.
pub fn is_rectangle(area: &Structure) -> (b: bool)
    requires
        area@.is_composition(),
    ensures
        b == spec_is_rectangle(area@),
{
    match area {
        Structure::Composition(area_content) => {
            proof {
                assert(area@ == (StructureView::Composition {
                    val: area_content.val,
                    entity: seq_view(area_content.entity@),
                }));
                lemma_seq_view_index(area_content.entity@);
            }
            let (lo_x, lo_y, hi_x, hi_y) = bounding_box(&area_content.entity);
            let width: i128 = hi_x as i128 - lo_x as i128 + 1;
            let height: i128 = hi_y as i128 - lo_y as i128 + 1;
            proof {
                assert(width * height == bounding_box_size(seq_view(area_content.entity@)));
                assert(-0x2_0000_0000 <= width <= 0x2_0000_0000);
                assert(-0x2_0000_0000 <= height <= 0x2_0000_0000);
                assert(-0x8_0000_0000_0000_0000 <= width * height
                    <= 0x8_0000_0000_0000_0000) by (nonlinear_arith)
                    requires
                        -0x2_0000_0000 <= width <= 0x2_0000_0000,
                        -0x2_0000_0000 <= height <= 0x2_0000_0000,
                ;
            }
            let size: i128 = width * height;
            (area_content.entity.len() as i128) == size
        },
        _ => {
            proof {
                assert(false);
            }
            false
        },
    }
}

} // verus!

verus! {

/// The puzzle-rule predicates, gathered as associated functions.
pub struct Predicates {}

impl Predicates {
    /// Extracts the comparisons contained in the parent and checks that no
    /// two distinct element entries carry the same value.
    pub fn all_different(compares: &Vec<Structure>, parent: &Structure) -> (b: bool)
        ensures
            b == crate::function::spec_all_different(
                crate::function::spec_extract_contains(seq_view(compares@), parent@),
            ),
    {
        crate::function::all_different(compares, parent)
    }
}

} // verus!
