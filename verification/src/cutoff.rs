//! Cutoff predicates: the filters a caller hands the combine engine to prune
//! candidate compositions before enumeration.

use vstd::prelude::*;

use crate::dataclass::{seq_view, BoardSize, Structure, StructureView};
use crate::dataclass::lemma_seq_view_index;
use crate::graph::{edge_members_ok, spec_only_cycle, spec_only_line};
use crate::predicates::{bounding_box, bounding_box_size, spec_is_rectangle, spec_is_square};

verus! {

broadcast use vstd::std_specs::vec::group_vec_axioms;

/// How many members of the list are cells lying on the right or bottom edge
/// of the board.
pub open spec fn side_cell_count(s: Seq<StructureView>, bs: BoardSize) -> int
    decreases s.len(),
{
    if s.len() == 0 {
        0
    } else {
        side_cell_count(s.drop_last(), bs) + if s.last().is_element() && (s.last().elem().coor.1
            == bs.1 || s.last().elem().coor.0 == bs.0) {
            1int
        } else {
            0int
        }
    }
}

/// A composition may not claim two or more cells on the board's border;
/// such an area would cut the border in two.
pub open spec fn spec_non_division(g: StructureView, bs: BoardSize) -> bool {
    if g.is_composition() {
        side_cell_count(g.entity(), bs) < 2
    } else {
        true
    }
}

/// Rejects an area holding two or more border cells of the board.
#[verifier::loop_isolation(false)]
pub fn non_division(area: &Structure, board_size: &BoardSize) -> (b: bool)
    ensures
        b == spec_non_division(area@, *board_size),
{
    match area {
        Structure::Composition(area_content) => {
            proof {
                lemma_seq_view_index(area_content.entity@);
                assert(area@ == (StructureView::Composition {
                    val: area_content.val,
                    entity: seq_view(area_content.entity@),
                }));
            }
            let ghost ev = seq_view(area_content.entity@);
            let mut side_cell_counts: u64 = 0;
            proof {
                assert(ev.take(0) =~= Seq::<StructureView>::empty());
            }
            let mut i: usize = 0;
            while i < area_content.entity.len()
                invariant
                    i <= area_content.entity.len(),
                    side_cell_counts == side_cell_count(ev.take(i as int), *board_size),
                    side_cell_counts <= i,
                decreases area_content.entity.len() - i,
            {
                proof {
                    assert(ev.take(i as int + 1).drop_last() =~= ev.take(i as int));
                    assert(ev.take(i as int + 1).last() == ev[i as int]);
                    assert(ev[i as int] == area_content.entity@[i as int]@);
                }
                match &area_content.entity[i] {
                    Structure::Element(cell_content) => {
                        if cell_content.coor.1 == board_size.1 || cell_content.coor.0
                            == board_size.0 {
                            side_cell_counts = side_cell_counts + 1;
                        }
                    },
                    _ => {
                        proof {
                            assert(!ev[i as int].is_element());
                        }
                    },
                }
                i = i + 1;
            }
            proof {
                assert(ev.take(area_content.entity@.len() as int) =~= ev);
            }
            side_cell_counts < 2
        },
        _ => {
            true
        },
    }
}

/// The cutoff filters a caller can ask the combine engine to apply to every
/// candidate composition.
#[derive(Clone, Copy, PartialEq, Eq, Structural, Debug)]
pub enum Cutoff {
    /// Accepts everything.
    NonCutoff,
    /// The candidate's edges must close into cycles.
    OnlyCycle,
    /// The candidate's edges must form one open line.
    OnlyLine,
    /// The candidate's cells must fill a rectangle.
    IsRectangle,
    /// The candidate's cells must not fill a rectangle.
    IsNotRectangle,
    /// The candidate's cells must fill a square.
    IsSquare,
    /// The candidate may have at most this many members.
    SizeAtMost(usize),
    /// The candidate must have exactly this many members.
    SizeExactly(usize),
    /// The candidate may hold at most one border cell of this board.
    NonDivision(BoardSize),
}

/// What each cutoff demands of a candidate composition view.
pub open spec fn spec_cutoff(c: Cutoff, g: StructureView) -> bool {
    match c {
        Cutoff::NonCutoff => true,
        Cutoff::OnlyCycle => spec_only_cycle(g),
        Cutoff::OnlyLine => spec_only_line(g),
        Cutoff::IsRectangle => spec_is_rectangle(g),
        Cutoff::IsNotRectangle => !spec_is_rectangle(g),
        Cutoff::IsSquare => spec_is_square(g),
        Cutoff::SizeAtMost(n) => g.entity().len() <= n,
        Cutoff::SizeExactly(n) => g.entity().len() == n,
        Cutoff::NonDivision(bs) => spec_non_division(g, bs),
    }
}

/// The candidate passes every cutoff in the list.
pub open spec fn spec_cutoffs(cs: Seq<Cutoff>, g: StructureView) -> bool {
    forall|k: int| 0 <= k < cs.len() ==> spec_cutoff(#[trigger] cs[k], g)
}

/// What a cutoff demands of the member list it is applied to: the shape
/// predicates read edge coordinates and so need edge members.
pub open spec fn cutoff_input_ok(c: Cutoff, e: Seq<StructureView>) -> bool {
    match c {
        Cutoff::OnlyCycle => edge_members_ok(e) && e.len() < 0x7fff_ffff,
        Cutoff::OnlyLine => edge_members_ok(e) && e.len() < 0x7fff_ffff,
        _ => true,
    }
}

/// Every cutoff in the list can read the member list.
pub open spec fn cutoffs_input_ok(cs: Seq<Cutoff>, e: Seq<StructureView>) -> bool {
    forall|k: int| 0 <= k < cs.len() ==> cutoff_input_ok(#[trigger] cs[k], e)
}

impl Cutoff {
    /// Evaluates this cutoff on a candidate composition.
    pub fn eval(&self, s: &Structure) -> (b: bool)
        requires
            s@.is_composition(),
            cutoff_input_ok(*self, s@.entity()),
        ensures
            b == spec_cutoff(*self, s@),
    {
        match self {
            Cutoff::NonCutoff => true,
            Cutoff::OnlyCycle => crate::graph::only_cycle(s),
            Cutoff::OnlyLine => crate::graph::only_line(s),
            Cutoff::IsRectangle => Cutoff::is_rectangle(s),
            Cutoff::IsNotRectangle => Cutoff::is_not_rectangle(s),
            Cutoff::IsSquare => Cutoff::is_square(s),
            Cutoff::SizeAtMost(n) => {
                let len = match s {
                    Structure::Composition(g) => {
                        proof {
                            lemma_seq_view_index(g.entity@);
                        }
                        g.entity.len()
                    },
                    _ => {
                        proof {
                            assert(false);
                        }
                        0
                    },
                };
                len <= *n
            },
            Cutoff::SizeExactly(n) => {
                let len = match s {
                    Structure::Composition(g) => {
                        proof {
                            lemma_seq_view_index(g.entity@);
                        }
                        g.entity.len()
                    },
                    _ => {
                        proof {
                            assert(false);
                        }
                        0
                    },
                };
                len == *n
            },
            Cutoff::NonDivision(bs) => non_division(s, bs),
        }
    }

    /// Accepts every candidate.
    pub fn non_cutoff(_s: &Structure) -> (b: bool)
        ensures
            b,
    {
        true
    }

    /// Whether a composition of edges closes into cycles.
    #[allow(non_snake_case)]
    pub fn only_cycle(G: &Structure) -> (b: bool)
        requires
            G@.is_composition() ==> edge_members_ok(G@.entity()) && G@.entity().len()
                < 0x7fff_ffff,
        ensures
            b == spec_only_cycle(G@),
    {
        crate::graph::only_cycle(G)
    }

    /// Whether a composition of edges forms one open line.
    #[allow(non_snake_case)]
    pub fn only_line(G: &Structure) -> (b: bool)
        requires
            G@.is_composition() ==> edge_members_ok(G@.entity()) && G@.entity().len()
                < 0x7fff_ffff,
        ensures
            b == spec_only_line(G@),
    {
        crate::graph::only_line(G)
    }

    /// Whether a composition of cells fills its bounding box exactly.
    pub fn is_rectangle(area: &Structure) -> (b: bool)
        requires
            area@.is_composition(),
        ensures
            b == spec_is_rectangle(area@),
    {
        crate::predicates::is_rectangle(area)
    }

    /// Whether a composition of cells leaves a gap in its bounding box.
    pub fn is_not_rectangle(area: &Structure) -> (b: bool)
        requires
            area@.is_composition(),
        ensures
            b == !spec_is_rectangle(area@),
    {
        !crate::predicates::is_rectangle(area)
    }

    /// Whether a composition of cells fills a square exactly.
    pub fn is_square(area: &Structure) -> (b: bool)
        requires
            area@.is_composition(),
        ensures
            b == spec_is_square(area@),
    {
        match area {
            Structure::Composition(area_content) => {
                proof {
                    assert(area@ == (StructureView::Composition {
                        val: area_content.val,
                        entity: seq_view(area_content.entity@),
                    }));
                    lemma_seq_view_index(area_content.entity@);
                }
                let (lo_x, lo_y, hi_x, hi_y) = bounding_box(&area_content.entity);
                let width: i128 = hi_x as i128 - lo_x as i128 + 1;
                let height: i128 = hi_y as i128 - lo_y as i128 + 1;
                proof {
                    assert(width * height == bounding_box_size(seq_view(area_content.entity@)));
                    assert(-0x8_0000_0000_0000_0000 <= width * height
                        <= 0x8_0000_0000_0000_0000) by (nonlinear_arith)
                        requires
                            -0x2_0000_0000 <= width <= 0x2_0000_0000,
                            -0x2_0000_0000 <= height <= 0x2_0000_0000,
                    ;
                }
                let size: i128 = width * height;
                (area_content.entity.len() as i128) == size && width == height
            },
            _ => {
                proof {
                    assert(false);
                }
                false
            },
        }
    }
}

/// Evaluates a list of cutoffs on a candidate, failing fast on the first
/// rejection.
#[verifier::loop_isolation(false)]
pub fn eval_cutoffs(cs: &Vec<Cutoff>, s: &Structure) -> (b: bool)
    requires
        s@.is_composition(),
        cutoffs_input_ok(cs@, s@.entity()),
    ensures
        b == spec_cutoffs(cs@, s@),
{
    let mut k: usize = 0;
    while k < cs.len()
        invariant
            k <= cs.len(),
            forall|k0: int| 0 <= k0 < k ==> spec_cutoff(#[trigger] cs@[k0], s@),
        decreases cs.len() - k,
    {
        if !cs[k].eval(s) {
            return false;
        }
        k = k + 1;
    }
    true
}

} // verus!
