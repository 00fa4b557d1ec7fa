//! Structure-level helpers gathered on one carrier: edge counting around a
//! cell, border test, loose ends of a line, and cell neighbourhood.

use vstd::prelude::*;

use crate::dataclass::{seq_view, BoardSize, Structure, StructureView};

verus! {

/// The structure-level helpers, gathered as associated functions.
pub struct StructureFn {}

impl StructureFn {
    /// Sums the values of the four point-edges around a cell.
    #[allow(non_snake_case)]
    pub fn cycle(cell: &Structure, Ep: &Vec<Structure>, board_size: &BoardSize) -> (r: i32)
        requires
            cell@.is_element(),
            cell@.elem().attr == crate::dataclass::Attribute::C,
            1 <= cell@.elem().coor.1 <= board_size.1,
            1 <= cell@.elem().coor.0 <= board_size.0,
            Ep@.len() == board_size.1 * (board_size.0 + 1) + board_size.0 * (board_size.1 + 1),
            ({
                let (a, b, c, d) = crate::function::cycle_indices(
                    cell@.elem().coor.0 as int,
                    cell@.elem().coor.1 as int,
                    board_size.0 as int,
                    board_size.1 as int,
                );
                let epv = seq_view(Ep@);
                &&& (epv[a].is_element() ==> epv[a].elem().val.is_some())
                &&& (epv[b].is_element() ==> epv[b].elem().val.is_some())
                &&& (epv[c].is_element() ==> epv[c].elem().val.is_some())
                &&& (epv[d].is_element() ==> epv[d].elem().val.is_some())
                &&& i32::MIN <= crate::function::edge_contribution(epv[a])
                    + crate::function::edge_contribution(epv[b]) + crate::function::edge_contribution(
                    epv[c],
                ) + crate::function::edge_contribution(epv[d]) <= i32::MAX
            }),
        ensures
            ({
                let (a, b, c, d) = crate::function::cycle_indices(
                    cell@.elem().coor.0 as int,
                    cell@.elem().coor.1 as int,
                    board_size.0 as int,
                    board_size.1 as int,
                );
                let epv = seq_view(Ep@);
                r == crate::function::edge_contribution(epv[a]) + crate::function::edge_contribution(
                    epv[b],
                ) + crate::function::edge_contribution(epv[c])
                    + crate::function::edge_contribution(epv[d])
            }),
    {
        crate::function::cycle(cell, Ep, board_size)
    }

    /// Whether a cell lies on the right or bottom edge of the board.
    pub fn is_side(cell: &Structure, board_size: &BoardSize) -> (b: bool)
        requires
            cell@.is_element(),
            cell@.elem().attr == crate::dataclass::Attribute::C,
        ensures
            b == (cell@.elem().coor.1 == board_size.1 || cell@.elem().coor.0 == board_size.0),
    {
        crate::function::is_side(cell, board_size)
    }

    /// The loose ends of a set of edges: one fresh element for every grid
    /// point exactly one edge ends on.
    pub fn line_edgepoints(line: &Structure) -> (r: Vec<Structure>)
        requires
            line@.is_composition() ==> crate::graph::edge_members_ok(line@.entity())
                && line@.entity().len() < 0x7fff_ffff,
        ensures
            line@.is_composition() ==> {
                let ev = line@.entity();
                let rv = seq_view(r@);
                let attr = if crate::graph::points_family(ev) {
                    crate::dataclass::Attribute::P
                } else {
                    crate::dataclass::Attribute::C
                };
                &&& forall|t: int|
                    0 <= t < rv.len() ==> (#[trigger] rv[t]).is_element() && rv[t].elem().val
                        == None::<i32> && rv[t].elem().attr == attr
                        && crate::graph::endpoint_count(
                        ev,
                        crate::graph::key_pair(rv[t].elem().coor),
                    ) == 1
                &&& forall|p: (int, int)|
                    #[trigger] crate::graph::endpoint_count(ev, p) == 1 ==> exists|t: int|
                        0 <= t < rv.len() && crate::graph::key_pair(#[trigger] rv[t].elem().coor)
                            == p
                &&& forall|t1: int, t2: int|
                    0 <= t1 < t2 < rv.len() ==> crate::graph::key_pair(
                        (#[trigger] rv[t1]).elem().coor,
                    ) != crate::graph::key_pair((#[trigger] rv[t2]).elem().coor)
            },
            !line@.is_composition() ==> r@.len() == 0,
    {
        crate::function::line_edgepoints(line)
    }

    /// The elements of `parent` one step up, down, left, or right of the
    /// given cell.
    pub fn adjacent(element: &Structure, parent: &Vec<Structure>) -> (r: Vec<Structure>)
        requires
            element@.is_element(),
            element@.elem().attr == crate::dataclass::Attribute::C,
        ensures
            seq_view(r@) == seq_view(parent@).filter(
                |v: StructureView|
                    crate::function::is_rook_adjacent(
                        v,
                        element@.elem().coor.0 as int,
                        element@.elem().coor.1 as int,
                    ),
            ),
    {
        crate::function::adjacent(element, parent)
    }
}

} // verus!
