//! Grid construction: the points, cells, point-edges, and cell-edges of a
//! board, at fixed one-based coordinates determined by its dimensions.

use vstd::prelude::*;

use crate::dataclass::{seq_view, Attribute, BoardSize, Coordinate, Element, Structure, StructureView};
use crate::dataclass::lemma_seq_view_index;

verus! {

broadcast use vstd::std_specs::vec::group_vec_axioms;

/// The element view of a fresh grid element.
pub open spec fn grid_element(attr: Attribute, row: int, col: int) -> StructureView {
    StructureView::Element {
        elem: Element { val: None, attr, coor: Coordinate(row as i32, col as i32) },
    }
}

/// A whole rectangular family of grid elements holds, at position
/// `i * cols + j`, the element of the given attribute at row `i + 1`, column
/// `j + 1`.
pub open spec fn is_grid(
    s: Seq<StructureView>,
    attr: Attribute,
    rows: int,
    cols: int,
) -> bool {
    &&& s.len() == rows * cols
    &&& forall|k: int|
        0 <= k < s.len() ==> #[trigger] s[k] == grid_element(attr, k / cols + 1, k % cols + 1)
}

/// Builds the rectangular family of elements of one attribute: `rows * cols`
/// fresh elements at one-based coordinates, row by row.
#[verifier::loop_isolation(false)]
pub fn grid_elements(attr: Attribute, rows: i32, cols: i32) -> (r: Vec<Structure>)
    requires
        0 <= rows <= 46_341,
        0 <= cols <= 46_341,
    ensures
        is_grid(seq_view(r@), attr, rows as int, cols as int),
{
    let mut out: Vec<Structure> = Vec::new();
    let mut i: i32 = 0;
    proof {
        assert(rows * cols <= 46_341 * 46_341) by (nonlinear_arith)
            requires
                0 <= rows <= 46_341,
                0 <= cols <= 46_341,
        ;
    }
    while i < rows
        invariant
            0 <= i <= rows,
            seq_view(out@).len() == i * cols,
            out@.len() == i * cols,
            forall|k: int|
                0 <= k < seq_view(out@).len() ==> #[trigger] seq_view(out@)[k] == grid_element(
                    attr,
                    k / (cols as int) + 1,
                    k % (cols as int) + 1,
                ),
        decreases rows - i,
    {
        proof {
            assert(0 <= i * cols && i * cols + cols <= rows * cols) by (nonlinear_arith)
                requires
                    0 <= i < rows,
                    0 <= cols,
            ;
        }
        let mut j: i32 = 0;
        while j < cols
            invariant
                0 <= i < rows,
                0 <= j <= cols,
                seq_view(out@).len() == i * cols + j,
                out@.len() == i * cols + j,
                forall|k: int|
                    0 <= k < seq_view(out@).len() ==> #[trigger] seq_view(out@)[k] == grid_element(
                        attr,
                        k / (cols as int) + 1,
                        k % (cols as int) + 1,
                    ),
            decreases cols - j,
        {
            let ghost oldo = out@;
            let coordinate = Coordinate(i + 1, j + 1);
            let element = Structure::Element(Element::new(attr, coordinate));
            out.push(element);
            proof {
                lemma_seq_view_index(out@);
                lemma_seq_view_index(oldo);
                assert(out@.drop_last() =~= oldo);
                let k0 = i * cols + j;
                vstd::arithmetic::div_mod::lemma_fundamental_div_mod_converse(
                    k0 as int,
                    cols as int,
                    i as int,
                    j as int,
                );
                assert forall|k: int|
                    0 <= k < seq_view(out@).len() implies #[trigger] seq_view(out@)[k]
                        == grid_element(attr, k / (cols as int) + 1, k % (cols as int) + 1) by {
                    assert(seq_view(out@)[k] == out@[k]@);
                    if k < oldo.len() {
                        assert(out@[k] == oldo[k]);
                        assert(seq_view(oldo)[k] == oldo[k]@);
                    } else {
                        assert(k == k0);
                        assert(k0 / (cols as int) == i as int && k0 % (cols as int) == j as int);
                        assert(out@[k]@ == grid_element(attr, i + 1, j + 1));
                    }
                }
            }
            j = j + 1;
        }
        proof {
            assert(i * cols + cols == (i + 1) * cols) by (nonlinear_arith);
        }
        i = i + 1;
    }
    out
}

/// Builds the four immutable template families of a board: its points `P`,
/// cells `C`, point-edges `Ep` (all horizontal rows first, then all vertical
/// columns), and cell-edges `Ec` (likewise), each at fixed one-based
/// coordinates determined by the dimensions.
pub fn initialize(board_size: &BoardSize) -> (r: (
    Vec<Structure>,
    Vec<Structure>,
    Vec<Structure>,
    Vec<Structure>,
))
    requires
        1 <= board_size.0 <= 46_340,
        1 <= board_size.1 <= 46_340,
    ensures
        ({
            let n = board_size.0 as int;
            let m = board_size.1 as int;
            &&& is_grid(seq_view(r.0@), Attribute::P, n + 1, m + 1)
            &&& is_grid(seq_view(r.1@), Attribute::C, n, m)
            &&& seq_view(r.2@).len() == (n + 1) * m + n * (m + 1)
            &&& is_grid(seq_view(r.2@).take((n + 1) * m), Attribute::Hp, n + 1, m)
            &&& is_grid(seq_view(r.2@).skip((n + 1) * m), Attribute::Vp, n, m + 1)
            &&& seq_view(r.3@).len() == n * (m - 1) + (n - 1) * m
            &&& is_grid(seq_view(r.3@).take(n * (m - 1)), Attribute::Hc, n, m - 1)
            &&& is_grid(seq_view(r.3@).skip(n * (m - 1)), Attribute::Vc, n - 1, m)
        }),
{
    let n = board_size.0;
    let m = board_size.1;
    #[allow(non_snake_case)]
    let P = grid_elements(Attribute::P, n + 1, m + 1);
    #[allow(non_snake_case)]
    let C = grid_elements(Attribute::C, n, m);

    let mut point_edges = grid_elements(Attribute::Hp, n + 1, m);
    let ghost hpv = seq_view(point_edges@);
    let mut vertical_point_edges = grid_elements(Attribute::Vp, n, m + 1);
    let ghost vpv = seq_view(vertical_point_edges@);
    point_edges.append(&mut vertical_point_edges);
    proof {
        lemma_concat_views(point_edges@, hpv, vpv);
    }

    let mut cell_edges = grid_elements(Attribute::Hc, n, m - 1);
    let ghost hcv = seq_view(cell_edges@);
    let mut vertical_cell_edges = grid_elements(Attribute::Vc, n - 1, m);
    let ghost vcv = seq_view(vertical_cell_edges@);
    cell_edges.append(&mut vertical_cell_edges);
    proof {
        lemma_concat_views(cell_edges@, hcv, vcv);
    }

    (P, C, point_edges, cell_edges)
}

/// The view of a concatenation splits back into the two views.
proof fn lemma_concat_views(whole: Seq<Structure>, av: Seq<StructureView>, bv: Seq<StructureView>)
    requires
        exists|a: Seq<Structure>, b: Seq<Structure>|
            whole == a + b && av == seq_view(a) && bv == seq_view(b),
    ensures
        seq_view(whole).len() == av.len() + bv.len(),
        seq_view(whole).take(av.len() as int) == av,
        seq_view(whole).skip(av.len() as int) == bv,
{
    let (a, b) = choose|a: Seq<Structure>, b: Seq<Structure>|
        whole == a + b && av == seq_view(a) && bv == seq_view(b);
    lemma_seq_view_index(whole);
    lemma_seq_view_index(a);
    lemma_seq_view_index(b);
    assert(seq_view(whole).take(a.len() as int) =~= seq_view(a));
    assert(seq_view(whole).skip(a.len() as int) =~= seq_view(b));
}

} // verus!
