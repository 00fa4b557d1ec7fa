use puzzle_check::assignment::assign_values;
use puzzle_check::cutoff::{non_division, Cutoff};
use puzzle_check::dataclass::{Attribute, BoardSize, Composition, Coordinate, Element, Structure};
use puzzle_check::function::{cycle, is_side, line_edgepoints, compare_structures};
use puzzle_check::graph::{only_cycle, only_line};
use puzzle_check::initialize::initialize;
use puzzle_check::predicates::is_rectangle;
use puzzle_check::structure_functions::StructureFn;

fn elem(attr: Attribute, row: i32, col: i32) -> Structure {
    Structure::Element(Element::new(attr, Coordinate(row, col)))
}

fn area(cells: Vec<Structure>) -> Structure {
    Structure::Composition(Composition::new(cells))
}

#[test]
fn initialize_builds_the_four_families() {
    let board_size = BoardSize(2, 3);
    let (p, c, ep, ec) = initialize(&board_size);
    assert_eq!(p.len(), 3 * 4);
    assert_eq!(c.len(), 2 * 3);
    assert_eq!(ep.len(), 3 * 3 + 2 * 4);
    assert_eq!(ec.len(), 2 * 2 + 1 * 3);
    // Points are laid out row by row at one-based coordinates.
    match &p[0] {
        Structure::Element(e) => {
            assert_eq!(e.attr, Attribute::P);
            assert_eq!(e.coor, Coordinate(1, 1));
            assert_eq!(e.val, None);
        },
        _ => panic!("expected an element"),
    }
    match &p[4] {
        Structure::Element(e) => assert_eq!(e.coor, Coordinate(2, 1)),
        _ => panic!("expected an element"),
    }
    // The point-edge list holds all horizontal edges first.
    match &ep[0] {
        Structure::Element(e) => assert_eq!(e.attr, Attribute::Hp),
        _ => panic!("expected an element"),
    }
    match &ep[9] {
        Structure::Element(e) => {
            assert_eq!(e.attr, Attribute::Vp);
            assert_eq!(e.coor, Coordinate(1, 1));
        },
        _ => panic!("expected an element"),
    }
    match &c[5] {
        Structure::Element(e) => {
            assert_eq!(e.attr, Attribute::C);
            assert_eq!(e.coor, Coordinate(2, 3));
        },
        _ => panic!("expected an element"),
    }
}

#[test]
fn is_rectangle_on_filled_and_gapped_boxes() {
    let filled = area(vec![
        elem(Attribute::C, 1, 1),
        elem(Attribute::C, 1, 2),
        elem(Attribute::C, 2, 1),
        elem(Attribute::C, 2, 2),
    ]);
    assert_eq!(is_rectangle(&filled), true);
    let gapped = area(vec![
        elem(Attribute::C, 1, 1),
        elem(Attribute::C, 1, 2),
        elem(Attribute::C, 2, 2),
    ]);
    assert_eq!(is_rectangle(&gapped), false);
    assert_eq!(Cutoff::is_rectangle(&filled), true);
    assert_eq!(Cutoff::is_not_rectangle(&gapped), true);
    assert_eq!(Cutoff::is_square(&filled), true);
    let strip = area(vec![elem(Attribute::C, 1, 1), elem(Attribute::C, 1, 2)]);
    assert_eq!(Cutoff::is_rectangle(&strip), true);
    assert_eq!(Cutoff::is_square(&strip), false);
}

#[test]
fn only_cycle_rejects_odd_edge_counts_immediately() {
    // Any composition with an odd member count fails, whatever the edges.
    let odd = area(vec![
        elem(Attribute::Hp, 1, 1),
        elem(Attribute::Vp, 1, 2),
        elem(Attribute::Hp, 2, 1),
    ]);
    assert_eq!(only_cycle(&odd), false);
    assert_eq!(Cutoff::only_cycle(&odd), false);
}

#[test]
fn only_cycle_accepts_a_unit_square() {
    // The four point-edges around the unit square: every corner meets two.
    let square = area(vec![
        elem(Attribute::Hp, 1, 1),
        elem(Attribute::Vp, 1, 1),
        elem(Attribute::Vp, 1, 2),
        elem(Attribute::Hp, 2, 1),
    ]);
    assert_eq!(only_cycle(&square), true);
    // Dropping one edge leaves two loose corners: no cycle.
    let broken = area(vec![
        elem(Attribute::Hp, 1, 1),
        elem(Attribute::Vp, 1, 1),
        elem(Attribute::Vp, 1, 2),
        elem(Attribute::Hp, 2, 2),
    ]);
    assert_eq!(only_cycle(&broken), false);
}

#[test]
fn only_line_wants_exactly_two_loose_ends() {
    let path = area(vec![elem(Attribute::Hp, 1, 1), elem(Attribute::Hp, 1, 2)]);
    assert_eq!(only_line(&path), true);
    assert_eq!(Cutoff::only_line(&path), true);
    let square = area(vec![
        elem(Attribute::Hp, 1, 1),
        elem(Attribute::Vp, 1, 1),
        elem(Attribute::Vp, 1, 2),
        elem(Attribute::Hp, 2, 1),
    ]);
    // A closed cycle has no loose end.
    assert_eq!(only_line(&square), false);
    // Two separate edges leave four loose ends.
    let split = area(vec![elem(Attribute::Hp, 1, 1), elem(Attribute::Hp, 5, 5)]);
    assert_eq!(only_line(&split), false);
}

#[test]
fn line_edgepoints_returns_the_loose_ends() {
    let path = area(vec![elem(Attribute::Hp, 1, 1), elem(Attribute::Hp, 1, 2)]);
    let ends = line_edgepoints(&path);
    assert_eq!(ends.len(), 2);
    for end in ends.iter() {
        match end {
            Structure::Element(e) => {
                assert_eq!(e.attr, Attribute::P);
                assert_eq!(e.val, None);
                assert!(e.coor == Coordinate(1, 1) || e.coor == Coordinate(1, 3));
            },
            _ => panic!("expected an element"),
        }
    }
    // Cell-edge lines yield cell endpoints.
    let cell_path = area(vec![elem(Attribute::Vc, 1, 1)]);
    let ends = StructureFn::line_edgepoints(&cell_path);
    assert_eq!(ends.len(), 2);
    match &ends[0] {
        Structure::Element(e) => assert_eq!(e.attr, Attribute::C),
        _ => panic!("expected an element"),
    }
}

#[test]
fn cycle_sums_the_four_edges_around_a_cell() {
    let board_size = BoardSize(1, 1);
    let (_, _, mut ep, _) = initialize(&board_size);
    assert_eq!(ep.len(), 4);
    let values = [1, 0, 1, 1];
    for (k, s) in ep.iter_mut().enumerate() {
        match s {
            Structure::Element(e) => e.val = Some(values[k]),
            _ => panic!("expected an element"),
        }
    }
    let cell = elem(Attribute::C, 1, 1);
    assert_eq!(cycle(&cell, &ep, &board_size), 3);
    assert_eq!(StructureFn::cycle(&cell, &ep, &board_size), 3);
}

#[test]
fn is_side_sees_the_right_and_bottom_borders() {
    let board_size = BoardSize(3, 3);
    assert_eq!(is_side(&elem(Attribute::C, 1, 3), &board_size), true);
    assert_eq!(is_side(&elem(Attribute::C, 3, 1), &board_size), true);
    assert_eq!(is_side(&elem(Attribute::C, 2, 2), &board_size), false);
    assert_eq!(StructureFn::is_side(&elem(Attribute::C, 1, 1), &board_size), false);
}

#[test]
fn non_division_counts_border_cells() {
    let board_size = BoardSize(3, 3);
    let inner = area(vec![elem(Attribute::C, 2, 2), elem(Attribute::C, 1, 1)]);
    assert_eq!(non_division(&inner, &board_size), true);
    let border = area(vec![elem(Attribute::C, 1, 3), elem(Attribute::C, 3, 1)]);
    assert_eq!(non_division(&border, &board_size), false);
}

#[test]
fn assignment_enumerator_decodes_mixed_radix() {
    let cells = vec![elem(Attribute::C, 1, 1), elem(Attribute::C, 1, 2)];
    let domain = vec![Some(1), Some(2)];
    let mut seen: Vec<Vec<Option<i32>>> = Vec::new();
    for index in 0..4u64 {
        let assigned = assign_values(&cells, &domain, index);
        assert_eq!(assigned.len(), 2);
        let vals: Vec<Option<i32>> = assigned
            .iter()
            .map(|s| match s {
                Structure::Element(e) => e.val,
                _ => panic!("expected an element"),
            })
            .collect();
        assert!(!seen.contains(&vals), "each index gives a distinct assignment");
        seen.push(vals);
    }
    assert_eq!(seen.len(), 4);
    // The least significant digit drives the first element.
    assert_eq!(seen[0], vec![Some(1), Some(1)]);
    assert_eq!(seen[1], vec![Some(2), Some(1)]);
    assert_eq!(seen[2], vec![Some(1), Some(2)]);
    assert_eq!(seen[3], vec![Some(2), Some(2)]);
    // Re-encoding the digits read off an assignment recovers its index.
    for index in 0..4u64 {
        let assigned = assign_values(&cells, &domain, index);
        let mut recovered: u64 = 0;
        let mut weight: u64 = 1;
        for s in assigned.iter() {
            let val = match s {
                Structure::Element(e) => e.val,
                _ => panic!("expected an element"),
            };
            let digit = domain.iter().position(|d| *d == val).unwrap() as u64;
            recovered += digit * weight;
            weight *= domain.len() as u64;
        }
        assert_eq!(recovered, index);
    }
    // Identities are untouched.
    let assigned = assign_values(&cells, &domain, 3);
    assert!(compare_structures(&assigned[0], &cells[0]));
}
