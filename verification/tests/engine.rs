use puzzle_check::combine::{combine, power_set};
use puzzle_check::cutoff::Cutoff;
use puzzle_check::dataclass::{Attribute, BoardSize, Composition, Coordinate, Element, Structure};
use puzzle_check::function::compare_structures;
use puzzle_check::initialize::initialize;
use puzzle_check::relationship::Relationship;

fn cell(row: i32, col: i32) -> Structure {
    Structure::Element(Element::new(Attribute::C, Coordinate(row, col)))
}

fn area(cells: Vec<Structure>) -> Structure {
    Structure::Composition(Composition::new(cells))
}

fn members(s: &Structure) -> &Vec<Structure> {
    match s {
        Structure::Composition(c) => &c.entity,
        Structure::Element(_) => panic!("expected a composition"),
    }
}

#[test]
fn power_set_has_two_to_the_n_subsets() {
    let universe = vec![cell(1, 1), cell(1, 2), cell(2, 1)];
    let subsets = power_set(&universe);
    assert_eq!(subsets.len(), 8);
    // Every subset is a subsequence in the original relative order, and all
    // subsets are pairwise distinct.
    for sub in subsets.iter() {
        let mut last_pos: Option<usize> = None;
        for item in sub.iter() {
            let pos = universe
                .iter()
                .position(|u| compare_structures(u, item))
                .expect("subset member must come from the universe");
            if let Some(prev) = last_pos {
                assert!(pos > prev, "subset must keep the original order");
            }
            last_pos = Some(pos);
        }
    }
    for a in 0..subsets.len() {
        for b in (a + 1)..subsets.len() {
            let s1 = &subsets[a];
            let s2 = &subsets[b];
            let same = s1.len() == s2.len()
                && s1.iter().zip(s2.iter()).all(|(x, y)| compare_structures(x, y));
            assert!(!same, "subsets must be pairwise distinct");
        }
    }
}

#[test]
fn power_set_of_empty_universe() {
    let universe: Vec<Structure> = vec![];
    let subsets = power_set(&universe);
    assert_eq!(subsets.len(), 1);
    assert_eq!(subsets[0].len(), 0);
}

/// The 2-by-2 cell grid under rook adjacency: the combine engine yields all
/// connected subsets — 4 singletons, 4 adjacent pairs, 4 L-shapes, and the
/// full grid — and no diagonal-only pair.
#[test]
fn combine_two_by_two_grid_rook_adjacency() {
    let board_size = BoardSize(2, 2);
    let (_, c, _, _) = initialize(&board_size);
    assert_eq!(c.len(), 4);
    let r = vec![Relationship::H, Relationship::V];
    let not_r = vec![Relationship::M];
    let cutoffs: Vec<Cutoff> = vec![];
    let result = combine(r, not_r, &c, &cutoffs);

    let mut by_size = [0usize; 5];
    for s in result.iter() {
        let len = members(s).len();
        assert!(1 <= len && len <= 4);
        by_size[len] += 1;
    }
    assert_eq!(by_size[1], 4, "all four singletons");
    assert_eq!(by_size[2], 4, "all four rook-adjacent pairs");
    assert_eq!(by_size[3], 4, "all four L-shapes");
    assert_eq!(by_size[4], 1, "the full grid");
    assert_eq!(result.len(), 13);

    // The two diagonal-only pairs are absent.
    let diagonal1 = area(vec![cell(1, 1), cell(2, 2)]);
    let diagonal2 = area(vec![cell(1, 2), cell(2, 1)]);
    for s in result.iter() {
        assert!(!compare_structures(s, &diagonal1));
        assert!(!compare_structures(s, &diagonal2));
    }
    // The four adjacent pairs are present.
    for pair in [
        area(vec![cell(1, 1), cell(1, 2)]),
        area(vec![cell(1, 1), cell(2, 1)]),
        area(vec![cell(1, 2), cell(2, 2)]),
        area(vec![cell(2, 1), cell(2, 2)]),
    ] {
        assert!(result.iter().any(|s| compare_structures(s, &pair)));
    }
}

/// A forbidden relationship rejects a subset no matter which pair violates
/// it: forbidding horizontal contact keeps only vertical dominoes and
/// singletons.
#[test]
fn combine_forbidden_relationship_prunes() {
    let board_size = BoardSize(2, 2);
    let (_, c, _, _) = initialize(&board_size);
    let r = vec![Relationship::V];
    let not_r = vec![Relationship::H];
    let cutoffs: Vec<Cutoff> = vec![];
    let result = combine(r, not_r, &c, &cutoffs);
    // Singletons: 4; vertical dominoes: (1,1)-(2,1) and (1,2)-(2,2).
    assert_eq!(result.len(), 6);
}

#[test]
fn combine_size_cutoffs_filter_candidates() {
    let board_size = BoardSize(2, 2);
    let (_, c, _, _) = initialize(&board_size);
    let result = combine(
        vec![Relationship::H, Relationship::V],
        vec![Relationship::M],
        &c,
        &vec![Cutoff::SizeExactly(2)],
    );
    assert_eq!(result.len(), 4);
    let result = combine(
        vec![Relationship::H, Relationship::V],
        vec![Relationship::M],
        &c,
        &vec![Cutoff::SizeAtMost(2)],
    );
    assert_eq!(result.len(), 8);
}

#[test]
fn combine_rectangle_cutoff() {
    let board_size = BoardSize(2, 2);
    let (_, c, _, _) = initialize(&board_size);
    let result = combine(
        vec![Relationship::H, Relationship::V],
        vec![Relationship::M],
        &c,
        &vec![Cutoff::IsRectangle],
    );
    // Singletons (4), dominoes (4), and the full square (1) are rectangles;
    // the L-shapes are not.
    assert_eq!(result.len(), 9);
    let result = combine(
        vec![Relationship::H, Relationship::V],
        vec![Relationship::M],
        &c,
        &vec![Cutoff::IsSquare],
    );
    // Singletons and the full square.
    assert_eq!(result.len(), 5);
}

/// A slitherlink-style search: among all subsets of the four point-edges
/// around a single square, only the full square closes into a cycle.
#[test]
fn combine_edges_with_cycle_cutoff() {
    let board_size = BoardSize(1, 1);
    let (_, _, ep, _) = initialize(&board_size);
    assert_eq!(ep.len(), 4);
    let result = combine(
        vec![Relationship::H, Relationship::V, Relationship::D],
        vec![Relationship::M],
        &ep,
        &vec![Cutoff::OnlyCycle],
    );
    assert_eq!(result.len(), 1);
    assert_eq!(members(&result[0]).len(), 4);
}
