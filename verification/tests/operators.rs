use puzzle_check::dataclass::{Attribute, Composition, Coordinate, Element, Structure};
use puzzle_check::function::{
    add_up_structures, all_different, compare_structures, extract_contains_structures,
    extract_random_structure, progress_size, random_subset_with_validation, adjacent,
};
use puzzle_check::board_validation::BoardValidation;
use puzzle_check::operate_structures::OperateStructure;

fn cell(row: i32, col: i32) -> Structure {
    Structure::Element(Element::new(Attribute::C, Coordinate(row, col)))
}

fn valued_cell(row: i32, col: i32, val: i32) -> Structure {
    let mut e = Element::new(Attribute::C, Coordinate(row, col));
    e.val = Some(val);
    Structure::Element(e)
}

fn area(cells: Vec<Structure>) -> Structure {
    Structure::Composition(Composition::new(cells))
}

fn members(s: &Structure) -> &Vec<Structure> {
    match s {
        Structure::Composition(c) => &c.entity,
        Structure::Element(_) => panic!("expected a composition"),
    }
}

#[test]
fn compare_ignores_values_and_order() {
    let a = area(vec![valued_cell(1, 1, 5), cell(1, 2)]);
    let b = area(vec![cell(1, 2), valued_cell(1, 1, 9)]);
    assert!(compare_structures(&a, &b));
    assert!(compare_structures(&b, &a));
    assert!(compare_structures(&a, &a));
    let c = area(vec![cell(1, 1), cell(2, 2)]);
    assert!(!compare_structures(&a, &c));
    // A composition never stands for an element.
    assert!(!compare_structures(&a, &cell(1, 1)));
    // Same entities, different multiplicity but equal length still matches
    // only when both sides are covered.
    let d = area(vec![cell(1, 1)]);
    assert!(!compare_structures(&a, &d));
}

#[test]
fn union_concatenates_and_keeps_duplicates() {
    let a = area(vec![cell(1, 1), cell(1, 2)]);
    let b = area(vec![cell(1, 2), cell(2, 1)]);
    let u = add_up_structures(&a, &b);
    let m = members(&u);
    assert_eq!(m.len(), 4);
    // Duplicates are kept, not deduplicated.
    assert!(compare_structures(&m[1], &m[2]));
    // Associativity and commutativity as a multiset merge.
    let c = area(vec![cell(2, 2)]);
    let left = add_up_structures(&add_up_structures(&a, &b), &c);
    let right = add_up_structures(&a, &add_up_structures(&b, &c));
    assert_eq!(members(&left).len(), members(&right).len());
    for (x, y) in members(&left).iter().zip(members(&right).iter()) {
        assert!(compare_structures(x, y));
    }
    let ab = add_up_structures(&a, &b);
    let ba = add_up_structures(&b, &a);
    // Same multiset of members, possibly in another order.
    for x in members(&ab).iter() {
        let n1 = members(&ab).iter().filter(|y| compare_structures(x, y)).count();
        let n2 = members(&ba).iter().filter(|y| compare_structures(x, y)).count();
        assert_eq!(n1, n2);
    }
}

#[test]
fn subtract_removes_matches_and_is_idempotent() {
    let a = area(vec![cell(1, 1), cell(1, 2), cell(2, 1)]);
    let b = area(vec![valued_cell(1, 2, 4)]);
    let once = OperateStructure::subtract_structures(&a, &b);
    assert_eq!(members(&once).len(), 2);
    assert!(compare_structures(&members(&once)[0], &cell(1, 1)));
    assert!(compare_structures(&members(&once)[1], &cell(2, 1)));
    let twice = OperateStructure::subtract_structures(&once, &b);
    assert!(compare_structures(&once, &twice));
    // Subtracting a composition from itself leaves nothing.
    let empty = OperateStructure::subtract_structures(&a, &a);
    assert_eq!(members(&empty).len(), 0);
}

#[test]
fn extract_contains_finds_live_values_once() {
    let live = vec![valued_cell(1, 1, 7), valued_cell(1, 2, 8), valued_cell(2, 2, 9)];
    let parent = area(vec![cell(1, 2), cell(1, 1), cell(1, 2)]);
    let contains = extract_contains_structures(&live, &parent);
    // The two matching live entries, first occurrences only, despite the
    // duplicated child.
    assert_eq!(contains.len(), 2);
    assert!(compare_structures(&contains[0], &cell(1, 2)));
    assert!(compare_structures(&contains[1], &cell(1, 1)));
    match &contains[0] {
        Structure::Element(e) => assert_eq!(e.val, Some(8)),
        _ => panic!("expected an element"),
    }
}

#[test]
fn all_different_detects_repeated_values() {
    let distinct = vec![valued_cell(1, 1, 1), valued_cell(1, 2, 2)];
    let repeated = vec![valued_cell(1, 1, 1), valued_cell(1, 2, 1)];
    let parent = area(vec![cell(1, 1), cell(1, 2)]);
    assert_eq!(all_different(&distinct, &parent), true);
    assert_eq!(all_different(&repeated, &parent), false);
    // Values outside the parent play no part.
    let partial = vec![valued_cell(1, 1, 1), valued_cell(3, 3, 1)];
    assert_eq!(all_different(&partial, &parent), true);
}

#[test]
fn adjacent_finds_rook_neighbours() {
    let parent = vec![cell(1, 1), cell(1, 2), cell(2, 1), cell(2, 2), cell(3, 3)];
    let neighbours = adjacent(&cell(1, 1), &parent);
    assert_eq!(neighbours.len(), 2);
    assert!(compare_structures(&neighbours[0], &cell(1, 2)));
    assert!(compare_structures(&neighbours[1], &cell(2, 1)));
    let neighbours = adjacent(&cell(2, 2), &parent);
    assert_eq!(neighbours.len(), 2);
}

#[test]
fn progress_size_is_a_power() {
    assert_eq!(progress_size(2, 10), 1024);
    assert_eq!(progress_size(3, 4), 81);
    assert_eq!(progress_size(5, 0), 1);
    assert_eq!(progress_size(0, 3), 0);
    assert_eq!(progress_size(1, 64), 1);
}

#[test]
fn extract_random_structure_returns_a_member() {
    let set = vec![cell(1, 1), cell(1, 2), cell(2, 1)];
    for _ in 0..20 {
        let picked = extract_random_structure(&set);
        assert!(set.iter().any(|s| compare_structures(s, &picked)));
    }
    let single = vec![valued_cell(4, 4, 2)];
    let picked = extract_random_structure(&single);
    assert!(compare_structures(&picked, &single[0]));
    match picked {
        Structure::Element(e) => assert_eq!(e.val, Some(2)),
        _ => panic!("expected an element"),
    }
}

#[test]
fn random_subset_members_come_from_the_set() {
    let set = vec![cell(1, 1), cell(1, 3), cell(3, 1), cell(3, 3)];
    let validations = vec![BoardValidation::NonValidation];
    let sub = random_subset_with_validation(&set, &validations, 64)
        .expect("an always-true validation accepts the first non-empty draw");
    assert!(!sub.is_empty(), "empty candidates are re-drawn");
    for s in sub.iter() {
        assert!(set.iter().any(|x| compare_structures(x, s)));
    }
    assert!(sub.len() <= set.len());
}

#[test]
fn random_subset_of_nothing_is_nothing() {
    let set: Vec<Structure> = vec![];
    let validations = vec![BoardValidation::NonValidation];
    assert!(random_subset_with_validation(&set, &validations, 16).is_none());
}

#[test]
fn random_subset_respects_validations() {
    // Cells on one row: a non-horizontal validation forces a sparse subset.
    let set = vec![cell(1, 1), cell(1, 2)];
    let validations = vec![BoardValidation::NonHorizontal];
    let sub = OperateStructure::random_subset_with_validation(&set, &validations, 10_000)
        .expect("a single cell passes; acceptance is overwhelmingly likely");
    assert!(sub.len() == 1);
}

#[test]
fn board_validations_see_distinct_structures_only() {
    let b_clash = vec![cell(1, 1), cell(1, 2)];
    assert_eq!(BoardValidation::non_horizontal_structures(&b_clash), false);
    assert_eq!(BoardValidation::non_vertical_structures(&b_clash), true);
    let b_dup = vec![cell(1, 1), cell(1, 1)];
    // Equal duplicates are not held against each other.
    assert_eq!(BoardValidation::non_matching_structures(&b_dup), true);
    let b_match = vec![valued_cell(1, 1, 1), valued_cell(1, 1, 2)];
    // Distinct values at the same place do match.
    assert_eq!(BoardValidation::non_matching_structures(&b_match), false);
    assert_eq!(BoardValidation::non_validation(&b_match), true);
    let b_diag = vec![cell(1, 1), cell(2, 2)];
    assert_eq!(BoardValidation::non_diagonal_structures(&b_diag), false);
    assert_eq!(puzzle_check::board::non_diagonal_structures(&b_diag), false);
    assert_eq!(puzzle_check::board::non_matching_structures(&b_diag), true);
}
