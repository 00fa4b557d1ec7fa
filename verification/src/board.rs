//! Free-function forms of the board-level validation predicates.

use vstd::prelude::*;

use crate::dataclass::{seq_view, Structure};
use crate::board_validation::{non_related_structures, spec_non_related};
use crate::relationship::Relationship;

verus! {

/// Accepts every ensemble.
#[allow(non_snake_case)]
pub fn non_validation(_B: &Vec<Structure>) -> (b: bool)
    ensures
        b,
{
    true
}

/// No two distinct structures of the ensemble match.
#[allow(non_snake_case)]
pub fn non_matching_structures(B: &Vec<Structure>) -> (b: bool)
    ensures
        b == spec_non_related(seq_view(B@), Relationship::M),
{
    non_related_structures(B, Relationship::M)
}

/// No two distinct structures of the ensemble touch horizontally.
#[allow(non_snake_case)]
pub fn non_horizontal_structures(B: &Vec<Structure>) -> (b: bool)
    ensures
        b == spec_non_related(seq_view(B@), Relationship::H),
{
    non_related_structures(B, Relationship::H)
}

/// No two distinct structures of the ensemble touch vertically.
#[allow(non_snake_case)]
pub fn non_vertical_structures(B: &Vec<Structure>) -> (b: bool)
    ensures
        b == spec_non_related(seq_view(B@), Relationship::V),
{
    non_related_structures(B, Relationship::V)
}

/// No two distinct structures of the ensemble touch diagonally.
#[allow(non_snake_case)]
pub fn non_diagonal_structures(B: &Vec<Structure>) -> (b: bool)
    ensures
        b == spec_non_related(seq_view(B@), Relationship::D),
{
    non_related_structures(B, Relationship::D)
}

} // verus!
