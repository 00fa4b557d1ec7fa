//! Validation predicates over a whole ensemble of chosen structures: no two
//! distinct structures of the board may match, or touch horizontally,
//! vertically, or diagonally.

use vstd::prelude::*;

use crate::dataclass::{seq_view, Structure, StructureView};
use crate::dataclass::lemma_seq_view_index;
use crate::relationship::{spec_relationship, relationship, Relationship};

verus! {

broadcast use vstd::std_specs::vec::group_vec_axioms;

/// Deep equality of two structures: the same tree, values included.
pub fn structures_equal(x: &Structure, y: &Structure) -> (b: bool)
    ensures
        b == (x@ == y@),
    decreases x,
{
    match (x, y) {
        (Structure::Element(e1), Structure::Element(e2)) => {
            let b = e1.val == e2.val && e1.attr == e2.attr && e1.coor == e2.coor;
            proof {
                if b {
                    assert(x@ =~= y@);
                }
            }
            b
        },
        (Structure::Composition(c1), Structure::Composition(c2)) => {
            proof {
                lemma_seq_view_index(c1.entity@);
                lemma_seq_view_index(c2.entity@);
            }
            let vals_equal = match (c1.val, c2.val) {
                (Option::None, Option::None) => true,
                (Option::Some(a), Option::Some(b)) => a == b,
                _ => false,
            };
            if !vals_equal {
                return false;
            }
            if c1.entity.len() != c2.entity.len() {
                proof {
                    assert(x@.entity().len() != y@.entity().len());
                }
                return false;
            }
            let mut i: usize = 0;
            #[verifier::loop_isolation(false)]
            while i < c1.entity.len()
                invariant
                    i <= c1.entity.len(),
                    forall|k: int| 0 <= k < i ==> c1.entity@[k]@ == c2.entity@[k]@,
                decreases c1.entity.len() - i,
            {
                proof {
                    assert(decreases_to!(c1.entity => c1.entity@[i as int]));
                    assert(decreases_to!(*x => c1.entity));
                }
                if !structures_equal(&c1.entity[i], &c2.entity[i]) {
                    proof {
                        assert(x@.entity()[i as int] != y@.entity()[i as int]);
                    }
                    return false;
                }
                i = i + 1;
            }
            proof {
                assert(seq_view(c1.entity@) =~= seq_view(c2.entity@));
                assert(x@ =~= y@);
            }
            true
        },
        _ => false,
    }
}

/// No two distinct structures of the ensemble satisfy the relationship.
/// Distinct means different as values; equal duplicates are not held against
/// each other.
pub open spec fn spec_non_related(b: Seq<StructureView>, r: Relationship) -> bool {
    forall|i: int, j: int|
        0 <= i < b.len() && 0 <= j < b.len() && b[i] != b[j] ==> !spec_relationship(
            #[trigger] b[i],
            #[trigger] b[j],
            r,
        )
}

/// Checks that no two distinct structures of the ensemble satisfy the
/// relationship.
#[allow(non_snake_case)]
#[verifier::loop_isolation(false)]
pub fn non_related_structures(B: &Vec<Structure>, r: Relationship) -> (b: bool)
    ensures
        b == spec_non_related(seq_view(B@), r),
{
    proof {
        lemma_seq_view_index(B@);
    }
    let ghost bv = seq_view(B@);
    let mut i: usize = 0;
    while i < B.len()
        invariant
            i <= B.len(),
            forall|i0: int, j0: int|
                0 <= i0 < i && 0 <= j0 < B@.len() && bv[i0] != bv[j0] ==> !spec_relationship(
                    #[trigger] bv[i0],
                    #[trigger] bv[j0],
                    r,
                ),
        decreases B.len() - i,
    {
        let mut j: usize = 0;
        while j < B.len()
            invariant
                i < B.len(),
                j <= B.len(),
                forall|j0: int|
                    0 <= j0 < j && bv[i as int] != bv[j0] ==> !spec_relationship(
                        bv[i as int],
                        #[trigger] bv[j0],
                        r,
                    ),
            decreases B.len() - j,
        {
            if !structures_equal(&B[i], &B[j]) {
                if relationship(&B[i], &B[j], r) {
                    proof {
                        assert(bv[i as int] == B@[i as int]@);
                        assert(bv[j as int] == B@[j as int]@);
                        assert(bv[i as int] != bv[j as int]);
                        assert(spec_relationship(bv[i as int], bv[j as int], r));
                        assert(!spec_non_related(bv, r));
                    }
                    return false;
                }
            }
            j = j + 1;
        }
        i = i + 1;
    }
    true
}

/// The validation predicates a caller may demand of a chosen ensemble.
#[derive(Clone, Copy, PartialEq, Eq, Structural, Debug)]
pub enum BoardValidation {
    NonValidation,
    NonMatching,
    NonHorizontal,
    NonVertical,
    NonDiagonal,
}

/// What each validation demands of the ensemble.
pub open spec fn spec_board_validation(v: BoardValidation, b: Seq<StructureView>) -> bool {
    match v {
        BoardValidation::NonValidation => true,
        BoardValidation::NonMatching => spec_non_related(b, Relationship::M),
        BoardValidation::NonHorizontal => spec_non_related(b, Relationship::H),
        BoardValidation::NonVertical => spec_non_related(b, Relationship::V),
        BoardValidation::NonDiagonal => spec_non_related(b, Relationship::D),
    }
}

/// The ensemble passes every validation in the list.
pub open spec fn spec_board_validations(vs: Seq<BoardValidation>, b: Seq<StructureView>) -> bool {
    forall|k: int| 0 <= k < vs.len() ==> spec_board_validation(#[trigger] vs[k], b)
}

impl BoardValidation {
    /// Evaluates this validation on an ensemble.
    #[allow(non_snake_case)]
    pub fn eval(&self, B: &Vec<Structure>) -> (b: bool)
        ensures
            b == spec_board_validation(*self, seq_view(B@)),
    {
        match self {
            BoardValidation::NonValidation => true,
            BoardValidation::NonMatching => non_related_structures(B, Relationship::M),
            BoardValidation::NonHorizontal => non_related_structures(B, Relationship::H),
            BoardValidation::NonVertical => non_related_structures(B, Relationship::V),
            BoardValidation::NonDiagonal => non_related_structures(B, Relationship::D),
        }
    }

    /// Accepts every ensemble.
    #[allow(non_snake_case)]
    pub fn non_validation(_B: &Vec<Structure>) -> (b: bool)
        ensures
            b,
    {
        true
    }

    /// No two distinct structures of the ensemble match.
    #[allow(non_snake_case)]
    pub fn non_matching_structures(B: &Vec<Structure>) -> (b: bool)
        ensures
            b == spec_non_related(seq_view(B@), Relationship::M),
    {
        non_related_structures(B, Relationship::M)
    }

    /// No two distinct structures of the ensemble touch horizontally.
    #[allow(non_snake_case)]
    pub fn non_horizontal_structures(B: &Vec<Structure>) -> (b: bool)
        ensures
            b == spec_non_related(seq_view(B@), Relationship::H),
    {
        non_related_structures(B, Relationship::H)
    }

    /// No two distinct structures of the ensemble touch vertically.
    #[allow(non_snake_case)]
    pub fn non_vertical_structures(B: &Vec<Structure>) -> (b: bool)
        ensures
            b == spec_non_related(seq_view(B@), Relationship::V),
    {
        non_related_structures(B, Relationship::V)
    }

    /// No two distinct structures of the ensemble touch diagonally.
    #[allow(non_snake_case)]
    pub fn non_diagonal_structures(B: &Vec<Structure>) -> (b: bool)
        ensures
            b == spec_non_related(seq_view(B@), Relationship::D),
    {
        non_related_structures(B, Relationship::D)
    }
}

/// Evaluates a list of validations on an ensemble, failing fast on the first
/// rejection.
#[allow(non_snake_case)]
#[verifier::loop_isolation(false)]
pub fn eval_board_validations(vs: &Vec<BoardValidation>, B: &Vec<Structure>) -> (b: bool)
    ensures
        b == spec_board_validations(vs@, seq_view(B@)),
{
    let mut k: usize = 0;
    while k < vs.len()
        invariant
            k <= vs.len(),
            forall|k0: int| 0 <= k0 < k ==> spec_board_validation(#[trigger] vs@[k0], seq_view(B@)),
        decreases vs.len() - k,
    {
        if !vs[k].eval(B) {
            return false;
        }
        k = k + 1;
    }
    true
}

} // verus!
