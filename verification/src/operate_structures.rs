//! Structure operators gathered on one carrier: value-blind comparison,
//! randomized subset sampling, random pick, union, difference, and
//! containment extraction.

use vstd::prelude::*;

use crate::dataclass::{seq_view, Structure, StructureView};
use crate::dataclass::lemma_seq_view_index;
use crate::function::{spec_matches, spec_extract_contains};
use crate::board_validation::BoardValidation;

verus! {

broadcast use vstd::std_specs::vec::group_vec_axioms;

/// Some member of `sub` stands for the same entity as `x`, values ignored.
pub open spec fn matched_by(x: StructureView, sub: Seq<StructureView>) -> bool {
    exists|j: int| 0 <= j < sub.len() && spec_matches(x, #[trigger] sub[j])
}

/// The members of `minuend` left after removing every member that stands for
/// a member of `subtrahend`.
pub open spec fn spec_subtract(
    minuend: Seq<StructureView>,
    subtrahend: Seq<StructureView>,
) -> Seq<StructureView> {
    minuend.filter(|x: StructureView| !matched_by(x, subtrahend))
}

/// Whether `x` stands for some member of the composition member list `sub`.
#[verifier::loop_isolation(false)]
fn matched_by_any(x: &Structure, sub: &Vec<Structure>) -> (b: bool)
    ensures
        b == matched_by(x@, seq_view(sub@)),
{
    proof {
        lemma_seq_view_index(sub@);
    }
    let ghost sv = seq_view(sub@);
    let mut j: usize = 0;
    while j < sub.len()
        invariant
            j <= sub.len(),
            forall|j0: int| 0 <= j0 < j ==> !spec_matches(x@, #[trigger] sv[j0]),
        decreases sub.len() - j,
    {
        if crate::function::compare_structures(x, &sub[j]) {
            proof {
                assert(sv[j as int] == sub@[j as int]@);
                assert(spec_matches(x@, sv[j as int]));
            }
            return true;
        }
        proof {
            assert(sv[j as int] == sub@[j as int]@);
        }
        j = j + 1;
    }
    false
}

/// The structure operators, gathered as associated functions.
pub struct OperateStructure {}

impl OperateStructure {
    /// Whether two structures stand for the same grid entities, values
    /// ignored.
    pub fn compare_structures(s1: &Structure, s2: &Structure) -> (b: bool)
        ensures
            b == spec_matches(s1@, s2@),
    {
        crate::function::compare_structures(s1, s2)
    }

    /// Repeatedly draws a random subset of `set`, re-drawing whenever the
    /// candidate is empty or fails a validation, and giving up after the
    /// stated number of attempts. When the validations are unlikely to be
    /// satisfiable under fair sampling the caller must expect `None` and
    /// shape the input instead.
    pub fn random_subset_with_validation(
        set: &Vec<Structure>,
        board_validation_fn: &Vec<BoardValidation>,
        attempts: u64,
    ) -> (r: Option<Vec<Structure>>)
        ensures
            r matches Some(sub) ==> crate::combine::is_subseq_of(
                sub.deep_view(),
                set.deep_view(),
            ) && sub.deep_view().len() > 0
                && crate::board_validation::spec_board_validations(
                board_validation_fn@,
                sub.deep_view(),
            ),
            set@.len() == 0 ==> r.is_none(),
    {
        crate::function::random_subset_with_validation(set, board_validation_fn, attempts)
    }

    /// Picks one structure of a non-empty list at random.
    pub fn extract_random_structure(structures: &Vec<Structure>) -> (r: Structure)
        requires
            structures@.len() > 0,
        ensures
            exists|i: int| 0 <= i < structures@.len() && r@ == (#[trigger] structures@[i])@,
    {
        crate::function::extract_random_structure(structures)
    }

    /// The union of two compositions: members concatenated, duplicates kept.
    pub fn add_up_structures(structure_1: &Structure, structure_2: &Structure) -> (r: Structure)
        requires
            structure_1@.is_composition(),
            structure_2@.is_composition(),
        ensures
            r@.is_composition(),
            r@.val() == None::<i32>,
            r@.entity() == structure_1@.entity() + structure_2@.entity(),
    {
        crate::function::add_up_structures(structure_1, structure_2)
    }

    /// The difference of two compositions: every member of the first that
    /// stands for a member of the second is removed.
    #[verifier::loop_isolation(false)]
    pub fn subtract_structures(minuend: &Structure, subtrahend: &Structure) -> (r: Structure)
        requires
            minuend@.is_composition(),
            subtrahend@.is_composition(),
        ensures
            r@.is_composition(),
            r@.val() == None::<i32>,
            r@.entity() == spec_subtract(minuend@.entity(), subtrahend@.entity()),
    {
        broadcast use Seq::<_>::lemma_filter_push;

        match (minuend, subtrahend) {
            (Structure::Composition(minuend_content), Structure::Composition(sub_content)) => {
                proof {
                    lemma_seq_view_index(minuend_content.entity@);
                    lemma_seq_view_index(sub_content.entity@);
                    assert(minuend@ == (StructureView::Composition {
                        val: minuend_content.val,
                        entity: seq_view(minuend_content.entity@),
                    }));
                    assert(subtrahend@ == (StructureView::Composition {
                        val: sub_content.val,
                        entity: seq_view(sub_content.entity@),
                    }));
                }
                let ghost mv = seq_view(minuend_content.entity@);
                let ghost sv = seq_view(sub_content.entity@);
                let ghost pred = |x: StructureView| !matched_by(x, sv);
                let mut difference: Vec<Structure> = Vec::new();
                proof {
                    assert(mv.take(0) =~= Seq::<StructureView>::empty());
                    assert(seq_view(difference@) =~= Seq::<StructureView>::empty());
                    assert(Seq::<StructureView>::empty().filter(pred) =~= Seq::<
                        StructureView,
                    >::empty()) by {
                        reveal(Seq::filter);
                    }
                }
                let mut i: usize = 0;
                while i < minuend_content.entity.len()
                    invariant
                        i <= minuend_content.entity.len(),
                        seq_view(difference@) == mv.take(i as int).filter(pred),
                    decreases minuend_content.entity.len() - i,
                {
                    proof {
                        assert(mv.take(i as int + 1) =~= mv.take(i as int).push(mv[i as int]));
                        assert(mv[i as int] == minuend_content.entity@[i as int]@);
                    }
                    let keep = !matched_by_any(&minuend_content.entity[i], &sub_content.entity);
                    proof {
                        assert(keep == pred(mv[i as int]));
                        assert(mv.take(i as int).push(mv[i as int]).filter(pred) == if pred(
                            mv[i as int],
                        ) {
                            mv.take(i as int).filter(pred).push(mv[i as int])
                        } else {
                            mv.take(i as int).filter(pred)
                        });
                    }
                    if keep {
                        let ghost oldd = difference@;
                        let item = minuend_content.entity[i].clone();
                        difference.push(item);
                        proof {
                            assert(difference@.drop_last() =~= oldd);
                            assert(seq_view(difference@) == seq_view(difference@.drop_last()).push(
                                difference@.last()@,
                            ));
                            assert(difference@.last()@ == mv[i as int]);
                        }
                    }
                    i = i + 1;
                }
                proof {
                    assert(mv.take(minuend_content.entity@.len() as int) =~= mv);
                }
                Structure::Composition(crate::dataclass::Composition::new(difference))
            },
            _ => {
                proof {
                    assert(false);
                }
                Structure::Composition(crate::dataclass::Composition::new(Vec::new()))
            },
        }
    }

    /// Collects, from the comparison list, the entries that stand for a
    /// member of the parent, first occurrences only.
    pub fn extract_contains_structures(compares: &Vec<Structure>, parent: &Structure) -> (r: Vec<
        Structure,
    >)
        ensures
            seq_view(r@) == spec_extract_contains(seq_view(compares@), parent@),
    {
        crate::function::extract_contains_structures(compares, parent)
    }
}

} // verus!

verus! {

/// The union of compositions is associative: either grouping of three member
/// lists concatenates to the same sequence, so to the same multiset of
/// members.
pub proof fn lemma_union_associative(
    a: Seq<StructureView>,
    b: Seq<StructureView>,
    c: Seq<StructureView>,
)
    ensures
        (a + b) + c == a + (b + c),
        ((a + b) + c).to_multiset() == (a + (b + c)).to_multiset(),
{
    assert((a + b) + c =~= a + (b + c));
}

/// The union of compositions is commutative as a multiset merge: both orders
/// hold the same members with the same multiplicities, duplicates kept.
pub proof fn lemma_union_commutative(a: Seq<StructureView>, b: Seq<StructureView>)
    ensures
        (a + b).to_multiset() == (b + a).to_multiset(),
{
    broadcast use vstd::multiset::group_multiset_axioms;

    vstd::seq_lib::lemma_multiset_commutative(a, b);
    vstd::seq_lib::lemma_multiset_commutative(b, a);
    assert(a.to_multiset().add(b.to_multiset()) =~= b.to_multiset().add(a.to_multiset()));
}

/// A filter that keeps everything changes nothing.
proof fn lemma_filter_stable<A>(s: Seq<A>, p: spec_fn(A) -> bool)
    requires
        forall|i: int| 0 <= i < s.len() ==> p(#[trigger] s[i]),
    ensures
        s.filter(p) == s,
    decreases s.len(),
{
    reveal(Seq::filter);
    if s.len() > 0 {
        assert forall|i: int| 0 <= i < s.drop_last().len() implies p(
            #[trigger] s.drop_last()[i],
        ) by {
            assert(s.drop_last()[i] == s[i]);
        }
        lemma_filter_stable(s.drop_last(), p);
        assert(p(s[s.len() - 1]));
        assert(s.filter(p) =~= s);
    } else {
        assert(s.filter(p) =~= s);
    }
}

/// A filter that keeps nothing leaves nothing.
proof fn lemma_filter_empty<A>(s: Seq<A>, p: spec_fn(A) -> bool)
    requires
        forall|i: int| 0 <= i < s.len() ==> !p(#[trigger] s[i]),
    ensures
        s.filter(p) == Seq::<A>::empty(),
    decreases s.len(),
{
    reveal(Seq::filter);
    if s.len() > 0 {
        assert forall|i: int| 0 <= i < s.drop_last().len() implies !p(
            #[trigger] s.drop_last()[i],
        ) by {
            assert(s.drop_last()[i] == s[i]);
        }
        lemma_filter_empty(s.drop_last(), p);
        assert(!p(s[s.len() - 1]));
    }
}

/// Removing the members of `b` a second time removes nothing more: the
/// difference is idempotent in its subtrahend.
pub proof fn lemma_subtract_idempotent(a: Seq<StructureView>, b: Seq<StructureView>)
    ensures
        spec_subtract(spec_subtract(a, b), b) == spec_subtract(a, b),
{
    let p = |x: StructureView| !matched_by(x, b);
    let once = a.filter(p);
    assert forall|i: int| 0 <= i < once.len() implies p(#[trigger] once[i]) by {
        a.lemma_filter_pred(p, i);
    }
    lemma_filter_stable(once, p);
}

/// Subtracting a composition from itself leaves nothing, as long as every
/// member stands for itself (an element always does; a composition of
/// elements does; a composition holding a nested composition does not).
pub proof fn lemma_subtract_self(a: Seq<StructureView>)
    requires
        forall|i: int| 0 <= i < a.len() ==> spec_matches(#[trigger] a[i], a[i]),
    ensures
        spec_subtract(a, a) == Seq::<StructureView>::empty(),
{
    let p = |x: StructureView| !matched_by(x, a);
    assert forall|i: int| 0 <= i < a.len() implies !p(#[trigger] a[i]) by {
        assert(spec_matches(a[i], a[i]));
        assert(matched_by(a[i], a));
    }
    lemma_filter_empty(a, p);
}

} // verus!
