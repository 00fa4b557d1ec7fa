//! The assignment enumerator: materializes the `index`-th value labeling of a
//! structure list by reading the index as a base-`d` number, least
//! significant digit first, one digit per element member.

use vstd::prelude::*;
use vstd::arithmetic::power::pow;

use crate::dataclass::{seq_view, Structure, StructureView};
use crate::dataclass::lemma_seq_view_index;

verus! {

broadcast use vstd::std_specs::vec::group_vec_axioms;

/// The view with its element value replaced.
pub open spec fn with_value(v: StructureView, value: Option<i32>) -> StructureView
    recommends
        v.is_element(),
{
    StructureView::Element {
        elem: crate::dataclass::Element { val: value, attr: v.elem().attr, coor: v.elem().coor },
    }
}

/// The member list with values assigned by mixed-radix decomposition of the
/// index: each element member in turn takes the domain entry selected by the
/// next base-`domain.len()` digit; other members pass through unchanged and
/// consume no digit.
pub open spec fn assign_seq(
    s: Seq<StructureView>,
    domain: Seq<Option<i32>>,
    index: int,
) -> Seq<StructureView>
    decreases s.len(),
{
    if s.len() == 0 {
        Seq::empty()
    } else if s.first().is_element() {
        seq![with_value(s.first(), domain[index % domain.len() as int])] + assign_seq(
            s.drop_first(),
            domain,
            index / domain.len() as int,
        )
    } else {
        seq![s.first()] + assign_seq(s.drop_first(), domain, index)
    }
}

/// How many members of the list are elements: the number of digits an
/// assignment consumes.
pub open spec fn element_count(s: Seq<StructureView>) -> nat
    decreases s.len(),
{
    if s.len() == 0 {
        0
    } else {
        element_count(s.drop_first()) + if s.first().is_element() {
            1nat
        } else {
            0nat
        }
    }
}

/// Materializes one assignment: a copy of the structure list in which the
/// `index`-th labeling over the domain has been written into the element
/// members, least significant digit first.
#[verifier::loop_isolation(false)]
pub fn assign_values(structures: &Vec<Structure>, domain: &Vec<Option<i32>>, index: u64) -> (r: Vec<
    Structure,
>)
    requires
        domain@.len() >= 1,
    ensures
        seq_view(r@) == assign_seq(seq_view(structures@), domain@, index as int),
{
    proof {
        lemma_seq_view_index(structures@);
    }
    let ghost sv = seq_view(structures@);
    let mut out: Vec<Structure> = Vec::new();
    let mut idx: u64 = index;
    proof {
        assert(sv.skip(0) =~= sv);
        assert(seq_view(out@) =~= Seq::<StructureView>::empty());
    }
    let mut i: usize = 0;
    while i < structures.len()
        invariant
            i <= structures.len(),
            domain@.len() >= 1,
            seq_view(out@) + assign_seq(sv.skip(i as int), domain@, idx as int) == assign_seq(
                sv,
                domain@,
                index as int,
            ),
        decreases structures.len() - i,
    {
        let ghost oldout = seq_view(out@);
        let ghost oldidx = idx as int;
        proof {
            assert(sv.skip(i as int).first() == sv[i as int]);
            assert(sv[i as int] == structures@[i as int]@);
            assert(sv.skip(i as int).drop_first() =~= sv.skip(i as int + 1));
        }
        match &structures[i] {
            Structure::Element(point) => {
                let d = domain.len() as u64;
                let digit = (idx % d) as usize;
                idx = idx / d;
                let value = domain[digit];
                let assigned = Structure::Element(crate::dataclass::Element {
                    val: value,
                    attr: point.attr,
                    coor: point.coor,
                });
                let ghost oldo = out@;
                out.push(assigned);
                proof {
                    assert(out@.drop_last() =~= oldo);
                    assert(structures@[i as int]@ == (StructureView::Element { elem: *point }));
                    assert(value == domain@[oldidx % domain@.len() as int]);
                    assert(out@.last()@ == with_value(
                        sv[i as int],
                        domain@[oldidx % domain@.len() as int],
                    ));
                    assert(seq_view(out@) == oldout.push(
                        with_value(sv[i as int], domain@[oldidx % domain@.len() as int]),
                    ));
                    assert(assign_seq(sv.skip(i as int), domain@, oldidx) == seq![
                        with_value(sv[i as int], domain@[oldidx % domain@.len() as int]),
                    ] + assign_seq(sv.skip(i as int + 1), domain@, idx as int));
                    assert(seq_view(out@) + assign_seq(sv.skip(i as int + 1), domain@, idx as int)
                        =~= oldout + assign_seq(sv.skip(i as int), domain@, oldidx));
                }
            },
            _ => {
                let cloned = structures[i].clone();
                let ghost oldo = out@;
                out.push(cloned);
                proof {
                    assert(out@.drop_last() =~= oldo);
                    assert(seq_view(out@) == oldout.push(sv[i as int]));
                    assert(!sv[i as int].is_element());
                    assert(assign_seq(sv.skip(i as int), domain@, oldidx) == seq![sv[i as int]]
                        + assign_seq(sv.skip(i as int + 1), domain@, idx as int));
                    assert(seq_view(out@) + assign_seq(sv.skip(i as int + 1), domain@, idx as int)
                        =~= oldout + assign_seq(sv.skip(i as int), domain@, oldidx));
                }
            },
        }
        i = i + 1;
    }
    proof {
        assert(sv.skip(structures@.len() as int) =~= Seq::<StructureView>::empty());
        assert(assign_seq(Seq::empty(), domain@, idx as int) =~= Seq::<StructureView>::empty());
        assert(seq_view(out@) =~= seq_view(out@) + Seq::<StructureView>::empty());
    }
    out
}

/// Two indices that select the same values everywhere are the same index:
/// decoding an index into an assignment and reading the digits back recovers
/// it, so the enumerator visits `d ^ k` pairwise distinct assignments for a
/// domain of size `d` without repeated entries and `k` element members.
pub proof fn lemma_assign_injective(
    s: Seq<StructureView>,
    domain: Seq<Option<i32>>,
    i1: int,
    i2: int,
)
    requires
        domain.len() >= 1,
        domain.no_duplicates(),
        0 <= i1 < pow(domain.len() as int, element_count(s)),
        0 <= i2 < pow(domain.len() as int, element_count(s)),
        assign_seq(s, domain, i1) == assign_seq(s, domain, i2),
    ensures
        i1 == i2,
    decreases s.len(),
{
    let d = domain.len() as int;
    if s.len() == 0 {
        assert(pow(d, 0) == 1) by {
            vstd::arithmetic::power::lemma_pow0(d);
        }
    } else if s.first().is_element() {
        let k = element_count(s);
        let krest = element_count(s.drop_first());
        assert(k == krest + 1);
        assert(pow(d, k) == d * pow(d, krest)) by {
            vstd::arithmetic::power::lemma_pow1(d);
            vstd::arithmetic::power::lemma_pow_adds(d, 1nat, krest);
        }
        let a1 = assign_seq(s, domain, i1);
        let a2 = assign_seq(s, domain, i2);
        assert(a1[0] == with_value(s.first(), domain[i1 % d]));
        assert(a2[0] == with_value(s.first(), domain[i2 % d]));
        assert(domain[i1 % d] == domain[i2 % d]);
        assert(i1 % d == i2 % d);
        assert(a1.drop_first() =~= assign_seq(s.drop_first(), domain, i1 / d));
        assert(a2.drop_first() =~= assign_seq(s.drop_first(), domain, i2 / d));
        assert(0 <= i1 / d < pow(d, krest) && 0 <= i2 / d < pow(d, krest)) by {
            vstd::arithmetic::div_mod::lemma_div_nonincreasing(i1, d);
            vstd::arithmetic::power::lemma_pow_positive(d, krest);
            assert(i1 / d < pow(d, krest)) by (nonlinear_arith)
                requires
                    d >= 1,
                    0 <= i1 < d * pow(d, krest),
            ;
            assert(i2 / d < pow(d, krest)) by (nonlinear_arith)
                requires
                    d >= 1,
                    0 <= i2 < d * pow(d, krest),
            ;
            vstd::arithmetic::div_mod::lemma_div_pos_is_pos(i1, d);
            vstd::arithmetic::div_mod::lemma_div_pos_is_pos(i2, d);
        }
        lemma_assign_injective(s.drop_first(), domain, i1 / d, i2 / d);
        assert(i1 == d * (i1 / d) + i1 % d) by {
            vstd::arithmetic::div_mod::lemma_fundamental_div_mod(i1, d);
        }
        assert(i2 == d * (i2 / d) + i2 % d) by {
            vstd::arithmetic::div_mod::lemma_fundamental_div_mod(i2, d);
        }
    } else {
        let a1 = assign_seq(s, domain, i1);
        let a2 = assign_seq(s, domain, i2);
        assert(a1.drop_first() =~= assign_seq(s.drop_first(), domain, i1));
        assert(a2.drop_first() =~= assign_seq(s.drop_first(), domain, i2));
        lemma_assign_injective(s.drop_first(), domain, i1, i2);
    }
}

} // verus!

verus! {

/// The first `k` base-`base` digits of an index, least significant first.
pub open spec fn index_digits(index: int, base: int, k: nat) -> Seq<int>
    decreases k,
{
    if k == 0 {
        Seq::empty()
    } else {
        seq![index % base] + index_digits(index / base, base, (k - 1) as nat)
    }
}

/// The number a digit sequence denotes, least significant digit first: the
/// sum of digit `j` times `base` to the `j`.
pub open spec fn digits_value(ds: Seq<int>, base: int) -> int
    decreases ds.len(),
{
    if ds.len() == 0 {
        0
    } else {
        ds.first() + base * digits_value(ds.drop_first(), base)
    }
}

/// Digit `j` of an index is the index divided by `base` to the `j`, modulo
/// `base`.
pub proof fn lemma_index_digits_entry(index: int, base: int, k: nat, j: int)
    requires
        base >= 1,
        0 <= index,
        0 <= j < k,
    ensures
        index_digits(index, base, k).len() == k,
        index_digits(index, base, k)[j] == (index / pow(base, j as nat)) % base,
    decreases k,
{
    lemma_index_digits_len(index, base, k);
    if j == 0 {
        vstd::arithmetic::power::lemma_pow0(base);
        assert(index / 1 == index) by {
            vstd::arithmetic::div_mod::lemma_div_basics(index);
        }
        assert(index_digits(index, base, k)[0] == index % base);
    } else {
        vstd::arithmetic::div_mod::lemma_div_pos_is_pos(index, base);
        lemma_index_digits_entry(index / base, base, (k - 1) as nat, j - 1);
        assert(index_digits(index, base, k)[j] == index_digits(index / base, base, (k - 1) as nat)[
            j - 1
        ]);
        assert(pow(base, j as nat) == base * pow(base, (j - 1) as nat)) by {
            vstd::arithmetic::power::lemma_pow1(base);
            vstd::arithmetic::power::lemma_pow_adds(base, 1nat, (j - 1) as nat);
        }
        vstd::arithmetic::power::lemma_pow_positive(base, (j - 1) as nat);
        vstd::arithmetic::div_mod::lemma_div_denominator(index, base, pow(base, (j - 1) as nat));
        assert((index / base) / pow(base, (j - 1) as nat) == index / (base * pow(
            base,
            (j - 1) as nat,
        )));
    }
}

/// A digit vector of `k` positions has length `k`.
pub proof fn lemma_index_digits_len(index: int, base: int, k: nat)
    ensures
        index_digits(index, base, k).len() == k,
    decreases k,
{
    if k > 0 {
        lemma_index_digits_len(index / base, base, (k - 1) as nat);
    }
}

/// Decoding an index into its digit vector and summing the digits back
/// recovers the index: re-encoding is the identity on indices below
/// `base ^ k`, so the `base ^ k` digit vectors — and with them the
/// enumerator's assignments — are pairwise distinct.
pub proof fn lemma_digits_round_trip(index: int, base: int, k: nat)
    requires
        base >= 1,
        0 <= index < pow(base, k),
    ensures
        digits_value(index_digits(index, base, k), base) == index,
    decreases k,
{
    if k == 0 {
        vstd::arithmetic::power::lemma_pow0(base);
    } else {
        let ds = index_digits(index, base, k);
        assert(ds.first() == index % base);
        assert(ds.drop_first() =~= index_digits(index / base, base, (k - 1) as nat));
        assert(pow(base, k) == base * pow(base, (k - 1) as nat)) by {
            vstd::arithmetic::power::lemma_pow1(base);
            vstd::arithmetic::power::lemma_pow_adds(base, 1nat, (k - 1) as nat);
        }
        vstd::arithmetic::power::lemma_pow_positive(base, (k - 1) as nat);
        vstd::arithmetic::div_mod::lemma_div_pos_is_pos(index, base);
        assert(index / base < pow(base, (k - 1) as nat)) by (nonlinear_arith)
            requires
                base >= 1,
                0 <= index < base * pow(base, (k - 1) as nat),
        ;
        lemma_digits_round_trip(index / base, base, (k - 1) as nat);
        vstd::arithmetic::div_mod::lemma_fundamental_div_mod(index, base);
    }
}

/// Distinct indices below `base ^ k` have distinct digit vectors.
pub proof fn lemma_index_digits_injective(i1: int, i2: int, base: int, k: nat)
    requires
        base >= 1,
        0 <= i1 < pow(base, k),
        0 <= i2 < pow(base, k),
        index_digits(i1, base, k) == index_digits(i2, base, k),
    ensures
        i1 == i2,
{
    lemma_digits_round_trip(i1, base, k);
    lemma_digits_round_trip(i2, base, k);
}

/// The materialized assignment has one slot per member.
pub proof fn lemma_assign_seq_len(s: Seq<StructureView>, domain: Seq<Option<i32>>, index: int)
    ensures
        assign_seq(s, domain, index).len() == s.len(),
    decreases s.len(),
{
    if s.len() > 0 {
        if s.first().is_element() {
            lemma_assign_seq_len(s.drop_first(), domain, index / domain.len() as int);
        } else {
            lemma_assign_seq_len(s.drop_first(), domain, index);
        }
    }
}

/// On a list of bare elements, member `j` of the materialized assignment
/// carries the domain entry selected by digit `j` of the index.
pub proof fn lemma_assign_seq_digits(
    s: Seq<StructureView>,
    domain: Seq<Option<i32>>,
    index: int,
    j: int,
)
    requires
        domain.len() >= 1,
        0 <= index,
        0 <= j < s.len(),
        forall|t: int| 0 <= t < s.len() ==> (#[trigger] s[t]).is_element(),
    ensures
        assign_seq(s, domain, index)[j] == with_value(
            s[j],
            domain[index_digits(index, domain.len() as int, s.len() as nat)[j]],
        ),
    decreases j,
{
    let d = domain.len() as int;
    lemma_index_digits_len(index, d, s.len() as nat);
    assert(s.first() == s[0]);
    assert(s[0].is_element());
    lemma_assign_seq_len(s.drop_first(), domain, index / d);
    if j == 0 {
        assert(assign_seq(s, domain, index)[0] == with_value(s[0], domain[index % d]));
        assert(index_digits(index, d, s.len() as nat)[0] == index % d);
    } else {
        assert forall|t: int|
            0 <= t < s.drop_first().len() implies (#[trigger] s.drop_first()[t]).is_element() by {
            assert(s.drop_first()[t] == s[t + 1]);
        }
        vstd::arithmetic::div_mod::lemma_div_pos_is_pos(index, d);
        lemma_assign_seq_digits(s.drop_first(), domain, index / d, j - 1);
        assert(assign_seq(s, domain, index)[j] == assign_seq(s.drop_first(), domain, index / d)[j
            - 1]);
        assert(s.drop_first()[j - 1] == s[j]);
        lemma_index_digits_len(index / d, d, (s.len() - 1) as nat);
        assert(index_digits(index, d, s.len() as nat)[j] == index_digits(
            index / d,
            d,
            (s.len() - 1) as nat,
        )[j - 1]);
    }
}

} // verus!
