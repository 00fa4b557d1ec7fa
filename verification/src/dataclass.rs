//! Core data model: grid elements, coordinates, attributes, and the recursive
//! structure type that represents either a single element or a group.

use vstd::prelude::*;

verus! {

broadcast use vstd::std_specs::vec::group_vec_axioms;

/// The kind of grid entity an element represents: point, cell, horizontal or
/// vertical point-edge, horizontal or vertical cell-edge.
#[derive(Clone, Copy, PartialEq, Eq, Structural, Debug, Hash)]
pub enum Attribute {
    P,
    C,
    Hp,
    Vp,
    Hc,
    Vc,
}

/// A grid coordinate: (row, column).
#[derive(Clone, Copy, PartialEq, Eq, Structural, Debug, Hash)]
pub struct Coordinate(pub i32, pub i32);

/// Board dimensions: (rows, columns).
#[derive(Clone, Copy, PartialEq, Eq, Structural, Debug)]
pub struct BoardSize(pub i32, pub i32);

/// The atomic unit of the grid: an attribute, a coordinate, and an optional
/// assigned value. Identity is (attribute, coordinate); the value is payload.
#[derive(Clone, Copy, PartialEq, Eq, Structural, Debug, Hash)]
pub struct Element {
    pub val: Option<i32>,
    pub attr: Attribute,
    pub coor: Coordinate,
}

/// A value-carrying, ordered, possibly-nested group of structures.
#[derive(Debug)]
pub struct Composition {
    pub val: Option<i32>,
    pub entity: Vec<Structure>,
}

/// Either a single element or a composition of structures.
#[derive(Debug)]
pub enum Structure {
    Composition(Composition),
    Element(Element),
}

/// The mathematical value of a `Structure`: the same tree, with the member
/// list of every composition abstracted to a `Seq`.
#[verifier::ext_equal]
pub enum StructureView {
    Composition { val: Option<i32>, entity: Seq<StructureView> },
    Element { elem: Element },
}

impl StructureView {
    /// True of the view of a single element.
    pub open spec fn is_element(self) -> bool {
        self matches StructureView::Element { .. }
    }

    /// True of the view of a composition.
    pub open spec fn is_composition(self) -> bool {
        self matches StructureView::Composition { .. }
    }

    /// The element carried by an element view.
    pub open spec fn elem(self) -> Element
        recommends
            self.is_element(),
    {
        self->Element_elem
    }

    /// The member views of a composition view.
    pub open spec fn entity(self) -> Seq<StructureView>
        recommends
            self.is_composition(),
    {
        self->Composition_entity
    }

    /// The aggregate value of a composition view.
    pub open spec fn val(self) -> Option<i32>
        recommends
            self.is_composition(),
    {
        self->Composition_val
    }
}

/// The views of every structure in a sequence, in order.
pub open spec fn seq_view(s: Seq<Structure>) -> Seq<StructureView>
    decreases s,
{
    if s.len() == 0 {
        Seq::empty()
    } else {
        seq_view(s.drop_last()).push(s.last()@)
    }
}

impl View for Structure {
    type V = StructureView;

    open spec fn view(&self) -> StructureView
        decreases self,
    {
        match self {
            Structure::Element(e) => StructureView::Element { elem: *e },
            Structure::Composition(c) => StructureView::Composition {
                val: c.val,
                entity: seq_view(c.entity@),
            },
        }
    }
}

impl DeepView for Structure {
    type V = StructureView;

    open spec fn deep_view(&self) -> StructureView {
        self@
    }
}

/// `seq_view` is the pointwise view of the sequence.
pub broadcast proof fn lemma_seq_view_index(s: Seq<Structure>)
    ensures
        (#[trigger] seq_view(s)).len() == s.len(),
        forall|i: int| 0 <= i < s.len() ==> seq_view(s)[i] == s[i]@,
    decreases s.len(),
{
    if s.len() > 0 {
        lemma_seq_view_index(s.drop_last());
        assert(seq_view(s) == seq_view(s.drop_last()).push(s.last()@));
        assert forall|i: int| 0 <= i < s.len() implies seq_view(s)[i] == s[i]@ by {
            if i < s.len() - 1 {
                assert(s.drop_last()[i] == s[i]);
            } else {
                assert(s[i] == s.last());
            }
        }
    }
}

/// The view of a vector of structures is its deep view.
pub broadcast proof fn lemma_vec_deep_view(v: Vec<Structure>)
    ensures
        (#[trigger] v.deep_view()) == seq_view(v@),
{
    broadcast use lemma_seq_view_index;

    assert(v.deep_view() =~= seq_view(v@));
}

impl Clone for Structure {
    /// A deep copy: the clone has the same view as the original.
    #[verifier::loop_isolation(false)]
    fn clone(&self) -> (res: Self)
        ensures
            res@ == self@,
        decreases self,
    {
        match self {
            Structure::Element(e) => Structure::Element(*e),
            Structure::Composition(c) => {
                let mut out: Vec<Structure> = Vec::new();
                let mut i: usize = 0;
                while i < c.entity.len()
                    invariant
                        i <= c.entity.len(),
                        out@.len() == i as int,
                        forall|k: int| 0 <= k < i ==> out@[k]@ == c.entity@[k]@,
                    decreases c.entity.len() - i,
                {
                    let s = &c.entity[i];
                    proof {
                        assert(decreases_to!(c.entity => c.entity@[i as int]));
                        assert(decreases_to!(*self => c.entity));
                    }
                    out.push(s.clone());
                    i = i + 1;
                }
                let res = Structure::Composition(Composition { val: c.val, entity: out });
                proof {
                    lemma_seq_view_index(out@);
                    lemma_seq_view_index(c.entity@);
                    assert(seq_view(out@) =~= seq_view(c.entity@));
                    assert(res@ =~= self@);
                }
                res
            }
        }
    }
}

impl Clone for Composition {
    /// A deep copy: value kept, members cloned in order.
    fn clone(&self) -> (res: Self)
        ensures
            res.val == self.val,
            seq_view(res.entity@) == seq_view(self.entity@),
    {
        let entity = clone_structures(&self.entity);
        Composition { val: self.val, entity }
    }
}

/// Clones a vector of structures; the deep view is kept.
pub fn clone_structures(v: &Vec<Structure>) -> (res: Vec<Structure>)
    ensures
        res.deep_view() == v.deep_view(),
        res@.len() == v@.len(),
        seq_view(res@) == seq_view(v@),
{
    let res = v.clone();
    proof {
        broadcast use lemma_seq_view_index;

        assert forall|i: int| 0 <= i < v@.len() implies res@[i]@ == v@[i]@ by {
            assert(vstd::pervasive::cloned::<Structure>(v@[i], res@[i]));
        }
        assert(res.deep_view() =~= v.deep_view());
        assert(seq_view(res@) =~= seq_view(v@));
    }
    res
}

impl Element {
    /// Builds an element with the given identity and no value yet.
    pub fn new(attr: Attribute, coor: Coordinate) -> (r: Self)
        ensures
            r == (Element { val: None, attr, coor }),
    {
        Element { val: None, attr, coor }
    }
}

impl Composition {
    /// Builds a composition over the given members, with no value yet.
    pub fn new(entity: Vec<Structure>) -> (r: Self)
        ensures
            r.val == None::<i32>,
            r.entity == entity,
    {
        Composition { val: None, entity }
    }
}

impl Coordinate {
    /// Moves the coordinate by the given difference.
    fn change_coordinate(&mut self, coor: Coordinate)
        requires
            i32::MIN <= old(self).0 + coor.0 <= i32::MAX,
            i32::MIN <= old(self).1 + coor.1 <= i32::MAX,
        ensures
            final(self).0 == old(self).0 + coor.0,
            final(self).1 == old(self).1 + coor.1,
    {
        self.0 += coor.0;
        self.1 += coor.1;
    }

    /// The two grid points beside a horizontal edge at this coordinate:
    /// the coordinate itself and its right neighbour. The neighbour may lie
    /// outside the board.
    pub fn horizon_points(&self) -> (r: (Coordinate, Coordinate))
        requires
            self.1 < i32::MAX,
        ensures
            r.0 == *self,
            r.1.0 == self.0,
            r.1.1 == self.1 + 1,
    {
        let left = *self;
        let mut right = *self;
        right.change_coordinate(Coordinate(0, 1));
        (left, right)
    }

    /// The two grid points beside a vertical edge at this coordinate:
    /// the coordinate itself and its lower neighbour. The neighbour may lie
    /// outside the board.
    pub fn vertical_points(&self) -> (r: (Coordinate, Coordinate))
        requires
            self.0 < i32::MAX,
        ensures
            r.0 == *self,
            r.1.0 == self.0 + 1,
            r.1.1 == self.1,
    {
        let top = *self;
        let mut bottom = *self;
        bottom.change_coordinate(Coordinate(1, 0));
        (top, bottom)
    }
}

} // verus!
