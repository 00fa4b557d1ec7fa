use puzzle_check::dataclass::{Attribute, Coordinate, Element, Structure};
use puzzle_check::relationship::{relationship, Relationship, D, H, M, V};

#[test]
fn test_H() {
    let p21 = Element::new(Attribute::P, Coordinate(2, 1));
    let p22 = Element::new(Attribute::P, Coordinate(2, 2));
    let p23 = Element::new(Attribute::P, Coordinate(2, 3));
    let hp22 = Element::new(Attribute::Hp, Coordinate(2, 2));
    let hp23 = Element::new(Attribute::Hp, Coordinate(2, 3));
    assert_eq!(H(&p21, &p22), true);
    assert_eq!(H(&p22, &p21), true);
    assert_eq!(H(&hp22, &hp23), true);
    assert_eq!(H(&hp23, &hp22), true);
    assert_eq!(H(&p22, &hp22), true);
    assert_eq!(H(&hp22, &p22), true);
    assert_eq!(H(&p22, &hp23), false);
    assert_eq!(H(&hp23, &p22), false);
    assert_eq!(H(&p21, &hp22), false);
    assert_eq!(H(&hp22, &p21), false);
    assert_eq!(H(&p21, &hp23), false);
    assert_eq!(H(&p21, &p23), false);
}

#[test]
fn test_V() {
    let p23 = Element::new(Attribute::P, Coordinate(2, 3));
    let p33 = Element::new(Attribute::P, Coordinate(3, 3));
    let p43 = Element::new(Attribute::P, Coordinate(4, 3));
    let vp23 = Element::new(Attribute::Vp, Coordinate(2, 3));
    let vp33 = Element::new(Attribute::Vp, Coordinate(3, 3));
    let vp43 = Element::new(Attribute::Vp, Coordinate(4, 3));
    assert_eq!(V(&p23, &p33), true);
    assert_eq!(V(&p33, &p23), true);
    assert_eq!(V(&p23, &vp23), true);
    assert_eq!(V(&vp23, &p23), true);
    assert_eq!(V(&p33, &vp23), true);
    assert_eq!(V(&vp23, &p33), true);
    assert_eq!(V(&vp33, &vp23), true);
    assert_eq!(V(&vp23, &vp33), true);
    assert_eq!(V(&p43, &p23), false);
    assert_eq!(V(&p23, &p43), false);
    assert_eq!(V(&vp23, &vp43), false);
    assert_eq!(V(&vp43, &vp23), false);
    assert_eq!(V(&p23, &vp33), false);
    assert_eq!(V(&vp33, &p23), false);
}

#[test]
fn test_D() {
    let hp31 = Element::new(Attribute::Hp, Coordinate(3, 1));
    let hp32 = Element::new(Attribute::Hp, Coordinate(3, 2));
    let hp33 = Element::new(Attribute::Hp, Coordinate(3, 3));
    let hp41 = Element::new(Attribute::Hp, Coordinate(4, 1));
    let hp42 = Element::new(Attribute::Hp, Coordinate(4, 2));
    let hp43 = Element::new(Attribute::Hp, Coordinate(4, 3));
    let vp22 = Element::new(Attribute::Vp, Coordinate(2, 2));
    let vp23 = Element::new(Attribute::Vp, Coordinate(2, 3));
    let vp32 = Element::new(Attribute::Vp, Coordinate(3, 2));
    let vp33 = Element::new(Attribute::Vp, Coordinate(3, 3));
    let vp42 = Element::new(Attribute::Vp, Coordinate(4, 2));
    let vp43 = Element::new(Attribute::Vp, Coordinate(4, 3));
    let _ = (&hp42, &vp42);
    assert_eq!(D(&vp22, &hp32), true);
    assert_eq!(D(&hp32, &vp22), true);
    assert_eq!(D(&vp22, &hp31), true);
    assert_eq!(D(&hp31, &vp22), true);
    assert_eq!(D(&hp32, &vp23), true);
    assert_eq!(D(&vp23, &hp32), true);
    assert_eq!(D(&vp33, &hp33), true);
    assert_eq!(D(&hp33, &vp23), true);
    assert_eq!(D(&hp43, &vp32), false);
    assert_eq!(D(&vp32, &hp43), false);
    assert_eq!(D(&vp23, &vp43), false);
    assert_eq!(D(&hp41, &vp33), false);
    assert_eq!(D(&vp33, &hp41), false);
    assert_eq!(D(&vp42, &vp33), false);
    assert_eq!(D(&vp33, &vp42), false);
}

#[test]
fn match_is_identity_not_value_equality() {
    let mut a = Element::new(Attribute::C, Coordinate(1, 1));
    let mut b = Element::new(Attribute::C, Coordinate(1, 1));
    a.val = Some(3);
    b.val = Some(7);
    // Same coordinate and attribute: M holds although the values differ.
    assert_eq!(M(&a, &b), true);
    assert_ne!(a.val, b.val);
    // M is reflexive and symmetric.
    assert_eq!(M(&a, &a), true);
    assert_eq!(M(&b, &a), true);
    // A different coordinate or attribute defeats M.
    let c = Element::new(Attribute::C, Coordinate(1, 2));
    let d = Element::new(Attribute::P, Coordinate(1, 1));
    assert_eq!(M(&a, &c), false);
    assert_eq!(M(&a, &d), false);
}

#[test]
fn relationship_lifts_existentially() {
    let c11 = Structure::Element(Element::new(Attribute::C, Coordinate(1, 1)));
    let c12 = Structure::Element(Element::new(Attribute::C, Coordinate(1, 2)));
    let c33 = Structure::Element(Element::new(Attribute::C, Coordinate(3, 3)));
    let c34 = Structure::Element(Element::new(Attribute::C, Coordinate(3, 4)));
    let left = Structure::Composition(puzzle_check::dataclass::Composition::new(vec![
        c11.clone(),
        c33.clone(),
    ]));
    let right = Structure::Composition(puzzle_check::dataclass::Composition::new(vec![
        c12.clone(),
        c34.clone(),
    ]));
    // Some member pair (C(1,1), C(1,2)) is horizontally adjacent.
    assert_eq!(relationship(&left, &right, Relationship::H), true);
    // No member pair is vertically adjacent.
    assert_eq!(relationship(&left, &right, Relationship::V), false);
    // A mixed pair is never related.
    assert_eq!(relationship(&left, &c12, Relationship::H), false);
}
