use grobner_basis::ring::Zn;

fn z5(v: u32) -> Zn {
    Zn::new(v, 5).unwrap()
}

#[test]
fn finit_ring() {
    assert_eq!(z5(3).modulus(), 5);

    assert_eq!(Zn::one(5), z5(1));
    assert!(Zn::one(5).is_one());
    assert!(!Zn::one(5).is_zero());
    assert_eq!(Zn::zero(5), z5(0));
    assert!(Zn::zero(5).is_zero());
    assert!(!Zn::one(5).is_zero());

    assert_eq!(z5(3).neg().value(), 2);

    assert_eq!(z5(3).add(z5(4)).value(), 2);

    assert_eq!(z5(3).sub(z5(4)).value(), 4);
    assert_eq!(z5(4).sub(z5(3)).value(), 1);

    assert_eq!(z5(4).mul(z5(3)).value(), 2);
    assert_eq!(z5(2).mul(z5(3)).value(), 1);
    assert_eq!(z5(2).mul(z5(2)).value(), 4);
}

#[test]
fn ring_rejects_out_of_range() {
    assert!(Zn::new(5, 5).is_none());
    assert_eq!(z5(0).neg(), z5(0));
}

#[test]
fn ring_modulo_one() {
    assert!(Zn::zero(1).is_zero());
    assert_eq!(Zn::zero(1).add(Zn::zero(1)).value(), 0);
}
