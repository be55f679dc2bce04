use rt_core::interval::Interval;
use rt_core::scalar::Scalar;

fn iv(x: f64) -> Scalar {
    Scalar::from_raw((x * 4294967296.0).round() as i64)
}

#[test]
fn new_keeps_the_ends() {
    let i = Interval::new(iv(1.0), iv(3.0));
    assert_eq!(i.min, iv(1.0));
    assert_eq!(i.max, iv(3.0));
}

#[test]
fn size_is_max_less_min() {
    assert_eq!(Interval::new(iv(1.0), iv(3.5)).size(), iv(2.5));
    assert_eq!(Interval::new(iv(3.0), iv(1.0)).size(), iv(-2.0));
    assert_eq!(Interval::universe().size(), Scalar::infinity());
    assert_eq!(Interval::empty().size(), Scalar::neg_infinity());
}

#[test]
fn contains_includes_the_ends() {
    let i = Interval::new(iv(1.0), iv(3.0));
    assert!(i.contains(iv(1.0)));
    assert!(i.contains(iv(2.0)));
    assert!(i.contains(iv(3.0)));
    assert!(!i.contains(iv(0.999)));
    assert!(!i.contains(iv(3.001)));
}

#[test]
fn surrounds_excludes_the_ends() {
    let i = Interval::new(iv(1.0), iv(3.0));
    assert!(!i.surrounds(iv(1.0)));
    assert!(i.surrounds(iv(2.0)));
    assert!(!i.surrounds(iv(3.0)));
    assert!(i.surrounds(Scalar::from_raw(iv(1.0).raw() + 1)));
}

#[test]
fn empty_holds_nothing() {
    let e = Interval::empty();
    assert_eq!(e.min, Scalar::infinity());
    assert_eq!(e.max, Scalar::neg_infinity());
    assert!(!e.contains(Scalar::zero()));
    assert!(!e.contains(Scalar::infinity()));
    assert!(!e.contains(Scalar::neg_infinity()));
    assert!(!e.surrounds(Scalar::zero()));
}

#[test]
fn universe_holds_everything() {
    let u = Interval::universe();
    assert!(u.contains(Scalar::zero()));
    assert!(u.contains(Scalar::infinity()));
    assert!(u.contains(Scalar::neg_infinity()));
    assert!(u.surrounds(iv(1.0e9)));
    assert!(!u.surrounds(Scalar::infinity()));
}

#[test]
fn default_is_the_universe() {
    let d = Interval::default();
    assert_eq!(d, Interval::universe());
}

#[test]
fn clamp_moves_into_the_interval() {
    let i = Interval::new(Scalar::zero(), iv(0.999));
    assert_eq!(i.clamp(iv(-1.0)), Scalar::zero());
    assert_eq!(i.clamp(iv(0.5)), iv(0.5));
    assert_eq!(i.clamp(iv(1.0)), iv(0.999));
    assert_eq!(i.clamp(Scalar::infinity()), iv(0.999));
    assert_eq!(i.clamp(Scalar::zero()), Scalar::zero());
}
