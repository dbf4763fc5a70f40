use std::cmp::Ordering;
use surreal::{
    cache_insert, cache_left, cache_right, leq, to_dyadic, Production, SurrealContext, SurrealElement,
    SurrealFinite, SurrealInfinite, SurrealStructure,
};

fn basics(c: &mut SurrealContext) -> (SurrealFinite, SurrealFinite, SurrealFinite) {
    let zero = SurrealFinite::new(c, vec![], vec![]).unwrap();
    let one = SurrealFinite::new(c, vec![zero], vec![]).unwrap();
    let neg_one = SurrealFinite::new(c, vec![], vec![zero]).unwrap();
    (zero, one, neg_one)
}

fn handle(x: SurrealFinite) -> String {
    format!("{:?}", x)
}

#[test]
fn one_is_above_zero_and_cancels() {
    let mut c = SurrealContext::new();
    let (zero, one, _) = basics(&mut c);
    assert!(one.gt(&mut c, zero));
    let minus = one.neg(&mut c);
    let s = one.add(&mut c, minus);
    assert!(s.eq(&mut c, zero));
}

#[test]
fn one_plus_one_is_two() {
    let mut c = SurrealContext::new();
    let (_, one, _) = basics(&mut c);
    let two = one.add(&mut c, one);
    let two_manual = SurrealFinite::new(&mut c, vec![one], vec![]).unwrap();
    assert!(two.eq(&mut c, two_manual));
    assert!(two.gt(&mut c, one));
}

#[test]
fn minus_one_is_below_zero() {
    let mut c = SurrealContext::new();
    let (zero, one, neg_one) = basics(&mut c);
    assert!(neg_one.lt(&mut c, zero));
    let s = neg_one.add(&mut c, one);
    assert!(s.eq(&mut c, zero));
    let n = one.neg(&mut c);
    assert!(n.eq(&mut c, neg_one));
}

#[test]
fn half_lies_between_zero_and_one() {
    let mut c = SurrealContext::new();
    let (zero, one, _) = basics(&mut c);
    let half = SurrealFinite::new(&mut c, vec![zero], vec![one]).unwrap();
    assert!(zero.lt(&mut c, half));
    assert!(half.lt(&mut c, one));
    let sum = half.add(&mut c, half);
    assert!(sum.eq(&mut c, one));
}

#[test]
fn products_of_units() {
    let mut c = SurrealContext::new();
    let (_, one, neg_one) = basics(&mut c);
    let p = one.mul(&mut c, one);
    assert!(p.eq(&mut c, one));
    let q = neg_one.mul(&mut c, neg_one);
    assert!(q.eq(&mut c, one));
    let r = one.mul(&mut c, neg_one);
    assert!(r.eq(&mut c, neg_one));
}

#[test]
fn ill_formed_sets_are_rejected() {
    let mut c = SurrealContext::new();
    let (zero, one, _) = basics(&mut c);
    assert!(SurrealFinite::new(&mut c, vec![one], vec![zero]).is_err());
    assert!(SurrealFinite::new(&mut c, vec![zero], vec![zero]).is_err());
    assert!(SurrealFinite::new(&mut c, vec![zero], vec![one]).is_ok());
}

#[test]
fn zero_and_one_match_their_definitions() {
    let mut c = SurrealContext::new();
    let zero = SurrealFinite::zero(&mut c);
    let zero_manual = SurrealFinite::new(&mut c, vec![], vec![]).unwrap();
    assert_eq!(handle(zero), handle(zero_manual));
    let one = SurrealFinite::one(&mut c);
    let one_manual = SurrealFinite::new(&mut c, vec![zero], vec![]).unwrap();
    assert_eq!(handle(one), handle(one_manual));
    assert!(one.iter_right(&c).is_empty());
    assert_eq!(one.iter_left(&c).len(), 1);
}

#[test]
fn equal_values_may_have_distinct_handles() {
    let mut c = SurrealContext::new();
    let (zero, one, neg_one) = basics(&mut c);
    let other_zero = SurrealFinite::new(&mut c, vec![neg_one], vec![one]).unwrap();
    assert_ne!(handle(other_zero), handle(zero));
    assert!(other_zero.eq(&mut c, zero));
}

#[test]
fn options_are_sorted_on_interning() {
    let mut c = SurrealContext::new();
    let (zero, one, neg_one) = basics(&mut c);
    let x = SurrealFinite::new(&mut c, vec![one, neg_one, zero], vec![]).unwrap();
    let l = x.iter_left(&c);
    assert_eq!(handle(l[0]), handle(neg_one));
    assert_eq!(handle(l[1]), handle(zero));
    assert_eq!(handle(l[2]), handle(one));
    let y = SurrealFinite::new(&mut c, vec![zero, one, neg_one], vec![]).unwrap();
    assert_eq!(handle(x), handle(y));
}

#[test]
fn interning_deduplicates_structures() {
    let mut c = SurrealContext::new();
    let (zero, one, _) = basics(&mut c);
    let a = cache_insert(&mut c, SurrealStructure::new(vec![zero], vec![one]));
    let b = cache_insert(&mut c, SurrealStructure::new(vec![zero], vec![one]));
    assert_eq!(handle(a), handle(b));
    assert_eq!(cache_left(&c, a).len(), 1);
    assert_eq!(handle(cache_right(&c, a)[0]), handle(one));
}

#[test]
fn memoised_results_are_reused() {
    let mut c = SurrealContext::new();
    let (_, one, neg_one) = basics(&mut c);
    let a = one.add(&mut c, neg_one);
    let b = one.add(&mut c, neg_one);
    assert_eq!(handle(a), handle(b));
    let p = neg_one.mul(&mut c, neg_one);
    let q = neg_one.mul(&mut c, neg_one);
    assert_eq!(handle(p), handle(q));
    let n = one.neg(&mut c);
    let m = one.neg(&mut c);
    assert_eq!(handle(n), handle(m));
}

#[test]
fn comparison_operators() {
    let mut c = SurrealContext::new();
    let (zero, one, neg_one) = basics(&mut c);
    assert!(leq(&mut c, zero, one));
    assert!(!leq(&mut c, one, zero));
    assert_eq!(one.cmp(&mut c, zero), Ordering::Greater);
    assert_eq!(neg_one.cmp(&mut c, zero), Ordering::Less);
    assert_eq!(zero.cmp(&mut c, zero), Ordering::Equal);
    assert!(one.ge(&mut c, one));
    assert!(one.ge(&mut c, zero));
    assert!(!zero.ge(&mut c, one));
    assert!(!one.gt(&mut c, one));
}

#[test]
fn compound_assignment_rebinds() {
    let mut c = SurrealContext::new();
    let (zero, one, _) = basics(&mut c);
    let two = one.add(&mut c, one);
    let mut x = one;
    x.add_assign(&mut c, one);
    assert!(x.eq(&mut c, two));
    x.sub_assign(&mut c, one);
    assert!(x.eq(&mut c, one));
    x.mul_assign(&mut c, two);
    assert!(x.eq(&mut c, two));
    x.mul_assign(&mut c, zero);
    assert!(x.eq(&mut c, zero));
}

#[test]
fn omega_truncates_to_an_integer() {
    let mut c = SurrealContext::new();
    let omega = SurrealInfinite::omega();
    let four = omega.to_finite(&mut c, 3).unwrap();
    let (_, one, _) = basics(&mut c);
    let two = one.add(&mut c, one);
    let three = two.add(&mut c, one);
    let four_manual = three.add(&mut c, one);
    assert!(four.eq(&mut c, four_manual));
    assert_eq!(omega.name.as_deref(), Some("ω"));
}

#[test]
fn epsilon_truncates_to_a_small_dyadic() {
    let mut c = SurrealContext::new();
    let eps = SurrealInfinite::epsilon(&mut c);
    let x = eps.to_finite(&mut c, 3).unwrap();
    let (zero, one, _) = basics(&mut c);
    let mut h = one;
    for _ in 0..4 {
        h = SurrealFinite::new(&mut c, vec![zero], vec![h]).unwrap();
    }
    assert!(x.eq(&mut c, h));
    assert!(zero.lt(&mut c, x));
}

#[test]
fn finite_values_pass_through_the_infinite_form() {
    let mut c = SurrealContext::new();
    let (zero, one, _) = basics(&mut c);
    let half = SurrealFinite::new(&mut c, vec![zero], vec![one]).unwrap();
    let inf = SurrealInfinite::from_finite(&c, half);
    let back = inf.to_finite(&mut c, 5).unwrap();
    assert_eq!(handle(back), handle(half));
    let e = SurrealElement::Finite(half);
    assert_eq!(handle(e.coerce_finite()), handle(half));
    match inf.to_element() {
        SurrealElement::Infinite(_) => {}
        SurrealElement::Finite(_) => panic!("expected an infinite element"),
    }
}

#[test]
fn truncation_reports_ill_formed_sets() {
    let mut c = SurrealContext::new();
    let (zero, one, _) = basics(&mut c);
    let bad = SurrealInfinite::new(
        Production::Listed(vec![one]),
        Production::Listed(vec![zero]),
        None,
    );
    assert!(bad.to_finite(&mut c, 2).is_none());
    let empty = SurrealInfinite::new(Production::Naturals, Production::Halvings, None);
    let z = empty.to_finite(&mut c, 0).unwrap();
    assert!(z.eq(&mut c, zero));
}

#[test]
fn productions_yield_their_members() {
    let mut c = SurrealContext::new();
    let (zero, one, _) = basics(&mut c);
    let n = Production::Naturals.take(&mut c, 2);
    assert_eq!(n.len(), 2);
    assert!(n[0].eq(&mut c, one));
    let two = one.add(&mut c, one);
    assert!(n[1].eq(&mut c, two));
    let h = Production::Halvings.take(&mut c, 1);
    let half = SurrealFinite::new(&mut c, vec![zero], vec![one]).unwrap();
    assert!(h[0].eq(&mut c, half));
    let l = Production::Listed(vec![zero, one]).take(&mut c, 5);
    assert_eq!(l.len(), 2);
}

fn as_double(c: &SurrealContext, x: SurrealFinite) -> f64 {
    let (n, e) = to_dyadic(c, x).unwrap();
    n as f64 / 2f64.powi(e as i32)
}

#[test]
fn two_projects_to_two() {
    let mut c = SurrealContext::new();
    let (_, one, _) = basics(&mut c);
    let two = one.add(&mut c, one);
    assert_eq!(as_double(&c, two), 2.0);
    let two_manual = SurrealFinite::new(&mut c, vec![one], vec![]).unwrap();
    assert_eq!(to_dyadic(&c, two_manual), Some((2, 0)));
}

#[test]
fn half_projects_to_one_half() {
    let mut c = SurrealContext::new();
    let (zero, one, neg_one) = basics(&mut c);
    let half = SurrealFinite::new(&mut c, vec![zero], vec![one]).unwrap();
    assert_eq!(to_dyadic(&c, half), Some((1, 1)));
    assert_eq!(as_double(&c, half), 0.5);
    assert_eq!(as_double(&c, neg_one), -1.0);
    assert_eq!(as_double(&c, zero), 0.0);
    let q = SurrealFinite::new(&mut c, vec![half], vec![one]).unwrap();
    assert_eq!(as_double(&c, q), 0.75);
}

#[test]
fn projection_reports_overflow() {
    let mut c = SurrealContext::new();
    let (zero, one, _) = basics(&mut c);
    let mut h = one;
    for _ in 0..130 {
        h = SurrealFinite::new(&mut c, vec![zero], vec![h]).unwrap();
    }
    assert_eq!(to_dyadic(&c, h), None);
    let mut n = one;
    for _ in 0..40 {
        n = SurrealFinite::new(&mut c, vec![n], vec![]).unwrap();
    }
    assert_eq!(to_dyadic(&c, n), Some((41, 0)));
}
