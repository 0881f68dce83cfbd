use grobner_basis::division::AlgebraError;
use grobner_basis::notation;
use grobner_basis::notation::{parse_monomial_in, parse_term};
use grobner_basis::order::{GradLex, Lex, Order};
use grobner_basis::polynomial::{HeadMonomial, Monomial, Polynomial};
use grobner_basis::term::{Degree, Term};
use grobner_basis::variable::var;
use std::cmp::Ordering;

const X: usize = 23;
const Y: usize = 24;

fn term(pairs: &[(usize, usize)]) -> Term {
    Term::new(pairs.iter().map(|&(v, e)| (var(v), e)).collect()).unwrap()
}

fn poly<O: Order>(ms: &[(i64, &[(usize, usize)])]) -> Polynomial<O> {
    Polynomial::from_monomials(ms.iter().map(|(c, t)| Monomial::new(*c, term(t))).collect())
}

// x^2 + -3xy + 2x^2y^3 + y^2 + 2
fn f<O: Order>() -> Polynomial<O> {
    poly(&[
        (1, &[(X, 2)]),
        (-3, &[(X, 1), (Y, 1)]),
        (2, &[(X, 2), (Y, 3)]),
        (1, &[(Y, 2)]),
        (2, &[]),
    ])
}

// x + xy + x^2y + x^2 + 1
fn g<O: Order>() -> Polynomial<O> {
    poly(&[
        (1, &[(X, 1)]),
        (1, &[(X, 1), (Y, 1)]),
        (1, &[(X, 2), (Y, 1)]),
        (1, &[(X, 2)]),
        (1, &[]),
    ])
}

fn text<O: Order>(s: &str) -> Polynomial<O> {
    let chars: Vec<char> = s.chars().collect();
    notation::parse_polynomial(&chars).unwrap()
}

#[test]
fn parse_polynomial() {
    let f: Polynomial<Lex> = text("x^2+-3xy+2x^2y^3+y^2+2");
    assert_eq!(f.to_string(), "2x²y³ + x² + -3xy + y² + 2");
}

#[test]
fn add_polynomial() {
    let f: Polynomial<Lex> = text("x^2+-3xy+2x^2y^3+y^2+2");
    let g: Polynomial<Lex> = text("x+xy+x^2y+x^2+1");
    let result: Polynomial<Lex> = text("2x^2+-2xy+2x^2y^3+y^2+x+x^2y+3");

    assert_eq!(f.add(&g), result);
}

#[test]
fn sub_polynomial() {
    let f: Polynomial<Lex> = text("x^2+-3xy+2x^2y^3+y^2+2");
    let g: Polynomial<Lex> = text("x+xy+x^2y+x^2+1");
    let result: Polynomial<Lex> = text("-4xy+2x^2y^3+y^2+1+-x+-x^2y");

    assert_eq!(f.sub(&g), result);
}

#[test]
fn mul_polynomial() {
    let f: Polynomial<Lex> = text("x^2+-3xy+2x^2y^3+y^2+2");
    let g: Polynomial<Lex> = text("x+xy+x^2y+x^2+1");
    let result: Polynomial<Lex> = text("2x^4y^4+2x^4y^3+x^4y+x^4+2x^3y^4+2x^3y^3+-3x^3y^2+-2x^3y+x^3+3x^2y^3+-2x^2y^2+-x^2y+3x^2+xy^3+xy^2+-xy+2x+y^2+2");

    assert_eq!(f.mul(&g), result);
}

#[test]
fn div_euclid_polynomial() {
    let f: Polynomial<Lex> = text("x^2+-3xy+2x^2y^3+y^2+2");
    let g: Polynomial<Lex> = text("x+xy+x^2y+x^2+1");

    let (q, r) = f.div_euclid(&g).unwrap();

    assert!(Lex::cmp(&r.lead_term(), &g.lead_term()) == Ordering::Less);
    assert_eq!(f, q.mul(&g).add(&r));
}

#[test]
fn mul_polynomial_matches_built_value() {
    // the same product, with the expected value built monomial by monomial
    let result: Polynomial<Lex> = poly(&[
        (2, &[(X, 4), (Y, 4)]),
        (2, &[(X, 4), (Y, 3)]),
        (1, &[(X, 4), (Y, 1)]),
        (1, &[(X, 4)]),
        (2, &[(X, 3), (Y, 4)]),
        (2, &[(X, 3), (Y, 3)]),
        (-3, &[(X, 3), (Y, 2)]),
        (-2, &[(X, 3), (Y, 1)]),
        (1, &[(X, 3)]),
        (3, &[(X, 2), (Y, 3)]),
        (-2, &[(X, 2), (Y, 2)]),
        (-1, &[(X, 2), (Y, 1)]),
        (3, &[(X, 2)]),
        (1, &[(X, 1), (Y, 3)]),
        (1, &[(X, 1), (Y, 2)]),
        (-1, &[(X, 1), (Y, 1)]),
        (2, &[(X, 1)]),
        (1, &[(Y, 2)]),
        (2, &[]),
    ]);
    assert_eq!(f::<Lex>().mul(&g()), result);
}

#[test]
fn parse_rejects_malformed_text() {
    let bad = |s: &str| {
        let chars: Vec<char> = s.chars().collect();
        notation::parse_polynomial::<Lex>(&chars).is_none()
    };
    assert!(bad("yx"));
    assert!(bad("x^"));
    assert!(bad("x^0"));
    assert!(bad("3 x"));
    assert!(bad("x^99999999999999999999999"));
    assert!(bad("99999999999999999999x"));
    assert!(!bad(" x + -y "));
    // an empty monomial has coefficient one and the constant term
    let p: Polynomial<Lex> = text("x+");
    assert_eq!(p, text("x + 1"));
}

#[test]
fn parse_pieces() {
    let chars: Vec<char> = "-x^2y".chars().collect();
    let m = parse_monomial_in(&chars, 0, chars.len()).unwrap();
    assert_eq!(m.coeff, -1);
    assert_eq!(m.term, term(&[(X, 2), (Y, 1)]));
    let chars: Vec<char> = "-9223372036854775808".chars().collect();
    assert_eq!(parse_monomial_in(&chars, 0, chars.len()).unwrap().coeff, i64::MIN);
    let chars: Vec<char> = "9223372036854775808".chars().collect();
    assert!(parse_monomial_in(&chars, 0, chars.len()).is_none());
    let chars: Vec<char> = "ab^3".chars().collect();
    assert_eq!(parse_term(&chars).unwrap(), term(&[(0, 1), (1, 3)]));
    // equal terms add up
    let p: Polynomial<Lex> = text("2x + 3x + -5x + 7");
    assert_eq!(p, poly(&[(7, &[])]));
}

#[test]
fn display_text() {
    let zero: Polynomial<Lex> = Polynomial::zero();
    assert_eq!(zero.to_string(), "0");
    let p: Polynomial<Lex> = text("1 + -1x + x^12");
    assert_eq!(p.to_string(), "x¹² + -1x + 1");
    let q: Polynomial<GradLex> = poly(&[(1, &[(26, 1), (27, 2)])]);
    assert_eq!(q.to_string(), "aaab²");
}

#[test]
fn div_euclid_graded_identity() {
    let f: Polynomial<GradLex> = f();
    let g: Polynomial<GradLex> = g();
    let (q, r) = f.div_euclid(&g).unwrap();
    assert_eq!(f, q.mul(&g).add(&r));
    assert!(!q.is_zero());
}

#[test]
fn div_euclid_exact_quotient() {
    // (x^2 - y^2) / (x - y) = x + y, remainder 0
    let f: Polynomial<Lex> = poly(&[(1, &[(X, 2)]), (-1, &[(Y, 2)])]);
    let g: Polynomial<Lex> = poly(&[(1, &[(X, 1)]), (-1, &[(Y, 1)])]);
    let (q, r) = f.div_euclid(&g).unwrap();
    assert_eq!(q, poly(&[(1, &[(X, 1)]), (1, &[(Y, 1)])]));
    assert!(r.is_zero());
}

#[test]
fn div_euclid_by_constant_stops_at_zero() {
    let f: Polynomial<Lex> = poly(&[(4, &[(X, 1)]), (6, &[])]);
    let g: Polynomial<Lex> = poly(&[(2, &[])]);
    let (q, r) = f.div_euclid(&g).unwrap();
    assert_eq!(q, poly(&[(2, &[(X, 1)]), (3, &[])]));
    assert!(r.is_zero());
}

#[test]
fn div_euclid_coefficient_not_divisible() {
    // 3x / 2x: 2 does not divide 3, nothing is reduced
    let f: Polynomial<Lex> = poly(&[(3, &[(X, 1)])]);
    let g: Polynomial<Lex> = poly(&[(2, &[(X, 1)])]);
    let (q, r) = f.div_euclid(&g).unwrap();
    assert!(q.is_zero());
    assert_eq!(r, f);
}

#[test]
fn div_euclid_by_zero_is_an_error() {
    let f: Polynomial<Lex> = f();
    let zero: Polynomial<Lex> = Polynomial::zero();
    assert_eq!(f.div_euclid(&zero), Err(AlgebraError::ZeroDivisor));
}

#[test]
fn div_euclid_exponent_overflow() {
    let big = usize::MAX;
    let f: Polynomial<Lex> = poly(&[(1, &[(X, 2), (Y, big)])]);
    let g: Polynomial<Lex> = poly(&[(1, &[(X, 1)]), (1, &[(Y, big)])]);
    assert_eq!(f.div_euclid(&g), Err(AlgebraError::ExponentOverflow));
}

#[test]
fn sub_after_add_gives_back() {
    let f: Polynomial<Lex> = f();
    let g: Polynomial<Lex> = g();
    assert_eq!(f.add(&g).sub(&g), f);
    assert!(f.sub(&f).is_zero());
}

#[test]
fn coefficients_wrap_modulo_two_to_the_64() {
    let a: Polynomial<Lex> = poly(&[(i64::MAX, &[(X, 1)])]);
    let b: Polynomial<Lex> = poly(&[(1, &[(X, 1)])]);
    assert_eq!(a.add(&b), poly(&[(i64::MIN, &[(X, 1)])]));
}

#[test]
fn from_monomials_merges_and_drops_zero() {
    let p: Polynomial<Lex> = poly(&[(2, &[(X, 1)]), (3, &[]), (-2, &[(X, 1)]), (1, &[])]);
    assert_eq!(p, poly(&[(4, &[])]));
    let ms = p.iter();
    assert_eq!(ms.len(), 1);
    assert_eq!(ms[0].coeff, 4);
}

#[test]
fn lead_monomial_is_the_largest() {
    let f: Polynomial<Lex> = f();
    assert_eq!(f.lead_coeff(), 2);
    assert_eq!(f.lead_term(), term(&[(X, 2), (Y, 3)]));
    let zero: Polynomial<Lex> = Polynomial::zero();
    assert_eq!(zero.lead_coeff(), 0);
    assert_eq!(zero.lead_term(), Term::one());
    let ms = f.iter();
    assert_eq!(ms.len(), 5);
    assert_eq!(ms[0].term, Term::one());
    assert_eq!(ms[4].term, term(&[(X, 2), (Y, 3)]));
}

#[test]
fn mul_monomial_scales_every_term() {
    let g: Polynomial<Lex> = poly(&[(1, &[(X, 1)]), (-1, &[])]);
    let r = g.mul_monomial(3, &term(&[(Y, 2)]));
    assert_eq!(r, poly(&[(3, &[(X, 1), (Y, 2)]), (-3, &[(Y, 2)])]));
}

#[test]
fn polynomial_degree_is_the_largest_term_degree() {
    let f: Polynomial<Lex> = f();
    assert_eq!(f.deg(), 5);
    let zero: Polynomial<Lex> = Polynomial::default();
    assert_eq!(zero.deg(), 0);
}
