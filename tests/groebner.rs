use grobner_basis::division::AlgebraError;
use grobner_basis::groebner::{buchberger, sploy};
use grobner_basis::order::{GradLex, Lex, Order};
use grobner_basis::polynomial::{HeadMonomial, Monomial, Polynomial};
use grobner_basis::term::Term;
use grobner_basis::variable::var;

const X: usize = 23;
const Y: usize = 24;
const Z: usize = 25;

fn term(pairs: &[(usize, usize)]) -> Term {
    Term::new(pairs.iter().map(|&(v, e)| (var(v), e)).collect()).unwrap()
}

fn poly<O: Order>(ms: &[(i64, &[(usize, usize)])]) -> Polynomial<O> {
    Polynomial::from_monomials(ms.iter().map(|(c, t)| Monomial::new(*c, term(t))).collect())
}

fn reduces_to_zero<O: Order>(basis: &[Polynomial<O>]) -> bool {
    for i in 0..basis.len() {
        for j in 0..basis.len() {
            if i == j {
                continue;
            }
            let mut s = sploy(&basis[i], &basis[j]).unwrap();
            for g in basis {
                s = s.div_euclid(g).unwrap().1;
            }
            if !s.is_zero() {
                return false;
            }
        }
    }
    true
}

#[test]
fn sploy_cancels_leading_terms() {
    // S(x^2 - y, x^3 - z) = x(x^2 - y) - (x^3 - z) = -xy + z
    let f: Polynomial<Lex> = poly(&[(1, &[(X, 2)]), (-1, &[(Y, 1)])]);
    let g: Polynomial<Lex> = poly(&[(1, &[(X, 3)]), (-1, &[(Z, 1)])]);
    let s = sploy(&f, &g).unwrap();
    assert_eq!(s, poly(&[(-1, &[(X, 1), (Y, 1)]), (1, &[(Z, 1)])]));
}

#[test]
fn sploy_uses_leading_coefficients() {
    // S(2x, 3y) = 3y * 2x - 2x * 3y = 0
    let f: Polynomial<Lex> = poly(&[(2, &[(X, 1)])]);
    let g: Polynomial<Lex> = poly(&[(3, &[(Y, 1)])]);
    assert!(sploy(&f, &g).unwrap().is_zero());
}

#[test]
fn buchberger_lex() {
    let input: Vec<Polynomial<Lex>> = vec![
        poly(&[(1, &[(X, 2)]), (-1, &[(Y, 1)])]),
        poly(&[(1, &[(X, 3)]), (-1, &[(Z, 1)])]),
    ];
    let basis = buchberger(&input).unwrap();
    assert!(basis.len() >= 2);
    assert_eq!(basis[0], input[0]);
    assert_eq!(basis[1], input[1]);
    assert!(reduces_to_zero(&basis));
}

#[test]
fn buchberger_grad_lex() {
    let input: Vec<Polynomial<GradLex>> = vec![
        poly(&[(1, &[(X, 1), (Y, 3)]), (-1, &[(X, 2)])]),
        poly(&[(1, &[(X, 3), (Y, 2)]), (-1, &[(Y, 1)])]),
    ];
    let basis = buchberger(&input).unwrap();
    assert_eq!(basis[0], input[0]);
    assert_eq!(basis[1], input[1]);
    assert!(reduces_to_zero(&basis));
}

#[test]
fn buchberger_is_idempotent() {
    let input: Vec<Polynomial<Lex>> = vec![
        poly(&[(1, &[(X, 2)]), (-1, &[(Y, 1)])]),
        poly(&[(1, &[(X, 3)]), (-1, &[(Z, 1)])]),
    ];
    let basis = buchberger(&input).unwrap();
    let again = buchberger(&basis).unwrap();
    assert_eq!(again, basis);
}

#[test]
fn buchberger_keeps_a_groebner_basis() {
    let input: Vec<Polynomial<Lex>> = vec![poly(&[(1, &[(X, 1)])]), poly(&[(1, &[(Y, 1)])])];
    let basis = buchberger(&input).unwrap();
    assert_eq!(basis, input);
}

#[test]
fn buchberger_rejects_zero_generator() {
    let input: Vec<Polynomial<Lex>> = vec![poly(&[(1, &[(X, 1)])]), Polynomial::zero()];
    assert_eq!(buchberger(&input), Err(AlgebraError::ZeroDivisor));
}

#[test]
fn buchberger_appends_remainder() {
    // {xy - 1, y^2 - 1}: S = y(xy - 1) - x(y^2 - 1) = x - y, which is new
    let input: Vec<Polynomial<Lex>> = vec![
        poly(&[(1, &[(X, 1), (Y, 1)]), (-1, &[])]),
        poly(&[(1, &[(Y, 2)]), (-1, &[])]),
    ];
    let basis = buchberger(&input).unwrap();
    assert!(basis.len() > 2);
    assert!(basis.iter().all(|p| !p.is_zero()));
    assert!(reduces_to_zero(&basis));
    assert_eq!(basis[2].lead_term(), term(&[(X, 1)]));
}

#[test]
fn sploy_exponent_overflow() {
    let big = usize::MAX;
    let f: Polynomial<Lex> = poly(&[(1, &[(X, big)]), (1, &[(Y, big)])]);
    let g: Polynomial<Lex> = poly(&[(1, &[(Y, 1)])]);
    assert_eq!(sploy(&f, &g), Err(AlgebraError::ExponentOverflow));
}
