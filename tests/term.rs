use grobner_basis::notation::{number_to_subscript, number_to_superscript, parse_term};
use grobner_basis::order::{GradLex, Lex, Order};
use grobner_basis::polynomial::Monomial;
use grobner_basis::join::{join_terms, Joined};
use grobner_basis::term::{div_term_term, lcm, mul_term_term, Degree, Term};
use grobner_basis::variable::{var, Var};
use std::cmp::Ordering;

fn term(pairs: &[(usize, usize)]) -> Term {
    Term::new(pairs.iter().map(|&(v, e)| (var(v), e)).collect()).unwrap()
}

fn text(s: &str) -> Term {
    let chars: Vec<char> = s.chars().collect();
    parse_term(&chars).unwrap()
}

#[test]
fn test_lex_order() {
    let a2 = text("a^2");
    let ab = text("ab");
    let a = text("a");
    let b2 = text("b^2");
    let b = text("b");

    let mut terms: Vec<Term> = vec![a.clone(), b2.clone(), a2.clone(), b.clone(), ab.clone()];
    terms.sort_by(|l, r| Lex::cmp(l, r));

    assert_eq!(terms, vec![b, b2, a, ab, a2]);
}

#[test]
fn grad_lex_order_compares_degree_first() {
    let a = term(&[(0, 1)]);
    let b2 = term(&[(1, 2)]);
    let ab = term(&[(0, 1), (1, 1)]);
    assert_eq!(GradLex::cmp(&a, &b2), Ordering::Less);
    assert_eq!(Lex::cmp(&a, &b2), Ordering::Greater);
    assert_eq!(GradLex::cmp(&ab, &b2), Ordering::Greater);
    assert_eq!(GradLex::cmp(&ab, &ab), Ordering::Equal);
    assert_eq!(Lex::cmp(&Term::one(), &a), Ordering::Less);
}

#[test]
fn term_product_adds_exponents() {
    let x2y = term(&[(23, 2), (24, 1)]);
    let yz3 = term(&[(24, 1), (25, 3)]);
    assert_eq!(mul_term_term(&x2y, &yz3), term(&[(23, 2), (24, 2), (25, 3)]));
}

#[test]
fn term_division_undoes_product() {
    let a = term(&[(0, 3), (2, 1)]);
    let b = term(&[(1, 2), (2, 4)]);
    let p = mul_term_term(&a, &b);
    assert_eq!(div_term_term(&p, &b), Some(a.clone()));
    assert_eq!(div_term_term(&p, &a), Some(b));
}

#[test]
fn term_division_fails_on_deficit() {
    let x = term(&[(23, 1)]);
    let y = term(&[(24, 1)]);
    let x2 = term(&[(23, 2)]);
    assert_eq!(div_term_term(&x, &y), None);
    assert_eq!(div_term_term(&x, &x2), None);
    assert_eq!(div_term_term(&x2, &x), Some(x.clone()));
    assert_eq!(div_term_term(&x, &x), Some(Term::one()));
}

#[test]
fn term_lcm_takes_largest_exponents() {
    let a = term(&[(23, 3), (24, 1)]);
    let b = term(&[(24, 2), (25, 1)]);
    assert_eq!(lcm(&a, &b), term(&[(23, 3), (24, 2), (25, 1)]));
}

#[test]
fn term_degree_is_the_sum_of_exponents() {
    // the degree is the sum of the exponents, not their product
    assert_eq!(term(&[(23, 2), (24, 3)]).deg(), 5);
    assert_eq!(term(&[(23, 1)]).deg(), 1);
    assert_eq!(Term::one().deg(), 0);
    assert_eq!(Term::default(), Term::one());
}

#[test]
fn term_new_rejects_non_canonical() {
    assert!(Term::new(vec![(var(1), 1), (var(0), 1)]).is_none());
    assert!(Term::new(vec![(var(0), 1), (var(0), 2)]).is_none());
    assert!(Term::new(vec![(var(0), 0)]).is_none());
    assert!(Term::new(vec![(Var(0), 1), (Var(3), 2)]).is_some());
}

#[test]
fn can_multiply_detects_overflow() {
    let big = term(&[(0, usize::MAX)]);
    let one = term(&[(0, 1)]);
    let other = term(&[(1, 1)]);
    assert!(!big.can_multiply(&one));
    assert!(big.can_multiply(&other));
}

#[test]
fn monomial_products() {
    let m = Monomial::new(3, term(&[(23, 1)]));
    let n = Monomial::new(-2, term(&[(23, 2), (24, 1)]));
    let p = m.mul(&n);
    assert_eq!(p.coeff, -6);
    assert_eq!(p.term, term(&[(23, 3), (24, 1)]));
    assert_eq!(m.scale(5).coeff, 15);
    assert_eq!(m.times_term(&term(&[(24, 2)])).term, term(&[(23, 1), (24, 2)]));
}

#[test]
fn digit_notation() {
    assert_eq!(number_to_superscript('2'), '\u{00B2}');
    assert_eq!(number_to_superscript('7'), '\u{2077}');
    assert_eq!(number_to_superscript('x'), '\u{FFFD}');
    assert_eq!(number_to_subscript('3'), '\u{2083}');
    assert_eq!(number_to_subscript('-'), '\u{FFFD}');
}

#[test]
fn join_terms_merges_by_variable() {
    let a = term(&[(0, 2), (2, 1)]);
    let b = term(&[(1, 3), (2, 4)]);
    assert_eq!(
        join_terms(&a, &b),
        vec![Joined::Left(var(0), 2), Joined::Right(var(1), 3), Joined::Both(var(2), 1, 4)]
    );
    assert!(join_terms(&Term::one(), &Term::one()).is_empty());
}

#[test]
fn from_pairs_drops_zero_exponents() {
    let t = Term::from_pairs(vec![(var(0), 2), (var(1), 0), (var(2), 1)]).unwrap();
    assert_eq!(t, term(&[(0, 2), (2, 1)]));
    assert_eq!(Term::from_pairs(vec![(var(3), 0)]), Some(Term::one()));
    assert!(Term::from_pairs(vec![(var(2), 1), (var(1), 0), (var(0), 1)]).is_none());
}
