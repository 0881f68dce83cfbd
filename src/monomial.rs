use vstd::prelude::*;

use crate::polynomial::{wrap, Monomial};
use crate::term::{mul_term_term, product_fits, term_product, Term};

verus! {

impl Monomial {
    /// The monomial `coeff * term`.
    pub fn new(coeff: i64, term: Term) -> (r: Monomial)
        ensures
            r@ == (coeff, term@),
    {
        Monomial { coeff, term }
    }

    /// The product of two monomials: coefficients multiply modulo 2^64,
    /// terms multiply.
    pub fn mul(&self, rhs: &Monomial) -> (r: Monomial)
        requires
            self.term.wf(),
            rhs.term.wf(),
            product_fits(self.term@, rhs.term@),
        ensures
            r.coeff as int == wrap(self.coeff * rhs.coeff),
            r.term@ == term_product(self.term@, rhs.term@),
            r.term.wf(),
    {
        proof {
            crate::polynomial::lemma_wrapping_ops(self.coeff, rhs.coeff);
        }
        Monomial { coeff: self.coeff.wrapping_mul(rhs.coeff), term: mul_term_term(&self.term, &rhs.term) }
    }

    /// This monomial with its coefficient multiplied by `c`.
    pub fn scale(&self, c: i64) -> (r: Monomial)
        ensures
            r.coeff as int == wrap(self.coeff * c),
            r.term@ == self.term@,
    {
        proof {
            crate::polynomial::lemma_wrapping_ops(self.coeff, c);
        }
        Monomial { coeff: self.coeff.wrapping_mul(c), term: self.term.clone() }
    }

    /// This monomial with its term multiplied by `t`.
    pub fn times_term(&self, t: &Term) -> (r: Monomial)
        requires
            self.term.wf(),
            t.wf(),
            product_fits(self.term@, t@),
        ensures
            r.coeff == self.coeff,
            r.term@ == term_product(self.term@, t@),
            r.term.wf(),
    {
        Monomial { coeff: self.coeff, term: mul_term_term(&self.term, t) }
    }
}

} // verus!
