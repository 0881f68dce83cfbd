use vstd::prelude::*;

use crate::order::Order;
use crate::polynomial::{
    at_term, canon, coeff_at, coeff_divides, lead_of, lemma_canon, lemma_coeff_absent,
    lemma_coeff_present, lemma_coeff_range, lemma_mul_exists, lemma_wrap_add, lemma_wrap_range,
    lemma_wrap_small, linear, modulus, poly_add, poly_mul, poly_scale, poly_sub, poly_wf,
    product_coeff, product_fits_all, product_row, scale_fits, shifted_coeff, sum_coeffs, wrap,
    wsum, HeadMonomial, MonoView, Polynomial,
};
use crate::term::{canonical, div_term_term, divides, lemma_term_quotient, term_quotient};
use crate::variable::Var;

verus! {

/// Why a division or a basis completion gave no result.
#[derive(Copy, Clone, Debug, PartialEq, Eq, Structural)]
pub enum AlgebraError {
    /// The divisor, or a generator of the basis, is the zero polynomial.
    ZeroDivisor,
    /// A multiple of the divisor would need an exponent beyond `usize::MAX`.
    ExponentOverflow,
    /// The step budget ran out before the loop finished.
    StepLimit,
}

/// `f == q * g + r`, coefficient by coefficient, modulo 2^64.
pub open spec fn division_identity(f: Seq<MonoView>, g: Seq<MonoView>, q: Seq<MonoView>, r: Seq<MonoView>) -> bool {
    forall|u: Seq<(Var, usize)>| #[trigger] coeff_at(f, u) == wrap(product_coeff(q, g, u) + coeff_at(r, u))
}

/// No reduction step by `g` applies to `r`: `r` is zero, or the leading
/// coefficient of `g` does not divide that of `r`, or the leading term of
/// `g` does not divide that of `r`.
pub open spec fn reduced(r: Seq<MonoView>, g: Seq<MonoView>) -> bool {
    r.len() == 0 || !coeff_divides(lead_of(g).0 as int, lead_of(r).0 as int) || !divides(lead_of(g).1, lead_of(r).1)
}

/// The exact quotient of two coefficients as `coeff_quotient` computes it:
/// the quotient of the absolute values with the sign of the product, taken
/// modulo 2^64.
pub open spec fn coeff_quot(a: int, b: int) -> i64 {
    let mag: int = (vstd::math::abs(a) / vstd::math::abs(b)) as int;
    let signed = if (a < 0) != (b < 0) { -mag } else { mag };
    wrap(signed) as i64
}

/// Coefficients of `q` plus the monomial `c * t`.
pub open spec fn plus_monomial(q: Seq<MonoView>, c: int, t: Seq<(Var, usize)>) -> spec_fn(Seq<(Var, usize)>) -> int {
    |u: Seq<(Var, usize)>| coeff_at(q, u) + at_term(t)(c, u)
}

/// The division loop, step by step, with `fuel` steps left: the quotient
/// so far is `q` and the remainder so far is `f`.
pub open spec fn div_steps<O: Order>(f: Seq<MonoView>, g: Seq<MonoView>, q: Seq<MonoView>, fuel: nat)
    -> Result<(Seq<MonoView>, Seq<MonoView>), AlgebraError>
    decreases fuel,
{
    if fuel == 0 {
        Err(AlgebraError::StepLimit)
    } else if reduced(f, g) {
        Ok((q, f))
    } else {
        let t = term_quotient(lead_of(f).1, lead_of(g).1);
        let c = coeff_quot(lead_of(f).0 as int, lead_of(g).0 as int);
        if !scale_fits(g, t) {
            Err(AlgebraError::ExponentOverflow)
        } else {
            div_steps::<O>(
                poly_sub::<O>(f, poly_scale::<O>(g, c as int, t)),
                g,
                canon::<O>(plus_monomial(q, c as int, t)),
                (fuel - 1) as nat,
            )
        }
    }
}

/// What dividing `f` by a nonzero `g` gives: the quotient and remainder,
/// or the reason it stopped.
#[verifier::opaque]
pub open spec fn div_result<O: Order>(f: Seq<MonoView>, g: Seq<MonoView>)
    -> Result<(Seq<MonoView>, Seq<MonoView>), AlgebraError>
{
    div_steps::<O>(f, g, Seq::<MonoView>::empty(), u64::MAX as nat)
}

/// The exact quotient `a / b` of two coefficients, if `b` divides `a`.
fn coeff_quotient(a: i64, b: i64) -> (r: Option<i64>)
    ensures
        r.is_some() == coeff_divides(b as int, a as int),
        r matches Some(c) ==> c == coeff_quot(a as int, b as int),
{
    if b == 0 {
        return None;
    }
    let ua: u64 = if a < 0 { (0i128 - a as i128) as u64 } else { a as u64 };
    let ub: u64 = if b < 0 { (0i128 - b as i128) as u64 } else { b as u64 };
    assert(ua as int == vstd::math::abs(a as int));
    assert(ub as int == vstd::math::abs(b as int));
    if ua % ub != 0 {
        return None;
    }
    let mag: i128 = (ua / ub) as i128;
    let signed: i128 = if (a < 0) != (b < 0) { 0i128 - mag } else { mag };
    proof {
        assert(ua <= 0x8000_0000_0000_0000);
        assert(mag <= ua) by {
            vstd::arithmetic::div_mod::lemma_div_is_ordered_by_denominator(ua as int, 1, ub as int);
        }
    }
    let c: i64 = if signed > i64::MAX as i128 { i64::MIN } else { signed as i64 };
    proof {
        if signed > i64::MAX {
            assert(signed == 0x8000_0000_0000_0000);
        } else {
            lemma_wrap_small(signed as int);
        }
    }
    Some(c)
}

/// One reduction step keeps `f == q * g + r`.
proof fn lemma_division_step(p: int, p1: int, f: int, f1: int, cs: int)
    requires
        wrap(p1) == wrap(p + cs),
        f1 == wrap(f - wrap(cs)),
    ensures
        wrap(p1 + f1) == wrap(p + f),
{
    lemma_wrap_add(p1, f1);
    lemma_wrap_add(p + cs, f1);
    lemma_wrap_add(p1, f1);
    lemma_wrap_range(cs);
    lemma_wrap_range(f - wrap(cs));
    vstd::arithmetic::div_mod::lemma_add_mod_noop(wrap(p1), f1, modulus());
    vstd::arithmetic::div_mod::lemma_add_mod_noop(wrap(p + cs), f1, modulus());
    vstd::arithmetic::div_mod::lemma_add_mod_noop(p + cs, f1, modulus());
    vstd::arithmetic::div_mod::lemma_add_mod_noop(p1, f1, modulus());
    vstd::arithmetic::div_mod::lemma_add_mod_noop(p + cs, f - wrap(cs), modulus());
    vstd::arithmetic::div_mod::lemma_sub_mod_noop(f, wrap(cs), modulus());
    vstd::arithmetic::div_mod::lemma_sub_mod_noop(f, cs, modulus());
    vstd::arithmetic::div_mod::lemma_add_mod_noop(p + cs, f - cs, modulus());
    lemma_wrap_range(p1);
    lemma_wrap_range(p + cs);
    lemma_wrap_range(p1 + f1);
    lemma_wrap_range(p + f);
}

/// Division's quotient and remainder recombine: `f == q * g + r`.
pub proof fn lemma_division_recombines<O: Order>(f: Seq<MonoView>, g: Seq<MonoView>, q: Seq<MonoView>, r: Seq<MonoView>)
    requires
        poly_wf::<O>(f),
        poly_wf::<O>(g),
        poly_wf::<O>(q),
        poly_wf::<O>(r),
        product_fits_all(q, g),
        division_identity(f, g, q, r),
    ensures
        poly_add::<O>(poly_mul::<O>(q, g), r) == f,
{
    lemma_mul_exists::<O>(q, g);
    let m = poly_mul::<O>(q, g);
    assert forall|u: Seq<(Var, usize)>| #[trigger] coeff_at(f, u) == wrap(sum_coeffs(m, r)(u)) by {
        lemma_wrap_add(product_coeff(q, g, u), coeff_at(r, u));
    }
    lemma_canon::<O>(f, sum_coeffs(m, r));
}

/// When the leading coefficient of the divisor is `1` or `-1` the coefficient
/// test never stops the division: the remainder is zero or its leading term
/// is not divisible by that of the divisor.
pub proof fn lemma_unit_divisor_remainder(r: Seq<MonoView>, g: Seq<MonoView>)
    requires
        reduced(r, g),
        lead_of(g).0 == 1 || lead_of(g).0 == -1,
    ensures
        r.len() == 0 || !divides(lead_of(g).1, lead_of(r).1),
{
    assert(vstd::math::abs(lead_of(g).0 as int) == 1);
    assert(vstd::math::abs(lead_of(r).0 as int) % 1 == 0);
}

/// When the leading coefficient of the divisor divides every coefficient of
/// the remainder, the coefficient test cannot have stopped the division: the
/// remainder is zero or its leading term is not divisible by that of the
/// divisor.
pub proof fn lemma_remainder_lead_term(r: Seq<MonoView>, g: Seq<MonoView>)
    requires
        reduced(r, g),
        forall|k: int| 0 <= k < r.len() ==> coeff_divides(lead_of(g).0 as int, #[trigger] r[k].0 as int),
    ensures
        r.len() == 0 || !divides(lead_of(g).1, lead_of(r).1),
{
    if r.len() > 0 {
        assert(coeff_divides(lead_of(g).0 as int, r[r.len() - 1].0 as int));
    }
}

/// After adding a monomial at `t`, every term is `t` or was there before.
proof fn lemma_terms_after_add<O: Order>(q0: Seq<MonoView>, q1: Seq<MonoView>, t: Seq<(Var, usize)>)
    requires
        poly_wf::<O>(q0),
        poly_wf::<O>(q1),
        forall|u: Seq<(Var, usize)>| u != t ==> #[trigger] coeff_at(q1, u) == coeff_at(q0, u),
    ensures
        forall|k: int| 0 <= k < q1.len() ==> #[trigger] q1[k].1 == t || exists|i: int| 0 <= i < q0.len() && q0[i].1 == q1[k].1,
{
    assert forall|k: int| 0 <= k < q1.len() implies #[trigger] q1[k].1 == t || exists|i: int| 0 <= i < q0.len() && q0[i].1 == q1[k].1 by {
        lemma_coeff_present::<O>(q1, k);
        if q1[k].1 != t && !(exists|i: int| 0 <= i < q0.len() && q0[i].1 == q1[k].1) {
            lemma_coeff_absent(q0, q1[k].1);
        }
    }
}

impl<O: Order> Polynomial<O> {
    /// Multivariate division by a single divisor.
    ///
    /// While the leading coefficient and term of `rhs` divide those of the
    /// remainder, the monomial `m` of their quotients is added to the
    /// quotient and `m * rhs` is taken from the remainder. Returns the
    /// quotient and the remainder, with `self == q * rhs + r`.
    ///
    /// The loop has a budget of `u64::MAX` steps; a divisor whose multiples
    /// need exponents beyond `usize::MAX` gives `ExponentOverflow`.
    pub fn div_euclid(&self, rhs: &Self) -> (r: Result<(Self, Self), AlgebraError>)
        requires
            self.wf(),
            rhs.wf(),
        ensures
            (r matches Err(AlgebraError::ZeroDivisor)) <==> rhs@.len() == 0,
            r matches Ok((q, rem)) ==> q.wf() && rem.wf() && division_identity(self@, rhs@, q@, rem@)
                && reduced(rem@, rhs@) && product_fits_all(q@, rhs@),
            r matches Ok((q, rem)) ==> div_result::<O>(self@, rhs@) == Ok::<(Seq<MonoView>, Seq<MonoView>), AlgebraError>((q@, rem@)),
            rhs@.len() > 0 ==> (r matches Err(e) ==> div_result::<O>(self@, rhs@)
                == Err::<(Seq<MonoView>, Seq<MonoView>), AlgebraError>(e)),
    {
        if rhs.is_zero() {
            return Err(AlgebraError::ZeroDivisor);
        }
        let ghost f0 = self@;
        let ghost g = rhs@;
        let mut f = self.clone();
        let mut q = Self::zero();
        proof {
            assert forall|u: Seq<(Var, usize)>| #[trigger] coeff_at(f0, u) == wrap(product_coeff(q@, g, u) + coeff_at(f@, u)) by {
                lemma_coeff_range::<O>(f0, u);
            }
            assert(q@ =~= Seq::<MonoView>::empty());
        }
        let mut fuel: u64 = u64::MAX;
        proof {
            reveal(div_result);
        }
        while fuel > 0
            invariant
                f0 == self@,
                g == rhs@,
                g.len() > 0,
                rhs.wf(),
                f.wf(),
                q.wf(),
                division_identity(f0, g, q@, f@),
                product_fits_all(q@, g),
                div_result::<O>(f0, g) == div_steps::<O>(f@, g, q@, fuel as nat),
            decreases fuel,
        {
            if f.is_zero() {
                return Ok((q, f));
            }
            let lcf = f.lead_coeff();
            let lcg = rhs.lead_coeff();
            let c = match coeff_quotient(lcf, lcg) {
                None => {
                    return Ok((q, f));
                },
                Some(c) => c,
            };
            let ltf = f.lead_term();
            let ltg = rhs.lead_term();
            proof {
                assert(canonical(f@[f@.len() - 1].1));
                assert(canonical(g[g.len() - 1].1));
            }
            let t = match div_term_term(&ltf, &ltg) {
                None => {
                    return Ok((q, f));
                },
                Some(t) => t,
            };
            if !rhs.can_scale(&t) {
                return Err(AlgebraError::ExponentOverflow);
            }
            let ghost q0 = q@;
            let ghost fc = f@;
            let ghost tv = t@;
            proof {
                lemma_term_quotient(lead_of(fc).1, lead_of(g).1, tv);
                assert(!reduced(fc, g));
            }
            q.add_monomial(c, t.clone());
            let mg = rhs.mul_monomial(c, &t);
            f = f.sub(&mg);
            proof {
                assert forall|u: Seq<(Var, usize)>| #[trigger] coeff_at(q@, u) == wrap(plus_monomial(q0, c as int, tv)(u)) by {
                    lemma_coeff_range::<O>(q0, u);
                }
                lemma_canon::<O>(q@, plus_monomial(q0, c as int, tv));
                lemma_terms_after_add::<O>(q0, q@, tv);
                assert forall|i: int| 0 <= i < q@.len() implies scale_fits(g, #[trigger] q@[i].1) by {
                    if q@[i].1 != tv {
                        let i0 = choose|i0: int| 0 <= i0 < q0.len() && q0[i0].1 == q@[i].1;
                        assert(scale_fits(g, q0[i0].1));
                    }
                }
            }
            proof {
                assert forall|u: Seq<(Var, usize)>| #[trigger] coeff_at(f0, u) == wrap(product_coeff(q@, g, u) + coeff_at(f@, u)) by {
                    let row = product_row(g, u);
                    assert(wrap(wsum(q@, linear(row))) == wrap(wsum(q0, linear(row)) + c * row(tv)));
                    lemma_division_step(
                        product_coeff(q0, g, u),
                        product_coeff(q@, g, u),
                        coeff_at(fc, u),
                        coeff_at(f@, u),
                        c * shifted_coeff(g, tv, u),
                    );
                }
            }
            fuel = fuel - 1;
        }
        Err(AlgebraError::StepLimit)
    }
}

} // verus!
