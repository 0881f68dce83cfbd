use vstd::prelude::*;

use crate::division::{div_result, AlgebraError};
use crate::order::Order;
use crate::polynomial::{
    lead_of, poly_scale, poly_sub, poly_wf, scale_fits, HeadMonomial, MonoView, Polynomial,
};
use crate::term::{canonical, div_term_term, exp_of, lcm, lemma_canonical_unique};
use crate::variable::Var;

verus! {

/// The cofactor that lifts term `x` to the least common multiple of `x` and
/// `y`: the exponent of each variable is `max(x, y) - x`.
pub open spec fn cofactor(x: Seq<(Var, usize)>, y: Seq<(Var, usize)>) -> Seq<(Var, usize)> {
    choose|r: Seq<(Var, usize)>| canonical(r) && forall|v: usize|
        exp_of(r, v) == vstd::math::max(exp_of(x, v) as int, exp_of(y, v) as int) - exp_of(x, v)
}

proof fn lemma_cofactor(x: Seq<(Var, usize)>, y: Seq<(Var, usize)>, r: Seq<(Var, usize)>)
    requires
        canonical(r),
        forall|v: usize| exp_of(r, v) == vstd::math::max(exp_of(x, v) as int, exp_of(y, v) as int) - exp_of(x, v),
    ensures
        r == cofactor(x, y),
{
    let p = cofactor(x, y);
    assert(canonical(p) && forall|v: usize|
        exp_of(p, v) == vstd::math::max(exp_of(x, v) as int, exp_of(y, v) as int) - exp_of(x, v));
    lemma_canonical_unique(r, p);
}

/// The S-polynomial of `f` and `g`: with `m` the least common multiple of
/// their leading terms, `(m / lt f) * lc g * f - (m / lt g) * lc f * g`; an
/// error where a multiple would overflow an exponent.
#[verifier::opaque]
pub open spec fn spoly<O: Order>(f: Seq<MonoView>, g: Seq<MonoView>) -> Result<Seq<MonoView>, AlgebraError> {
    let a = cofactor(lead_of(f).1, lead_of(g).1);
    let b = cofactor(lead_of(g).1, lead_of(f).1);
    if scale_fits(f, a) && scale_fits(g, b) {
        Ok(poly_sub::<O>(poly_scale::<O>(f, lead_of(g).0 as int, a), poly_scale::<O>(g, lead_of(f).0 as int, b)))
    } else {
        Err(AlgebraError::ExponentOverflow)
    }
}

/// The leading term of a canonical polynomial is canonical.
pub proof fn lemma_lead_canonical<O: Order>(s: Seq<MonoView>)
    requires
        poly_wf::<O>(s),
    ensures
        canonical(lead_of(s).1),
{
    if s.len() > 0 {
        assert(canonical(s[s.len() - 1].1));
    }
}

/// The S-polynomial of `f` and `g`, built to cancel their leading terms.
pub fn sploy<O: Order>(f: &Polynomial<O>, g: &Polynomial<O>) -> (r: Result<Polynomial<O>, AlgebraError>)
    requires
        f.wf(),
        g.wf(),
    ensures
        r matches Ok(s) ==> s.wf() && spoly::<O>(f@, g@) == Ok::<Seq<MonoView>, AlgebraError>(s@),
        r matches Err(e) ==> spoly::<O>(f@, g@) == Err::<Seq<MonoView>, AlgebraError>(e)
            && e == AlgebraError::ExponentOverflow,
{
    let ltf = f.lead_term();
    let ltg = g.lead_term();
    proof {
        reveal(spoly);
        lemma_lead_canonical::<O>(f@);
        lemma_lead_canonical::<O>(g@);
    }
    let m = lcm(&ltf, &ltg);
    let a = match div_term_term(&m, &ltf) {
        Some(a) => a,
        None => {
            return Err(AlgebraError::ExponentOverflow);
        },
    };
    let b = match div_term_term(&m, &ltg) {
        Some(b) => b,
        None => {
            return Err(AlgebraError::ExponentOverflow);
        },
    };
    proof {
        lemma_cofactor(ltf@, ltg@, a@);
        assert forall|v: usize| exp_of(b@, v) == vstd::math::max(exp_of(ltg@, v) as int, exp_of(ltf@, v) as int) - exp_of(ltg@, v) by {}
        lemma_cofactor(ltg@, ltf@, b@);
    }
    if !f.can_scale(&a) || !g.can_scale(&b) {
        return Err(AlgebraError::ExponentOverflow);
    }
    let fa = f.mul_monomial(g.lead_coeff(), &a);
    let gb = g.mul_monomial(f.lead_coeff(), &b);
    Ok(fa.sub(&gb))
}


/// The views of a sequence of polynomials.
pub open spec fn views<O: Order>(v: Seq<Polynomial<O>>) -> Seq<Seq<MonoView>> {
    v.map_values(|p: Polynomial<O>| p@)
}

/// `s` divided in turn by the first `n` elements of `basis`, keeping each
/// remainder.
pub open spec fn reduce_by<O: Order>(basis: Seq<Seq<MonoView>>, s: Seq<MonoView>, n: nat)
    -> Result<Seq<MonoView>, AlgebraError>
    decreases n,
{
    if n == 0 {
        Ok(s)
    } else {
        match reduce_by::<O>(basis, s, (n - 1) as nat) {
            Ok(s1) => match div_result::<O>(s1, basis[n - 1]) {
                Ok(qr) => Ok(qr.1),
                Err(e) => Err(e),
            },
            Err(e) => Err(e),
        }
    }
}

/// The S-polynomial of `basis[i]` and `basis[j]`, reduced by the whole basis.
pub open spec fn pair_remainder<O: Order>(basis: Seq<Seq<MonoView>>, i: int, j: int)
    -> Result<Seq<MonoView>, AlgebraError>
{
    match spoly::<O>(basis[i], basis[j]) {
        Ok(s) => reduce_by::<O>(basis, s, basis.len()),
        Err(e) => Err(e),
    }
}

/// Every S-polynomial of two distinct elements reduces to zero against the
/// basis.
pub open spec fn is_groebner<O: Order>(basis: Seq<Seq<MonoView>>) -> bool {
    forall|i: int, j: int| 0 <= i < basis.len() && 0 <= j < basis.len() && i != j
        ==> #[trigger] pair_remainder::<O>(basis, i, j) == Ok::<Seq<MonoView>, AlgebraError>(Seq::<MonoView>::empty())
}

/// `p` is the remainder of the S-polynomial of two distinct elements of
/// `basis`.
pub open spec fn grown_by<O: Order>(basis: Seq<Seq<MonoView>>, p: Seq<MonoView>) -> bool {
    exists|i: int, j: int| 0 <= i < basis.len() && 0 <= j < basis.len() && i != j
        && #[trigger] pair_remainder::<O>(basis, i, j) == Ok::<Seq<MonoView>, AlgebraError>(p)
}

/// Every element from `n` on is the remainder of an S-polynomial of two
/// elements before it.
pub open spec fn grows_from<O: Order>(basis: Seq<Seq<MonoView>>, n: int) -> bool {
    forall|k: int| n <= k < basis.len() ==> grown_by::<O>(#[trigger] basis.take(k), basis[k])
}

/// One round of completion, scanning from pair `(i, j)` on, row by row: the
/// first failure, or the first nonzero remainder, or nothing when every
/// remaining S-polynomial reduces to zero.
pub open spec fn scan_from<O: Order>(b: Seq<Seq<MonoView>>, i: int, j: int)
    -> Result<Option<Seq<MonoView>>, AlgebraError>
    decreases b.len() - i, b.len() - j,
{
    if i < 0 || j < 0 || i >= b.len() {
        Ok(None)
    } else if j >= b.len() {
        scan_from::<O>(b, i + 1, 0)
    } else if i == j {
        scan_from::<O>(b, i, j + 1)
    } else {
        match pair_remainder::<O>(b, i, j) {
            Err(e) => Err(e),
            Ok(r) => if r.len() > 0 {
                Ok(Some(r))
            } else {
                scan_from::<O>(b, i, j + 1)
            },
        }
    }
}

/// Buchberger's completion with `fuel` rounds left: the remainder the scan
/// finds first is appended and the scan starts again; the basis is done when
/// the scan finds none.
pub open spec fn completion<O: Order>(b: Seq<Seq<MonoView>>, fuel: nat)
    -> Result<Seq<Seq<MonoView>>, AlgebraError>
    decreases fuel,
{
    if fuel == 0 {
        Err(AlgebraError::StepLimit)
    } else {
        match scan_from::<O>(b, 0, 0) {
            Err(e) => Err(e),
            Ok(None) => Ok(b),
            Ok(Some(r)) => completion::<O>(b.push(r), (fuel - 1) as nat),
        }
    }
}

/// Every element is canonical and nonzero.
pub open spec fn basis_wf<O: Order>(basis: Seq<Polynomial<O>>) -> bool {
    forall|i: int| 0 <= i < basis.len() ==> (#[trigger] basis[i]).wf() && basis[i]@.len() > 0
}

/// Once a reduction fails, reducing by more elements fails the same way.
proof fn lemma_reduce_err<O: Order>(basis: Seq<Seq<MonoView>>, s: Seq<MonoView>, n: nat, m: nat, e: AlgebraError)
    requires
        n <= m,
        reduce_by::<O>(basis, s, n) == Err::<Seq<MonoView>, AlgebraError>(e),
    ensures
        reduce_by::<O>(basis, s, m) == Err::<Seq<MonoView>, AlgebraError>(e),
    decreases m - n,
{
    if n < m {
        lemma_reduce_err::<O>(basis, s, n, (m - 1) as nat, e);
    }
}

/// Reduces `s` by each element of `basis` in turn.
fn reduce_all<O: Order>(basis: &Vec<Polynomial<O>>, s: Polynomial<O>) -> (r: Result<Polynomial<O>, AlgebraError>)
    requires
        basis_wf(basis@),
        s.wf(),
    ensures
        r matches Ok(p) ==> p.wf() && reduce_by::<O>(views(basis@), s@, basis.len() as nat)
            == Ok::<Seq<MonoView>, AlgebraError>(p@),
        r matches Err(e) ==> e != AlgebraError::ZeroDivisor && reduce_by::<O>(views(basis@), s@, basis.len() as nat)
            == Err::<Seq<MonoView>, AlgebraError>(e),
{
    let ghost b = views(basis@);
    let ghost s0 = s@;
    let mut cur = s;
    let mut k: usize = 0;
    while k < basis.len()
        invariant
            b == views(basis@),
            s0 == s@,
            basis_wf(basis@),
            k <= basis.len(),
            cur.wf(),
            reduce_by::<O>(b, s0, k as nat) == Ok::<Seq<MonoView>, AlgebraError>(cur@),
        decreases basis.len() - k,
    {
        proof {
            assert(basis[k as int].wf() && basis[k as int]@.len() > 0);
            assert(b[k as int] == basis[k as int]@);
        }
        match cur.div_euclid(&basis[k]) {
            Ok((_q, rem)) => {
                cur = rem;
            },
            Err(e) => {
                proof {
                    assert(reduce_by::<O>(b, s0, (k + 1) as nat) == Err::<Seq<MonoView>, AlgebraError>(e));
                    lemma_reduce_err::<O>(b, s0, (k + 1) as nat, basis.len() as nat, e);
                }
                return Err(e);
            },
        }
        k = k + 1;
    }
    Ok(cur)
}

/// Looks, pair by pair in row order, for the first S-polynomial that does
/// not reduce to zero.
fn scan<O: Order>(basis: &Vec<Polynomial<O>>) -> (r: Result<Option<Polynomial<O>>, AlgebraError>)
    requires
        basis_wf(basis@),
    ensures
        (r matches Ok(None)) <==> is_groebner::<O>(views(basis@)),
        r matches Ok(Some(p)) ==> p.wf() && p@.len() > 0 && grown_by::<O>(views(basis@), p@),
        r matches Err(e) ==> e != AlgebraError::ZeroDivisor,
        r matches Ok(None) ==> scan_from::<O>(views(basis@), 0, 0) == Ok::<Option<Seq<MonoView>>, AlgebraError>(None),
        r matches Ok(Some(p)) ==> scan_from::<O>(views(basis@), 0, 0) == Ok::<Option<Seq<MonoView>>, AlgebraError>(Some(p@)),
        r matches Err(e) ==> scan_from::<O>(views(basis@), 0, 0) == Err::<Option<Seq<MonoView>>, AlgebraError>(e),
{
    let ghost b = views(basis@);
    let n = basis.len();
    let mut i: usize = 0;
    while i < n
        invariant
            b == views(basis@),
            basis_wf(basis@),
            n == basis.len(),
            i <= n,
            forall|x: int, y: int| 0 <= x < i && 0 <= y < n && x != y
                ==> #[trigger] pair_remainder::<O>(b, x, y) == Ok::<Seq<MonoView>, AlgebraError>(Seq::<MonoView>::empty()),
            scan_from::<O>(b, 0, 0) == scan_from::<O>(b, i as int, 0),
        decreases n - i,
    {
        let mut j: usize = 0;
        while j < n
            invariant
                b == views(basis@),
                basis_wf(basis@),
                n == basis.len(),
                i < n,
                j <= n,
                forall|x: int, y: int| 0 <= x < i && 0 <= y < n && x != y
                    ==> #[trigger] pair_remainder::<O>(b, x, y) == Ok::<Seq<MonoView>, AlgebraError>(Seq::<MonoView>::empty()),
                forall|y: int| 0 <= y < j && y != i
                    ==> #[trigger] pair_remainder::<O>(b, i as int, y) == Ok::<Seq<MonoView>, AlgebraError>(Seq::<MonoView>::empty()),
                scan_from::<O>(b, 0, 0) == scan_from::<O>(b, i as int, j as int),
            decreases n - j,
        {
            if i != j {
                proof {
                    assert(basis[i as int].wf() && basis[j as int].wf());
                    assert(b[i as int] == basis[i as int]@ && b[j as int] == basis[j as int]@);
                }
                let s = match sploy(&basis[i], &basis[j]) {
                    Ok(s) => s,
                    Err(e) => {
                        return Err(e);
                    },
                };
                let red = match reduce_all(basis, s) {
                    Ok(red) => red,
                    Err(e) => {
                        return Err(e);
                    },
                };
                if !red.is_zero() {
                    proof {
                        assert(pair_remainder::<O>(b, i as int, j as int) != Ok::<Seq<MonoView>, AlgebraError>(Seq::<MonoView>::empty()));
                        assert(pair_remainder::<O>(b, i as int, j as int) == Ok::<Seq<MonoView>, AlgebraError>(red@));
                    }
                    return Ok(Some(red));
                }
                proof {
                    assert(red@ =~= Seq::<MonoView>::empty());
                }
            }
            j = j + 1;
        }
        proof {
            assert(scan_from::<O>(b, i as int, j as int) == scan_from::<O>(b, i + 1, 0));
        }
        i = i + 1;
    }
    proof {
        assert(scan_from::<O>(b, i as int, 0) == Ok::<Option<Seq<MonoView>>, AlgebraError>(None));
    }
    Ok(None)
}

/// Buchberger's completion: while some S-polynomial of two basis elements
/// has a nonzero remainder against the basis, that remainder is appended
/// and the scan starts again. Returns the completed basis, which begins
/// with the given generators.
///
/// A zero generator gives `ZeroDivisor`. The loop has a budget of
/// `u64::MAX` rounds.
pub fn buchberger<O: Order>(polys: &Vec<Polynomial<O>>) -> (r: Result<Vec<Polynomial<O>>, AlgebraError>)
    requires
        forall|i: int| 0 <= i < polys.len() ==> (#[trigger] polys[i]).wf(),
    ensures
        (r matches Err(AlgebraError::ZeroDivisor)) <==> exists|i: int| 0 <= i < polys.len() && (#[trigger] polys[i])@.len() == 0,
        r matches Ok(b) ==> basis_wf(b@) && b.len() >= polys.len()
            && (forall|i: int| 0 <= i < polys.len() ==> (#[trigger] b[i])@ == polys[i]@)
            && grows_from::<O>(views(b@), polys.len() as int)
            && is_groebner::<O>(views(b@)),
        basis_wf(polys@) && is_groebner::<O>(views(polys@)) ==> (r matches Ok(b) && views(b@) == views(polys@)),
        r matches Ok(b) ==> completion::<O>(views(polys@), u64::MAX as nat)
            == Ok::<Seq<Seq<MonoView>>, AlgebraError>(views(b@)),
        basis_wf(polys@) ==> (r matches Err(e) ==> completion::<O>(views(polys@), u64::MAX as nat)
            == Err::<Seq<Seq<MonoView>>, AlgebraError>(e)),
{
    let mut basis: Vec<Polynomial<O>> = Vec::new();
    let mut i: usize = 0;
    while i < polys.len()
        invariant
            forall|k: int| 0 <= k < polys.len() ==> (#[trigger] polys[k]).wf(),
            i <= polys.len(),
            basis.len() == i,
            basis_wf(basis@),
            forall|k: int| 0 <= k < i ==> (#[trigger] polys[k])@.len() > 0,
            forall|k: int| 0 <= k < i ==> (#[trigger] basis[k])@ == polys[k]@,
        decreases polys.len() - i,
    {
        if polys[i].is_zero() {
            return Err(AlgebraError::ZeroDivisor);
        }
        basis.push(polys[i].clone());
        i = i + 1;
    }
    proof {
        assert(views(basis@) =~= views(polys@));
        assert(basis_wf(polys@));
        assert(grows_from::<O>(views(basis@), polys.len() as int));
    }
    let ghost start = views(polys@);
    let mut rounds: u64 = u64::MAX;
    while rounds > 0
        invariant
            forall|k: int| 0 <= k < polys.len() ==> (#[trigger] polys[k])@.len() > 0,
            start == views(polys@),
            basis_wf(basis@),
            basis.len() >= polys.len(),
            forall|k: int| 0 <= k < polys.len() ==> (#[trigger] basis[k])@ == polys[k]@,
            is_groebner::<O>(start) ==> views(basis@) == start && rounds == u64::MAX,
            grows_from::<O>(views(basis@), polys.len() as int),
            completion::<O>(start, u64::MAX as nat) == completion::<O>(views(basis@), rounds as nat),
        decreases rounds,
    {
        match scan(&basis) {
            Ok(None) => {
                return Ok(basis);
            },
            Ok(Some(p)) => {
                let ghost old_views = views(basis@);
                let ghost pv = p@;
                basis.push(p);
                proof {
                    let nv = views(basis@);
                    assert(nv =~= old_views.push(pv));
                    assert forall|k: int| polys.len() <= k < nv.len() implies grown_by::<O>(#[trigger] nv.take(k), nv[k]) by {
                        if k < old_views.len() {
                            assert(nv.take(k) =~= old_views.take(k));
                            assert(grown_by::<O>(old_views.take(k), old_views[k]));
                        } else {
                            assert(nv.take(k) =~= old_views);
                        }
                    }
                }
            },
            Err(e) => {
                return Err(e);
            },
        }
        rounds = rounds - 1;
    }
    Err(AlgebraError::StepLimit)
}

} // verus!
