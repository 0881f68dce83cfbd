use vstd::prelude::*;

use crate::join::{is_join, join_terms, lemma_join_gap, lemma_join_map, Joined};
use crate::variable::Var;

verus! {

/// A power product: pairs of a variable and its positive exponent, with
/// strictly increasing variables. The empty term is the constant `1`.
#[derive(Debug, PartialEq, Eq)]
pub struct Term {
    pub exps: Vec<(Var, usize)>,
}

impl Clone for Term {
    fn clone(&self) -> (r: Self)
        ensures
            r@ == self@,
    {
        let mut exps: Vec<(Var, usize)> = Vec::new();
        let mut i: usize = 0;
        while i < self.exps.len()
            invariant
                i <= self.exps.len(),
                exps@ == self@.take(i as int),
            decreases self.exps.len() - i,
        {
            exps.push(self.exps[i]);
            i = i + 1;
            proof {
                assert(exps@ =~= self@.take(i as int));
            }
        }
        proof {
            assert(self@.take(i as int) =~= self@);
        }
        Term { exps }
    }
}

/// Canonical form: variables strictly increasing, exponents positive.
pub open spec fn canonical(s: Seq<(Var, usize)>) -> bool {
    &&& forall|i: int, j: int| 0 <= i < j < s.len() ==> s[i].0.0 < s[j].0.0
    &&& forall|i: int| 0 <= i < s.len() ==> s[i].1 > 0
}

/// The exponent of variable `v` in `s` (zero when absent).
pub open spec fn exp_of(s: Seq<(Var, usize)>, v: usize) -> nat
    decreases s.len(),
{
    if s.len() == 0 {
        0
    } else if s.last().0.0 == v {
        s.last().1 as nat
    } else {
        exp_of(s.drop_last(), v)
    }
}

/// The total degree: the sum of the exponents.
pub open spec fn degree_of(s: Seq<(Var, usize)>) -> nat
    decreases s.len(),
{
    if s.len() == 0 {
        0
    } else {
        degree_of(s.drop_last()) + s.last().1 as nat
    }
}

/// Every exponent sum of `a * b` fits in a `usize`.
pub open spec fn product_fits(a: Seq<(Var, usize)>, b: Seq<(Var, usize)>) -> bool {
    forall|v: usize| exp_of(a, v) + exp_of(b, v) <= usize::MAX
}

/// `b` divides `a`: no exponent of `b` exceeds that of `a`.
pub open spec fn divides(b: Seq<(Var, usize)>, a: Seq<(Var, usize)>) -> bool {
    forall|v: usize| exp_of(b, v) <= exp_of(a, v)
}

/// The product of two terms: the canonical term whose exponents are the
/// sums of theirs.
pub open spec fn term_product(a: Seq<(Var, usize)>, b: Seq<(Var, usize)>) -> Seq<(Var, usize)> {
    choose|r: Seq<(Var, usize)>| canonical(r) && forall|v: usize| exp_of(r, v) == exp_of(a, v) + exp_of(b, v)
}

/// The term with exponents `e` is `term_product(a, b)` when `e` sums those
/// of `a` and `b`.
pub proof fn lemma_term_product(a: Seq<(Var, usize)>, b: Seq<(Var, usize)>, r: Seq<(Var, usize)>)
    requires
        canonical(r),
        forall|v: usize| exp_of(r, v) == exp_of(a, v) + exp_of(b, v),
    ensures
        r == term_product(a, b),
        canonical(term_product(a, b)),
{
    let p = term_product(a, b);
    assert(canonical(p) && forall|v: usize| exp_of(p, v) == exp_of(a, v) + exp_of(b, v));
    lemma_canonical_unique(r, p);
}

/// Every variable of `s` is below `w`.
pub open spec fn vars_below(s: Seq<(Var, usize)>, w: usize) -> bool {
    forall|i: int| 0 <= i < s.len() ==> #[trigger] s[i].0.0 < w
}

/// A canonical product exists when the exponent sums fit.
pub proof fn lemma_product_exists(a: Seq<(Var, usize)>, b: Seq<(Var, usize)>) -> (r: Seq<(Var, usize)>)
    requires
        canonical(a),
        canonical(b),
        product_fits(a, b),
    ensures
        canonical(r),
        forall|v: usize| exp_of(r, v) == exp_of(a, v) + exp_of(b, v),
        forall|w: usize| vars_below(a, w) && vars_below(b, w) ==> #[trigger] vars_below(r, w),
    decreases a.len() + b.len(),
{
    if a.len() == 0 {
        assert forall|v: usize| exp_of(b, v) == exp_of(a, v) + exp_of(b, v) by {}
        b
    } else if b.len() == 0 {
        a
    } else {
        let x = a.last();
        let y = b.last();
        let a2 = a.drop_last();
        let b2 = b.drop_last();
        assert(a =~= a2.push(x));
        assert(b =~= b2.push(y));
        assert(canonical(a2)) by {
            assert forall|i: int, j: int| 0 <= i < j < a2.len() implies a2[i].0.0 < a2[j].0.0 by {
                assert(a2[i] == a[i] && a2[j] == a[j]);
            }
            assert forall|i: int| 0 <= i < a2.len() implies a2[i].1 > 0 by {
                assert(a2[i] == a[i]);
            }
        }
        assert(canonical(b2)) by {
            assert forall|i: int, j: int| 0 <= i < j < b2.len() implies b2[i].0.0 < b2[j].0.0 by {
                assert(b2[i] == b[i] && b2[j] == b[j]);
            }
            assert forall|i: int| 0 <= i < b2.len() implies b2[i].1 > 0 by {
                assert(b2[i] == b[i]);
            }
        }
        assert(vars_below(a2, x.0.0)) by {
            assert forall|i: int| 0 <= i < a2.len() implies #[trigger] a2[i].0.0 < x.0.0 by {
                assert(a2[i] == a[i]);
            }
        }
        assert(vars_below(b2, y.0.0)) by {
            assert forall|j: int| 0 <= j < b2.len() implies #[trigger] b2[j].0.0 < y.0.0 by {
                assert(b2[j] == b[j]);
            }
        }
        lemma_exp_at(a, a.len() - 1);
        lemma_exp_at(b, b.len() - 1);
        if x.0.0 > y.0.0 {
            assert forall|v: usize| exp_of(a2, v) + exp_of(b, v) <= usize::MAX by {
                lemma_exp_push(a2, x, v);
                lemma_exp_bounded(b, v);
                if v == x.0.0 {
                    lemma_exp_absent(a2, v);
                }
            }
            let r2 = lemma_product_exists(a2, b);
            let r = r2.push(x);
            assert(vars_below(b, x.0.0)) by {
                assert forall|j: int| 0 <= j < b.len() implies #[trigger] b[j].0.0 < x.0.0 by {
                    if j < b.len() - 1 {
                        assert(b[j] == b2[j]);
                    }
                }
            }
            assert(vars_below(r2, x.0.0));
            assert forall|v: usize| exp_of(r, v) == exp_of(a, v) + exp_of(b, v) by {
                lemma_exp_push(r2, x, v);
                lemma_exp_push(a2, x, v);
                if v == x.0.0 {
                    lemma_exp_absent(a2, v);
                    lemma_exp_absent(b, v);
                }
            }
            assert forall|w: usize| vars_below(a, w) && vars_below(b, w) implies #[trigger] vars_below(r, w) by {
                assert(vars_below(a2, w)) by {
                    assert forall|i: int| 0 <= i < a2.len() implies #[trigger] a2[i].0.0 < w by {
                        assert(a2[i] == a[i]);
                    }
                }
                assert(vars_below(r2, w));
                assert(a[a.len() - 1].0.0 < w);
            }
            r
        } else if y.0.0 > x.0.0 {
            assert forall|v: usize| exp_of(a, v) + exp_of(b2, v) <= usize::MAX by {
                lemma_exp_push(b2, y, v);
                lemma_exp_bounded(a, v);
                if v == y.0.0 {
                    lemma_exp_absent(b2, v);
                }
            }
            let r2 = lemma_product_exists(a, b2);
            let r = r2.push(y);
            assert(vars_below(a, y.0.0)) by {
                assert forall|i: int| 0 <= i < a.len() implies #[trigger] a[i].0.0 < y.0.0 by {
                    if i < a.len() - 1 {
                        assert(a[i] == a2[i]);
                    }
                }
            }
            assert(vars_below(r2, y.0.0));
            assert forall|v: usize| exp_of(r, v) == exp_of(a, v) + exp_of(b, v) by {
                lemma_exp_push(r2, y, v);
                lemma_exp_push(b2, y, v);
                if v == y.0.0 {
                    lemma_exp_absent(b2, v);
                    lemma_exp_absent(a, v);
                }
            }
            assert forall|w: usize| vars_below(a, w) && vars_below(b, w) implies #[trigger] vars_below(r, w) by {
                assert(vars_below(b2, w)) by {
                    assert forall|j: int| 0 <= j < b2.len() implies #[trigger] b2[j].0.0 < w by {
                        assert(b2[j] == b[j]);
                    }
                }
                assert(vars_below(r2, w));
                assert(b[b.len() - 1].0.0 < w);
            }
            r
        } else {
            let v0 = x.0.0;
            assert(exp_of(a, v0) + exp_of(b, v0) <= usize::MAX);
            let p = (x.0, (x.1 + y.1) as usize);
            assert forall|v: usize| exp_of(a2, v) + exp_of(b2, v) <= usize::MAX by {
                lemma_exp_push(a2, x, v);
                lemma_exp_push(b2, y, v);
                lemma_exp_bounded(a, v);
                lemma_exp_bounded(b, v);
                if v == v0 {
                    lemma_exp_absent(a2, v);
                    lemma_exp_absent(b2, v);
                }
            }
            let r2 = lemma_product_exists(a2, b2);
            let r = r2.push(p);
            assert(vars_below(r2, v0));
            assert forall|v: usize| exp_of(r, v) == exp_of(a, v) + exp_of(b, v) by {
                lemma_exp_push(r2, p, v);
                lemma_exp_push(a2, x, v);
                lemma_exp_push(b2, y, v);
                if v == v0 {
                    lemma_exp_absent(a2, v);
                    lemma_exp_absent(b2, v);
                }
            }
            assert forall|w: usize| vars_below(a, w) && vars_below(b, w) implies #[trigger] vars_below(r, w) by {
                assert(vars_below(a2, w)) by {
                    assert forall|i: int| 0 <= i < a2.len() implies #[trigger] a2[i].0.0 < w by {
                        assert(a2[i] == a[i]);
                    }
                }
                assert(vars_below(b2, w)) by {
                    assert forall|j: int| 0 <= j < b2.len() implies #[trigger] b2[j].0.0 < w by {
                        assert(b2[j] == b[j]);
                    }
                }
                assert(vars_below(r2, w));
                assert(a[a.len() - 1].0.0 < w);
            }
            r
        }
    }
}

/// The product of canonical terms is canonical when the exponents fit.
pub proof fn lemma_product_canonical(a: Seq<(Var, usize)>, b: Seq<(Var, usize)>)
    requires
        canonical(a),
        canonical(b),
        product_fits(a, b),
    ensures
        canonical(term_product(a, b)),
{
    let r = lemma_product_exists(a, b);
    lemma_term_product(a, b, r);
}

/// The quotient of two terms: the canonical term with the exponents of `a`
/// less those of `b`.
pub open spec fn term_quotient(a: Seq<(Var, usize)>, b: Seq<(Var, usize)>) -> Seq<(Var, usize)> {
    choose|r: Seq<(Var, usize)>| canonical(r) && forall|v: usize| exp_of(r, v) == exp_of(a, v) - exp_of(b, v)
}

pub proof fn lemma_term_quotient(a: Seq<(Var, usize)>, b: Seq<(Var, usize)>, r: Seq<(Var, usize)>)
    requires
        canonical(r),
        forall|v: usize| exp_of(r, v) == exp_of(a, v) - exp_of(b, v),
    ensures
        r == term_quotient(a, b),
{
    let p = term_quotient(a, b);
    assert(canonical(p) && forall|v: usize| exp_of(p, v) == exp_of(a, v) - exp_of(b, v));
    lemma_canonical_unique(r, p);
}

/// The pairs of `s` whose exponent is positive, in order.
pub open spec fn nonzero_pairs(s: Seq<(Var, usize)>) -> Seq<(Var, usize)>
    decreases s.len(),
{
    if s.len() == 0 {
        Seq::empty()
    } else if s.last().1 > 0 {
        nonzero_pairs(s.drop_last()).push(s.last())
    } else {
        nonzero_pairs(s.drop_last())
    }
}

impl View for Term {
    type V = Seq<(Var, usize)>;

    open spec fn view(&self) -> Seq<(Var, usize)> {
        self.exps@
    }
}

impl Term {
    pub open spec fn wf(&self) -> bool {
        canonical(self@)
    }
}

/// A variable that `s` does not hold has exponent zero.
pub proof fn lemma_exp_absent(s: Seq<(Var, usize)>, v: usize)
    requires
        forall|k: int| 0 <= k < s.len() ==> s[k].0.0 != v,
    ensures
        exp_of(s, v) == 0,
    decreases s.len(),
{
    if s.len() > 0 {
        lemma_exp_absent(s.drop_last(), v);
    }
}

/// Pushing a pair sets the exponent of its variable and keeps the others.
pub proof fn lemma_exp_push(s: Seq<(Var, usize)>, p: (Var, usize), v: usize)
    ensures
        exp_of(s.push(p), v) == if p.0.0 == v { p.1 as nat } else { exp_of(s, v) },
{
    assert(s.push(p).drop_last() =~= s);
}

/// The exponent of the variable at position `k` of a canonical sequence.
pub proof fn lemma_exp_at(s: Seq<(Var, usize)>, k: int)
    requires
        canonical(s),
        0 <= k < s.len(),
    ensures
        exp_of(s, s[k].0.0) == s[k].1,
    decreases s.len(),
{
    if k < s.len() - 1 {
        assert(s.drop_last()[k] == s[k]);
        lemma_exp_at(s.drop_last(), k);
    }
}

/// Two canonical sequences with the same exponents are equal.
pub proof fn lemma_canonical_unique(a: Seq<(Var, usize)>, b: Seq<(Var, usize)>)
    requires
        canonical(a),
        canonical(b),
        forall|v: usize| exp_of(a, v) == exp_of(b, v),
    ensures
        a == b,
    decreases a.len() + b.len(),
{
    if a.len() == 0 && b.len() == 0 {
        assert(a =~= b);
    } else if a.len() == 0 {
        lemma_exp_at(b, b.len() - 1);
        lemma_exp_absent(a, b.last().0.0);
    } else if b.len() == 0 {
        lemma_exp_at(a, a.len() - 1);
        lemma_exp_absent(b, a.last().0.0);
    } else {
        let va = a.last().0.0;
        let vb = b.last().0.0;
        lemma_exp_at(a, a.len() - 1);
        lemma_exp_at(b, b.len() - 1);
        if va < vb {
            assert forall|k: int| 0 <= k < a.len() implies a[k].0.0 != vb by {}
            lemma_exp_absent(a, vb);
        } else if vb < va {
            assert forall|k: int| 0 <= k < b.len() implies b[k].0.0 != va by {}
            lemma_exp_absent(b, va);
        } else {
            let a2 = a.drop_last();
            let b2 = b.drop_last();
            assert(a =~= a2.push(a.last()));
            assert(b =~= b2.push(b.last()));
            assert forall|v: usize| exp_of(a2, v) == exp_of(b2, v) by {
                lemma_exp_push(a2, a.last(), v);
                lemma_exp_push(b2, b.last(), v);
                if v == va {
                    assert forall|k: int| 0 <= k < a2.len() implies a2[k].0.0 != v by {
                        assert(a2[k] == a[k]);
                    }
                    assert forall|k: int| 0 <= k < b2.len() implies b2[k].0.0 != v by {
                        assert(b2[k] == b[k]);
                    }
                    lemma_exp_absent(a2, v);
                    lemma_exp_absent(b2, v);
                }
            }
            lemma_canonical_unique(a2, b2);
        }
    }
}

/// The product of two terms: exponents of a shared variable add up.
pub fn mul_term_term(left: &Term, right: &Term) -> (r: Term)
    requires
        left.wf(),
        right.wf(),
        product_fits(left@, right@),
    ensures
        r.wf(),
        forall|v: usize| exp_of(r@, v) == exp_of(left@, v) + exp_of(right@, v),
        r@ == term_product(left@, right@),
{
    let steps = join_terms(left, right);
    let mut out: Vec<(Var, usize)> = Vec::new();
    let mut k: usize = 0;
    while k < steps.len()
        invariant
            is_join(steps@, left@, right@),
            product_fits(left@, right@),
            k <= steps.len(),
            out.len() == k,
            forall|m: int| 0 <= m < k ==> (#[trigger] out[m]).0.0 == steps[m].var() && out[m].1 > 0
                && out[m].1 == steps[m].left_exp() + steps[m].right_exp(),
        decreases steps.len() - k,
    {
        let p = match steps[k] {
            Joined::Left(v, e) => (v, e),
            Joined::Right(v, e) => (v, e),
            Joined::Both(v, l, r) => {
                proof {
                    assert(steps[k as int].positive());
                    assert(exp_of(left@, v.0) + exp_of(right@, v.0) <= usize::MAX);
                }
                (v, l + r)
            },
        };
        proof {
            assert(steps[k as int].positive());
        }
        out.push(p);
        k = k + 1;
    }
    proof {
        lemma_join_map(steps@, left@, right@, out@);
        assert forall|v: usize| exp_of(out@, v) == exp_of(left@, v) + exp_of(right@, v) by {
            if exists|m: int| 0 <= m < steps.len() && (#[trigger] steps[m]).var() == v {
                let m = choose|m: int| 0 <= m < steps.len() && (#[trigger] steps[m]).var() == v;
                assert(steps[m].left_exp() == exp_of(left@, v));
            }
        }
        lemma_term_product(left@, right@, out@);
    }
    Term { exps: out }
}

/// One step of the quotient over a join: the step's variable gets the
/// difference of its exponents, pushed when positive.
proof fn lemma_div_step(
    steps: Seq<Joined>,
    a: Seq<(Var, usize)>,
    b: Seq<(Var, usize)>,
    k: int,
    before: Seq<(Var, usize)>,
    after: Seq<(Var, usize)>,
)
    requires
        is_join(steps, a, b),
        0 <= k < steps.len(),
        canonical(before),
        forall|m: int| 0 <= m < before.len() ==> (#[trigger] before[m]).0.0 < steps[k].var(),
        forall|v: usize| #![trigger exp_of(a, v)] #![trigger exp_of(before, v)]
            v < steps[k].var() ==> exp_of(b, v) <= exp_of(a, v) && exp_of(before, v) == exp_of(a, v) - exp_of(b, v),
        forall|v: usize| #![trigger exp_of(before, v)] v >= steps[k].var() ==> exp_of(before, v) == 0,
        steps[k].right_exp() <= steps[k].left_exp(),
        steps[k].left_exp() == steps[k].right_exp() ==> after == before,
        steps[k].left_exp() > steps[k].right_exp() ==> after == before.push(
            (Var(steps[k].var()), (steps[k].left_exp() - steps[k].right_exp()) as usize),
        ),
    ensures
        canonical(after),
        forall|m: int| 0 <= m < after.len() ==> k + 1 < steps.len() ==> (#[trigger] after[m]).0.0 < steps[k + 1].var(),
        forall|v: usize| #![trigger exp_of(a, v)] #![trigger exp_of(after, v)]
            (k + 1 < steps.len() ==> v < steps[k + 1].var()) ==> exp_of(b, v) <= exp_of(a, v)
            && exp_of(after, v) == exp_of(a, v) - exp_of(b, v),
        forall|v: usize| #![trigger exp_of(after, v)] k + 1 < steps.len() && v >= steps[k + 1].var() ==> exp_of(after, v) == 0,
{
    let x = steps[k].var();
    assert(steps[k].positive());
    if k + 1 < steps.len() {
        assert(steps[k].var() < steps[k + 1].var());
    }
    assert forall|m: int| 0 <= m < after.len() implies after[m].0.0 <= x by {
        if m < before.len() {
            assert(after[m] == before[m]);
        }
    }
    assert(canonical(after)) by {
        assert forall|x1: int, y1: int| 0 <= x1 < y1 < after.len() implies after[x1].0.0 < after[y1].0.0 by {
            assert(after[x1] == before[x1]);
            if y1 < before.len() {
                assert(after[y1] == before[y1]);
            }
        }
        assert forall|m: int| 0 <= m < after.len() implies after[m].1 > 0 by {
            if m < before.len() {
                assert(after[m] == before[m]);
            }
        }
    }
    assert forall|v: usize| #![trigger exp_of(a, v)] #![trigger exp_of(after, v)]
        (k + 1 < steps.len() ==> v < steps[k + 1].var()) implies exp_of(b, v) <= exp_of(a, v)
        && exp_of(after, v) == exp_of(a, v) - exp_of(b, v) by {
        if steps[k].left_exp() > steps[k].right_exp() {
            lemma_exp_push(before, (Var(x), (steps[k].left_exp() - steps[k].right_exp()) as usize), v);
        }
        if v == x {
            assert(exp_of(before, v) == 0);
        } else if v < x {
            assert(exp_of(before, v) == exp_of(a, v) - exp_of(b, v));
        }
        if v > x {
            lemma_join_gap(steps, a, b, k + 1, v);
            assert forall|m: int| 0 <= m < after.len() implies after[m].0.0 != v by {}
            lemma_exp_absent(after, v);
        }
    }
    assert forall|v: usize| #![trigger exp_of(after, v)] k + 1 < steps.len() && v >= steps[k + 1].var() implies exp_of(after, v) == 0 by {
        assert forall|m: int| 0 <= m < after.len() implies after[m].0.0 != v by {}
        lemma_exp_absent(after, v);
    }
}

/// The quotient of two terms, if `right` divides `left`: the exponents of
/// `right` are taken from those of `left`, and a deficit in any variable
/// gives `None`.
pub fn div_term_term(left: &Term, right: &Term) -> (r: Option<Term>)
    requires
        left.wf(),
        right.wf(),
    ensures
        r.is_some() == divides(right@, left@),
        r matches Some(t) ==> t.wf() && forall|v: usize|
            exp_of(t@, v) == exp_of(left@, v) - exp_of(right@, v),
        r matches Some(t) ==> t@ == term_quotient(left@, right@),
{
    let steps = join_terms(left, right);
    let n = steps.len();
    let mut out: Vec<(Var, usize)> = Vec::new();
    let mut k: usize = 0;
    while k < n
        invariant
            n == steps.len(),
            is_join(steps@, left@, right@),
            k <= n,
            canonical(out@),
            forall|m: int| 0 <= m < out.len() ==> k < n ==> (#[trigger] out[m]).0.0 < steps[k as int].var(),
            forall|v: usize| #![trigger exp_of(left@, v)] #![trigger exp_of(out@, v)]
                (k < n ==> v < steps[k as int].var()) ==> exp_of(right@, v) <= exp_of(left@, v)
                && exp_of(out@, v) == exp_of(left@, v) - exp_of(right@, v),
            forall|v: usize| #![trigger exp_of(out@, v)] k < n && v >= steps[k as int].var() ==> exp_of(out@, v) == 0,
        decreases n - k,
    {
        let step = steps[k];
        let ghost x = step.var();
        let ghost before = out@;
        proof {
            assert(steps[k as int].positive());
        }
        match step {
            Joined::Right(v, e) => {
                proof {
                    assert(exp_of(right@, v.0) > exp_of(left@, v.0));
                }
                return None;
            },
            Joined::Both(v, l, r) => {
                if l < r {
                    proof {
                        assert(exp_of(right@, v.0) > exp_of(left@, v.0));
                    }
                    return None;
                }
                if l > r {
                    out.push((v, l - r));
                    proof {
                        assert(out@ == before.push((v, (l - r) as usize)));
                    }
                }
            },
            Joined::Left(v, e) => {
                out.push((v, e));
                proof {
                    assert(out@ == before.push((v, e)));
                }
            },
        }
        proof {
            lemma_div_step(steps@, left@, right@, k as int, before, out@);
        }
        k = k + 1;
    }
    proof {
        lemma_term_quotient(left@, right@, out@);
    }
    Some(Term { exps: out })
}

/// The least common multiple of two terms: the larger exponent of each
/// variable.
pub fn lcm(left: &Term, right: &Term) -> (r: Term)
    requires
        left.wf(),
        right.wf(),
    ensures
        r.wf(),
        forall|v: usize| exp_of(r@, v) == vstd::math::max(exp_of(left@, v) as int, exp_of(right@, v) as int),
{
    let steps = join_terms(left, right);
    let mut out: Vec<(Var, usize)> = Vec::new();
    let mut k: usize = 0;
    while k < steps.len()
        invariant
            is_join(steps@, left@, right@),
            k <= steps.len(),
            out.len() == k,
            forall|m: int| 0 <= m < k ==> (#[trigger] out[m]).0.0 == steps[m].var() && out[m].1 > 0
                && out[m].1 == vstd::math::max(steps[m].left_exp() as int, steps[m].right_exp() as int),
        decreases steps.len() - k,
    {
        let p = match steps[k] {
            Joined::Left(v, e) => (v, e),
            Joined::Right(v, e) => (v, e),
            Joined::Both(v, l, r) => (v, if l >= r { l } else { r }),
        };
        proof {
            assert(steps[k as int].positive());
        }
        out.push(p);
        k = k + 1;
    }
    proof {
        lemma_join_map(steps@, left@, right@, out@);
        assert forall|v: usize| exp_of(out@, v) == vstd::math::max(exp_of(left@, v) as int, exp_of(right@, v) as int) by {
            if exists|m: int| 0 <= m < steps.len() && (#[trigger] steps[m]).var() == v {
                let m = choose|m: int| 0 <= m < steps.len() && (#[trigger] steps[m]).var() == v;
                assert(steps[m].left_exp() == exp_of(left@, v));
            }
        }
    }
    Term { exps: out }
}

/// Variables that increase between neighbours increase throughout.
pub proof fn lemma_adjacent_sorted(s: Seq<(Var, usize)>, i: int, j: int)
    requires
        0 <= i < j < s.len(),
        forall|t: int| 0 <= t < s.len() - 1 ==> #[trigger] s[t].0.0 < s[t + 1].0.0,
    ensures
        s[i].0.0 < s[j].0.0,
    decreases j - i,
{
    if j > i + 1 {
        lemma_adjacent_sorted(s, i, j - 1);
    }
}

/// An exponent is at most `usize::MAX`.
pub proof fn lemma_exp_bounded(s: Seq<(Var, usize)>, v: usize)
    ensures
        exp_of(s, v) <= usize::MAX,
    decreases s.len(),
{
    if s.len() > 0 {
        lemma_exp_bounded(s.drop_last(), v);
    }
}

/// The degree of a prefix is at most the degree of the whole sequence.
pub proof fn lemma_degree_prefix(s: Seq<(Var, usize)>, i: int)
    requires
        0 <= i <= s.len(),
    ensures
        degree_of(s.take(i)) <= degree_of(s),
    decreases s.len(),
{
    if i < s.len() {
        assert(s.drop_last().take(i) =~= s.take(i));
        lemma_degree_prefix(s.drop_last(), i);
    } else {
        assert(s.take(i) =~= s);
    }
}

impl Term {
    /// The constant term `1`.
    pub fn one() -> (r: Term)
        ensures
            r.wf(),
            r@ == Seq::<(Var, usize)>::empty(),
    {
        Term { exps: Vec::new() }
    }

    /// The term with the given pairs, if they are in canonical form
    /// (variables strictly increasing, exponents positive).
    pub fn new(exps: Vec<(Var, usize)>) -> (r: Option<Term>)
        ensures
            r.is_some() == canonical(exps@),
            r matches Some(t) ==> t@ == exps@,
    {
        let mut k: usize = 0;
        while k < exps.len()
            invariant
                k <= exps.len(),
                forall|i: int| 0 <= i < k ==> exps[i].1 > 0,
                forall|i: int| 0 <= i < k - 1 ==> #[trigger] exps[i].0.0 < exps[i + 1].0.0,
            decreases exps.len() - k,
        {
            if exps[k].1 == 0 || (k > 0 && exps[k - 1].0.0 >= exps[k].0.0) {
                return None;
            }
            k = k + 1;
        }
        proof {
            assert forall|i: int, j: int| 0 <= i < j < exps.len() implies exps[i].0.0 < exps[j].0.0 by {
                lemma_adjacent_sorted(exps@, i, j);
            }
        }
        Some(Term { exps })
    }

    /// The term with the given pairs, pairs with exponent zero dropped, if
    /// the remaining variables strictly increase.
    pub fn from_pairs(pairs: Vec<(Var, usize)>) -> (r: Option<Term>)
        ensures
            r.is_some() == canonical(nonzero_pairs(pairs@)),
            r matches Some(t) ==> t@ == nonzero_pairs(pairs@),
    {
        let mut kept: Vec<(Var, usize)> = Vec::new();
        let mut i: usize = 0;
        while i < pairs.len()
            invariant
                i <= pairs.len(),
                kept@ == nonzero_pairs(pairs@.take(i as int)),
            decreases pairs.len() - i,
        {
            proof {
                assert(pairs@.take(i + 1).drop_last() =~= pairs@.take(i as int));
                assert(pairs@.take(i + 1).last() == pairs[i as int]);
            }
            if pairs[i].1 > 0 {
                kept.push(pairs[i]);
            }
            i = i + 1;
        }
        proof {
            assert(pairs@.take(i as int) =~= pairs@);
        }
        Term::new(kept)
    }

    /// Whether `self * other` can be formed without an exponent overflowing.
    pub fn can_multiply(&self, other: &Term) -> (r: bool)
        requires
            self.wf(),
            other.wf(),
        ensures
            r == product_fits(self@, other@),
    {
        let a = &self.exps;
        let b = &other.exps;
        let mut i: usize = 0;
        while i < a.len()
            invariant
                a@ == self@,
                b@ == other@,
                canonical(a@),
                canonical(b@),
                i <= a.len(),
                forall|k: int| 0 <= k < i ==> exp_of(b@, a[k].0.0) + a[k].1 <= usize::MAX,
            decreases a.len() - i,
        {
            let (v, ea) = a[i];
            let mut j: usize = 0;
            let mut eb: usize = 0;
            while j < b.len()
                invariant
                    canonical(b@),
                    j <= b.len(),
                    (exists|k: int| 0 <= k < j && b[k].0.0 == v.0) ==> eb == exp_of(b@, v.0),
                    (forall|k: int| 0 <= k < j ==> b[k].0.0 != v.0) ==> eb == 0,
                decreases b.len() - j,
            {
                if b[j].0.0 == v.0 {
                    proof {
                        lemma_exp_at(b@, j as int);
                    }
                    eb = b[j].1;
                }
                j = j + 1;
            }
            proof {
                if forall|k: int| 0 <= k < b.len() ==> b[k].0.0 != v.0 {
                    lemma_exp_absent(b@, v.0);
                }
            }
            if ea > usize::MAX - eb {
                proof {
                    lemma_exp_at(a@, i as int);
                    assert(exp_of(a@, v.0) + exp_of(b@, v.0) > usize::MAX);
                    assert(!product_fits(self@, other@));
                }
                return false;
            }
            i = i + 1;
        }
        proof {
            assert forall|v: usize| exp_of(a@, v) + exp_of(b@, v) <= usize::MAX by {
                lemma_exp_bounded(a@, v);
                lemma_exp_bounded(b@, v);
                if exists|k: int| 0 <= k < a.len() && a[k].0.0 == v {
                    let k = choose|k: int| 0 <= k < a.len() && a[k].0.0 == v;
                    lemma_exp_at(a@, k);
                } else {
                    lemma_exp_absent(a@, v);
                }
            }
        }
        true
    }

}

/// The degree of a term or polynomial.
pub trait Degree {
    spec fn degree(&self) -> nat;

    fn deg(&self) -> (r: usize)
        requires
            self.degree() <= usize::MAX,
        ensures
            r == self.degree(),
    ;
}

impl Degree for Term {
    /// The total degree: the sum of the exponents.
    open spec fn degree(&self) -> nat {
        degree_of(self@)
    }

    fn deg(&self) -> (r: usize) {
        let mut sum: usize = 0;
        let mut i: usize = 0;
        while i < self.exps.len()
            invariant
                i <= self.exps.len(),
                degree_of(self@) <= usize::MAX,
                sum == degree_of(self@.take(i as int)),
            decreases self.exps.len() - i,
        {
            proof {
                assert(self@.take(i + 1).drop_last() =~= self@.take(i as int));
                lemma_degree_prefix(self@, i + 1);
            }
            sum = sum + self.exps[i].1;
            i = i + 1;
        }
        proof {
            assert(self@.take(i as int) =~= self@);
        }
        sum
    }
}

impl Default for Term {
    fn default() -> (r: Term)
        ensures
            r@ == Seq::<(Var, usize)>::empty(),
    {
        Term::one()
    }
}

/// Dividing a product by one of its factors succeeds and gives back the
/// other factor.
pub proof fn lemma_div_undoes_mul(a: Seq<(Var, usize)>, b: Seq<(Var, usize)>)
    requires
        canonical(a),
        canonical(b),
        product_fits(a, b),
    ensures
        divides(b, term_product(a, b)),
        term_quotient(term_product(a, b), b) == a,
{
    let r = lemma_product_exists(a, b);
    lemma_term_product(a, b, r);
    assert forall|v: usize| exp_of(a, v) == exp_of(term_product(a, b), v) - exp_of(b, v) by {}
    lemma_term_quotient(term_product(a, b), b, a);
}

} // verus!
