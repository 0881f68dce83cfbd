use vstd::prelude::*;

use core::cmp::Ordering;

use crate::term::{
    canonical, degree_of, exp_of, lemma_exp_absent, lemma_exp_at, lemma_product_exists,
    lemma_term_product, product_fits, term_product, Term,
};
use crate::variable::Var;

verus! {

/// A monomial ordering: a strict total order on canonical terms.
pub trait Order {
    /// `a` comes strictly before `b`.
    spec fn less(a: Seq<(Var, usize)>, b: Seq<(Var, usize)>) -> bool;

    /// `less` is irreflexive, transitive and total on canonical terms.
    proof fn lemma_strict_total(a: Seq<(Var, usize)>, b: Seq<(Var, usize)>, c: Seq<(Var, usize)>)
        requires
            canonical(a),
            canonical(b),
            canonical(c),
        ensures
            !Self::less(a, a),
            Self::less(a, b) && Self::less(b, c) ==> Self::less(a, c),
            a != b ==> Self::less(a, b) || Self::less(b, a),
    ;

    /// The order is compatible with multiplication: `a < b` gives
    /// `a * c < b * c`.
    proof fn lemma_compatible(a: Seq<(Var, usize)>, b: Seq<(Var, usize)>, c: Seq<(Var, usize)>)
        requires
            canonical(a),
            canonical(b),
            canonical(c),
            product_fits(a, c),
            product_fits(b, c),
            Self::less(a, b),
        ensures
            Self::less(term_product(a, c), term_product(b, c)),
    ;

    /// Compares two terms under this ordering.
    fn cmp(a: &Term, b: &Term) -> (r: Ordering)
        requires
            a.wf(),
            b.wf(),
        ensures
            (r == Ordering::Less) == Self::less(a@, b@),
            (r == Ordering::Greater) == Self::less(b@, a@),
            (r == Ordering::Equal) == (a@ == b@),
    ;
}

/// Lexicographic order on exponent vectors, with the variable of smallest
/// index deciding first: the first variable in which the exponents differ
/// decides, a variable absent from a term counting as exponent zero.
pub open spec fn lex_less(a: Seq<(Var, usize)>, b: Seq<(Var, usize)>) -> bool
    decreases a.len(),
{
    if a.len() == 0 {
        b.len() > 0
    } else if b.len() == 0 {
        false
    } else if a[0].0.0 != b[0].0.0 {
        a[0].0.0 > b[0].0.0
    } else if a[0].1 != b[0].1 {
        a[0].1 < b[0].1
    } else {
        lex_less(a.drop_first(), b.drop_first())
    }
}

/// Graded lexicographic order: total degree first, ties broken by `lex_less`.
pub open spec fn grad_lex_less(a: Seq<(Var, usize)>, b: Seq<(Var, usize)>) -> bool {
    degree_of(a) < degree_of(b) || (degree_of(a) == degree_of(b) && lex_less(a, b))
}

pub proof fn lemma_lex_irreflexive(a: Seq<(Var, usize)>)
    ensures
        !lex_less(a, a),
    decreases a.len(),
{
    if a.len() > 0 {
        lemma_lex_irreflexive(a.drop_first());
    }
}

pub proof fn lemma_lex_transitive(a: Seq<(Var, usize)>, b: Seq<(Var, usize)>, c: Seq<(Var, usize)>)
    requires
        lex_less(a, b),
        lex_less(b, c),
    ensures
        lex_less(a, c),
    decreases a.len(),
{
    if a.len() > 0 && b.len() > 0 && c.len() > 0 && a[0] == b[0] && b[0] == c[0] {
        lemma_lex_transitive(a.drop_first(), b.drop_first(), c.drop_first());
    }
}

pub proof fn lemma_lex_total(a: Seq<(Var, usize)>, b: Seq<(Var, usize)>)
    requires
        a != b,
    ensures
        lex_less(a, b) || lex_less(b, a),
    decreases a.len(),
{
    if a.len() == 0 && b.len() == 0 {
        assert(a =~= b);
    }
    if a.len() > 0 && b.len() > 0 && a[0] == b[0] {
        if a.drop_first() == b.drop_first() {
            assert(a =~= seq![a[0]] + a.drop_first());
            assert(b =~= seq![b[0]] + b.drop_first());
        }
        lemma_lex_total(a.drop_first(), b.drop_first());
    }
}

/// Compares `a` and `b` lexicographically.
fn lex_cmp(a: &Term, b: &Term) -> (r: Ordering)
    ensures
        (r == Ordering::Less) == lex_less(a@, b@),
        (r == Ordering::Greater) == lex_less(b@, a@),
        (r == Ordering::Equal) == (a@ == b@),
{
    let x = &a.exps;
    let y = &b.exps;
    let mut i: usize = 0;
    proof {
        assert(x@.skip(0) =~= x@);
        assert(y@.skip(0) =~= y@);
    }
    while i < x.len() && i < y.len()
        invariant
            x@ == a@,
            y@ == b@,
            i <= x.len(),
            i <= y.len(),
            x@.take(i as int) == y@.take(i as int),
            lex_less(a@, b@) == lex_less(x@.skip(i as int), y@.skip(i as int)),
            lex_less(b@, a@) == lex_less(y@.skip(i as int), x@.skip(i as int)),
        decreases x.len() - i,
    {
        let (vx, ex) = x[i];
        let (vy, ey) = y[i];
        proof {
            assert(x@.skip(i as int)[0] == x[i as int]);
            assert(y@.skip(i as int)[0] == y[i as int]);
            assert(x@.skip(i as int).drop_first() =~= x@.skip(i + 1));
            assert(y@.skip(i as int).drop_first() =~= y@.skip(i + 1));
        }
        if vx.0 != vy.0 || ex != ey {
            proof {
                if x@ == y@ {
                    assert(x[i as int] == y[i as int]);
                }
            }
            if vx.0 > vy.0 || (vx.0 == vy.0 && ex < ey) {
                return Ordering::Less;
            } else {
                return Ordering::Greater;
            }
        }
        proof {
            assert(x@.take(i + 1) =~= x@.take(i as int).push(x[i as int]));
            assert(y@.take(i + 1) =~= y@.take(i as int).push(y[i as int]));
        }
        i = i + 1;
    }
    proof {
        if i == x.len() {
            assert(x@.take(i as int) =~= x@);
        }
        if i == y.len() {
            assert(y@.take(i as int) =~= y@);
        }
    }
    if i < y.len() {
        proof {
            if x@ == y@ {
                assert(x@.len() == y@.len());
            }
        }
        Ordering::Less
    } else if i < x.len() {
        proof {
            if x@ == y@ {
                assert(x@.len() == y@.len());
            }
        }
        Ordering::Greater
    } else {
        Ordering::Equal
    }
}

/// The lexicographic ordering.
#[derive(Copy, Clone, Debug, PartialEq, Eq)]
pub struct Lex {}

impl Order for Lex {
    open spec fn less(a: Seq<(Var, usize)>, b: Seq<(Var, usize)>) -> bool {
        lex_less(a, b)
    }

    proof fn lemma_strict_total(a: Seq<(Var, usize)>, b: Seq<(Var, usize)>, c: Seq<(Var, usize)>) {
        lemma_lex_irreflexive(a);
        if lex_less(a, b) && lex_less(b, c) {
            lemma_lex_transitive(a, b, c);
        }
        if a != b {
            lemma_lex_total(a, b);
        }
    }

    proof fn lemma_compatible(a: Seq<(Var, usize)>, b: Seq<(Var, usize)>, c: Seq<(Var, usize)>) {
        lemma_lex_compatible(a, b, c);
    }

    fn cmp(a: &Term, b: &Term) -> (r: Ordering) {
        lex_cmp(a, b)
    }
}


/// The degree of a sequence is at most its length times `usize::MAX`.
proof fn lemma_degree_bound(s: Seq<(Var, usize)>)
    ensures
        degree_of(s) <= s.len() * usize::MAX,
    decreases s.len(),
{
    if s.len() > 0 {
        lemma_degree_bound(s.drop_last());
        assert((s.len() - 1) * usize::MAX + usize::MAX == s.len() * usize::MAX) by (nonlinear_arith);
    }
}

/// The total degree of `t`, computed without overflow.
fn degree_wide(t: &Term) -> (r: u128)
    ensures
        r == degree_of(t@),
{
    let mut sum: u128 = 0;
    let mut i: usize = 0;
    while i < t.exps.len()
        invariant
            i <= t.exps.len(),
            sum == degree_of(t@.take(i as int)),
        decreases t.exps.len() - i,
    {
        proof {
            assert(t@.take(i + 1).drop_last() =~= t@.take(i as int));
            lemma_degree_bound(t@.take(i + 1));
            let n = i + 1;
            assert(n <= usize::MAX);
            assert(n * usize::MAX <= usize::MAX * usize::MAX) by (nonlinear_arith)
                requires n <= usize::MAX;
            assert(usize::MAX * usize::MAX <= u128::MAX) by (nonlinear_arith)
                requires usize::MAX <= u64::MAX;
        }
        sum = sum + t.exps[i].1 as u128;
        i = i + 1;
    }
    proof {
        assert(t@.take(i as int) =~= t@);
    }
    sum
}

/// The graded lexicographic ordering: total degree first, then `Lex`.
#[derive(Copy, Clone, Debug, PartialEq, Eq)]
pub struct GradLex {}

impl Order for GradLex {
    open spec fn less(a: Seq<(Var, usize)>, b: Seq<(Var, usize)>) -> bool {
        grad_lex_less(a, b)
    }

    proof fn lemma_strict_total(a: Seq<(Var, usize)>, b: Seq<(Var, usize)>, c: Seq<(Var, usize)>) {
        lemma_lex_irreflexive(a);
        if lex_less(a, b) && lex_less(b, c) {
            lemma_lex_transitive(a, b, c);
        }
        if a != b {
            lemma_lex_total(a, b);
        }
    }

    proof fn lemma_compatible(a: Seq<(Var, usize)>, b: Seq<(Var, usize)>, c: Seq<(Var, usize)>) {
        lemma_grad_lex_compatible(a, b, c);
    }

    fn cmp(a: &Term, b: &Term) -> (r: Ordering) {
        let da = degree_wide(a);
        let db = degree_wide(b);
        proof {
            lemma_lex_irreflexive(a@);
        }
        if da < db {
            Ordering::Less
        } else if da > db {
            Ordering::Greater
        } else {
            lex_cmp(a, b)
        }
    }
}


/// The exponent of `w` read from the front of a canonical sequence.
pub proof fn lemma_exp_first(s: Seq<(Var, usize)>, w: usize)
    requires
        canonical(s),
        s.len() > 0,
    ensures
        exp_of(s, w) == if s[0].0.0 == w { s[0].1 as nat } else { exp_of(s.drop_first(), w) },
    decreases s.len(),
{
    if s.len() == 1 {
        assert(s.drop_last() =~= Seq::<(Var, usize)>::empty());
        assert(s.drop_first() =~= Seq::<(Var, usize)>::empty());
    } else {
        let d = s.drop_last();
        assert(canonical(d)) by {
            assert forall|i: int, j: int| 0 <= i < j < d.len() implies d[i].0.0 < d[j].0.0 by {
                assert(d[i] == s[i] && d[j] == s[j]);
            }
            assert forall|i: int| 0 <= i < d.len() implies d[i].1 > 0 by {
                assert(d[i] == s[i]);
            }
        }
        lemma_exp_first(d, w);
        assert(d[0] == s[0]);
        assert(s.drop_first().drop_last() =~= d.drop_first());
        assert(s.drop_first().last() == s.last());
        assert(s[0].0.0 < s.last().0.0);
    }
}

/// `v` is where `a` first falls below `b`: the exponents agree on every
/// smaller variable and `a` has the smaller exponent at `v`.
pub open spec fn lex_witness(a: Seq<(Var, usize)>, b: Seq<(Var, usize)>, v: usize) -> bool {
    exp_of(a, v) < exp_of(b, v) && forall|w: usize| w < v ==> exp_of(a, w) == exp_of(b, w)
}

/// No variable below `x` occurs in a canonical sequence starting at `x`.
proof fn lemma_below_first(s: Seq<(Var, usize)>, w: usize)
    requires
        canonical(s),
        s.len() > 0,
        w < s[0].0.0,
    ensures
        exp_of(s, w) == 0,
{
    assert forall|k: int| 0 <= k < s.len() implies s[k].0.0 != w by {
        if k > 0 {
            assert(s[0].0.0 < s[k].0.0);
        }
    }
    lemma_exp_absent(s, w);
}

proof fn lemma_drop_first_canonical(s: Seq<(Var, usize)>)
    requires
        canonical(s),
        s.len() > 0,
    ensures
        canonical(s.drop_first()),
        s.drop_first().len() > 0 ==> s[0].0.0 < s.drop_first()[0].0.0,
{
    let d = s.drop_first();
    assert forall|i: int, j: int| 0 <= i < j < d.len() implies d[i].0.0 < d[j].0.0 by {
        assert(d[i] == s[i + 1] && d[j] == s[j + 1]);
    }
    assert forall|i: int| 0 <= i < d.len() implies d[i].1 > 0 by {
        assert(d[i] == s[i + 1]);
    }
    if d.len() > 0 {
        assert(d[0] == s[1]);
    }
}

/// On canonical terms, `lex_less` is the lexicographic order of exponent
/// vectors.
pub proof fn lemma_lex_exps(a: Seq<(Var, usize)>, b: Seq<(Var, usize)>)
    requires
        canonical(a),
        canonical(b),
    ensures
        lex_less(a, b) <==> exists|v: usize| lex_witness(a, b, v),
    decreases a.len(),
{
    if a.len() == 0 {
        if b.len() == 0 {
            assert forall|v: usize| !lex_witness(a, b, v) by {}
        } else {
            let y = b[0].0.0;
            lemma_exp_at(b, 0);
            assert forall|w: usize| w < y implies exp_of(a, w) == exp_of(b, w) by {
                lemma_below_first(b, w);
            }
            assert(lex_witness(a, b, y));
        }
    } else if b.len() == 0 {
        assert forall|v: usize| !lex_witness(a, b, v) by {}
    } else {
        let x = a[0].0.0;
        let y = b[0].0.0;
        lemma_exp_at(a, 0);
        lemma_exp_at(b, 0);
        if x > y {
            lemma_below_first(a, y);
            assert forall|w: usize| w < y implies exp_of(a, w) == exp_of(b, w) by {
                lemma_below_first(a, w);
                lemma_below_first(b, w);
            }
            assert(lex_witness(a, b, y));
        } else if x < y {
            assert forall|v: usize| !lex_witness(a, b, v) by {
                lemma_below_first(b, x);
                if v < x {
                    lemma_below_first(a, v);
                    lemma_below_first(b, v);
                } else if v > x {
                    if lex_witness(a, b, v) {
                        assert(exp_of(a, x) == exp_of(b, x));
                    }
                }
            }
        } else if a[0].1 != b[0].1 {
            if a[0].1 < b[0].1 {
                assert forall|w: usize| w < x implies exp_of(a, w) == exp_of(b, w) by {
                    lemma_below_first(a, w);
                    lemma_below_first(b, w);
                }
                assert(lex_witness(a, b, x));
            } else {
                assert forall|v: usize| !lex_witness(a, b, v) by {
                    if v < x {
                        lemma_below_first(a, v);
                        lemma_below_first(b, v);
                    } else if v > x {
                        if lex_witness(a, b, v) {
                            assert(exp_of(a, x) == exp_of(b, x));
                        }
                    }
                }
            }
        } else {
            let a2 = a.drop_first();
            let b2 = b.drop_first();
            lemma_drop_first_canonical(a);
            lemma_drop_first_canonical(b);
            lemma_lex_exps(a2, b2);
            assert(a[0] == b[0]);
            assert forall|w: usize| exp_of(a, w) == exp_of(b, w) || (w != x && exp_of(a, w) == exp_of(a2, w)
                && exp_of(b, w) == exp_of(b2, w)) by {
                lemma_exp_first(a, w);
                lemma_exp_first(b, w);
            }
            assert forall|w: usize| w != x ==> exp_of(a, w) == exp_of(a2, w) && exp_of(b, w) == exp_of(b2, w) by {
                lemma_exp_first(a, w);
                lemma_exp_first(b, w);
            }
            assert(exp_of(a, x) == exp_of(b, x));
            if a2.len() > 0 {
                lemma_below_first(a2, x);
            } else {
                assert(exp_of(a2, x) == 0);
            }
            if b2.len() > 0 {
                lemma_below_first(b2, x);
            } else {
                assert(exp_of(b2, x) == 0);
            }
            if exists|v: usize| lex_witness(a, b, v) {
                let v = choose|v: usize| lex_witness(a, b, v);
                assert(v != x);
                assert forall|w: usize| w < v implies exp_of(a2, w) == exp_of(b2, w) by {
                    if w != x {
                        assert(exp_of(a, w) == exp_of(b, w));
                    }
                }
                assert(lex_witness(a2, b2, v));
            }
            if exists|v: usize| lex_witness(a2, b2, v) {
                let v = choose|v: usize| lex_witness(a2, b2, v);
                assert(v != x);
                assert forall|w: usize| w < v implies exp_of(a, w) == exp_of(b, w) by {
                    if w != x {
                        assert(exp_of(a2, w) == exp_of(b2, w));
                    }
                }
                assert(lex_witness(a, b, v));
            }
        }
    }
}

/// Multiplying both sides by the same term keeps the lexicographic order.
pub proof fn lemma_lex_compatible(a: Seq<(Var, usize)>, b: Seq<(Var, usize)>, c: Seq<(Var, usize)>)
    requires
        canonical(a),
        canonical(b),
        canonical(c),
        product_fits(a, c),
        product_fits(b, c),
        lex_less(a, b),
    ensures
        lex_less(term_product(a, c), term_product(b, c)),
{
    let ra = lemma_product_exists(a, c);
    let rb = lemma_product_exists(b, c);
    lemma_term_product(a, c, ra);
    lemma_term_product(b, c, rb);
    lemma_lex_exps(a, b);
    let v = choose|v: usize| lex_witness(a, b, v);
    assert(lex_witness(ra, rb, v));
    lemma_lex_exps(ra, rb);
}


/// Without its last pair, a canonical sequence keeps every other exponent and
/// has none at the last variable.
proof fn lemma_without_last(s: Seq<(Var, usize)>)
    requires
        canonical(s),
        s.len() > 0,
    ensures
        canonical(s.drop_last()),
        exp_of(s.drop_last(), s.last().0.0) == 0,
        forall|w: usize| w != s.last().0.0 ==> exp_of(s.drop_last(), w) == exp_of(s, w),
        degree_of(s) == degree_of(s.drop_last()) + s.last().1,
{
    let d = s.drop_last();
    assert forall|i: int, j: int| 0 <= i < j < d.len() implies d[i].0.0 < d[j].0.0 by {
        assert(d[i] == s[i] && d[j] == s[j]);
    }
    assert forall|i: int| 0 <= i < d.len() implies d[i].1 > 0 by {
        assert(d[i] == s[i]);
    }
    assert forall|k: int| 0 <= k < d.len() implies d[k].0.0 != s.last().0.0 by {
        assert(d[k] == s[k]);
    }
    lemma_exp_absent(d, s.last().0.0);
}

/// Every variable of a canonical sequence is at most its last.
proof fn lemma_vars_at_most_last(s: Seq<(Var, usize)>, u: usize)
    requires
        canonical(s),
        s.len() > 0,
        u > s.last().0.0,
    ensures
        exp_of(s, u) == 0,
{
    assert forall|k: int| 0 <= k < s.len() implies s[k].0.0 != u by {
        if k < s.len() - 1 {
            assert(s[k].0.0 < s[s.len() - 1].0.0);
        }
    }
    lemma_exp_absent(s, u);
}

/// Degrees add up when exponents do.
pub proof fn lemma_degree_sum(r: Seq<(Var, usize)>, a: Seq<(Var, usize)>, c: Seq<(Var, usize)>)
    requires
        canonical(r),
        canonical(a),
        canonical(c),
        forall|v: usize| exp_of(r, v) == exp_of(a, v) + exp_of(c, v),
    ensures
        degree_of(r) == degree_of(a) + degree_of(c),
    decreases r.len(),
{
    if r.len() == 0 {
        if a.len() > 0 {
            lemma_exp_at(a, a.len() - 1);
            assert(exp_of(r, a.last().0.0) == 0);
        }
        if c.len() > 0 {
            lemma_exp_at(c, c.len() - 1);
            assert(exp_of(r, c.last().0.0) == 0);
        }
    } else {
        let v = r.last().0.0;
        lemma_exp_at(r, r.len() - 1);
        lemma_without_last(r);
        if a.len() > 0 && a.last().0.0 > v {
            lemma_exp_at(a, a.len() - 1);
            lemma_vars_at_most_last(r, a.last().0.0);
        }
        if c.len() > 0 && c.last().0.0 > v {
            lemma_exp_at(c, c.len() - 1);
            lemma_vars_at_most_last(r, c.last().0.0);
        }
        let a2 = if a.len() > 0 && a.last().0.0 == v { a.drop_last() } else { a };
        let c2 = if c.len() > 0 && c.last().0.0 == v { c.drop_last() } else { c };
        if a.len() > 0 && a.last().0.0 == v {
            lemma_without_last(a);
            lemma_exp_at(a, a.len() - 1);
        } else if a.len() > 0 {
            lemma_vars_at_most_last(a, v);
        }
        if c.len() > 0 && c.last().0.0 == v {
            lemma_without_last(c);
            lemma_exp_at(c, c.len() - 1);
        } else if c.len() > 0 {
            lemma_vars_at_most_last(c, v);
        }
        assert(exp_of(a2, v) == 0);
        assert(exp_of(c2, v) == 0);
        assert(degree_of(a) == degree_of(a2) + exp_of(a, v));
        assert(degree_of(c) == degree_of(c2) + exp_of(c, v));
        assert forall|w: usize| exp_of(r.drop_last(), w) == exp_of(a2, w) + exp_of(c2, w) by {
            if w != v {
                assert(exp_of(r, w) == exp_of(a, w) + exp_of(c, w));
            }
        }
        lemma_degree_sum(r.drop_last(), a2, c2);
    }
}

/// Multiplying both sides by the same term keeps the graded order.
pub proof fn lemma_grad_lex_compatible(a: Seq<(Var, usize)>, b: Seq<(Var, usize)>, c: Seq<(Var, usize)>)
    requires
        canonical(a),
        canonical(b),
        canonical(c),
        product_fits(a, c),
        product_fits(b, c),
        grad_lex_less(a, b),
    ensures
        grad_lex_less(term_product(a, c), term_product(b, c)),
{
    let ra = lemma_product_exists(a, c);
    let rb = lemma_product_exists(b, c);
    lemma_term_product(a, c, ra);
    lemma_term_product(b, c, rb);
    lemma_degree_sum(ra, a, c);
    lemma_degree_sum(rb, b, c);
    if lex_less(a, b) {
        lemma_lex_compatible(a, b, c);
    }
}

} // verus!
