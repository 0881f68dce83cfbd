use vstd::prelude::*;

use crate::term::{canonical, exp_of, lemma_exp_absent, lemma_exp_at, lemma_exp_push, Term};
use crate::variable::Var;

verus! {

/// One step of the merge of two terms: a variable with its exponent in the
/// left term only, in the right term only, or in both.
#[derive(Copy, Clone, Debug, PartialEq, Eq, Structural)]
pub enum Joined {
    Left(Var, usize),
    Right(Var, usize),
    Both(Var, usize, usize),
}

impl Joined {
    /// The variable of this step.
    pub open spec fn var(self) -> usize {
        match self {
            Joined::Left(v, _) => v.0,
            Joined::Right(v, _) => v.0,
            Joined::Both(v, _, _) => v.0,
        }
    }

    /// Its exponent in the left term (zero when absent).
    pub open spec fn left_exp(self) -> nat {
        match self {
            Joined::Left(_, e) => e as nat,
            Joined::Right(_, _) => 0,
            Joined::Both(_, e, _) => e as nat,
        }
    }

    /// Its exponent in the right term (zero when absent).
    pub open spec fn right_exp(self) -> nat {
        match self {
            Joined::Left(_, _) => 0,
            Joined::Right(_, e) => e as nat,
            Joined::Both(_, _, e) => e as nat,
        }
    }

    /// The exponents held are positive.
    pub open spec fn positive(self) -> bool {
        match self {
            Joined::Left(_, e) => e > 0,
            Joined::Right(_, e) => e > 0,
            Joined::Both(_, l, r) => l > 0 && r > 0,
        }
    }
}

/// `j` is the merge of `a` and `b`: one step per variable of either term,
/// in increasing order of variables, each with both exponents.
pub open spec fn is_join(j: Seq<Joined>, a: Seq<(Var, usize)>, b: Seq<(Var, usize)>) -> bool {
    &&& forall|i: int, k: int| 0 <= i < k < j.len() ==> (#[trigger] j[i]).var() < (#[trigger] j[k]).var()
    &&& forall|k: int| 0 <= k < j.len() ==> (#[trigger] j[k]).positive()
        && j[k].left_exp() == exp_of(a, j[k].var()) && j[k].right_exp() == exp_of(b, j[k].var())
    &&& forall|v: usize|
        #![trigger exp_of(a, v)]
        #![trigger exp_of(b, v)]
        (exp_of(a, v) > 0 || exp_of(b, v) > 0) ==> exists|k: int| 0 <= k < j.len() && (#[trigger] j[k]).var() == v
}

/// Merges two terms by variable: the primitive that the product, quotient
/// and least common multiple of terms are built on.
pub fn join_terms(left: &Term, right: &Term) -> (r: Vec<Joined>)
    requires
        left.wf(),
        right.wf(),
    ensures
        is_join(r@, left@, right@),
{
    let a = &left.exps;
    let b = &right.exps;
    let mut out: Vec<Joined> = Vec::new();
    let mut i: usize = 0;
    let mut j: usize = 0;
    while i < a.len() || j < b.len()
        invariant
            a@ == left@,
            b@ == right@,
            canonical(a@),
            canonical(b@),
            i <= a.len(),
            j <= b.len(),
            forall|x: int, k: int| 0 <= x < k < out.len() ==> (#[trigger] out[x]).var() < (#[trigger] out[k]).var(),
            forall|k: int| 0 <= k < out.len() ==> (#[trigger] out[k]).positive()
                && out[k].left_exp() == exp_of(a@, out[k].var()) && out[k].right_exp() == exp_of(b@, out[k].var()),
            forall|k: int| 0 <= k < out.len() ==> (i < a.len() ==> (#[trigger] out[k]).var() < a[i as int].0.0)
                && (j < b.len() ==> out[k].var() < b[j as int].0.0),
            forall|k: int| 0 <= k < i ==> (j < b.len() ==> a[k].0.0 < b[j as int].0.0),
            forall|k: int| 0 <= k < j ==> (i < a.len() ==> b[k].0.0 < a[i as int].0.0),
            forall|v: usize|
                #![trigger exp_of(a@.take(i as int), v)]
                #![trigger exp_of(b@.take(j as int), v)]
                (exp_of(a@.take(i as int), v) > 0 || exp_of(b@.take(j as int), v) > 0) ==> exists|k: int| 0 <= k < out.len() && (#[trigger] out[k]).var() == v,
        decreases a.len() + b.len() - i - j,
    {
        let ghost a0 = a@.take(i as int);
        let ghost b0 = b@.take(j as int);
        let ghost old_out = out@;
        if j >= b.len() || (i < a.len() && a[i].0.0 < b[j].0.0) {
            let (v, e) = a[i];
            proof {
                lemma_exp_at(a@, i as int);
                assert forall|k: int| 0 <= k < b.len() implies b[k].0.0 != v.0 by {
                    if k >= j {
                        assert(b[k].0.0 >= b[j as int].0.0);
                    }
                }
                lemma_exp_absent(b@, v.0);
                assert(a@.take(i + 1) =~= a0.push(a[i as int]));
            }
            out.push(Joined::Left(v, e));
            proof {
                assert forall|w: usize|
                    #![trigger exp_of(a@.take(i + 1), w)]
                    #![trigger exp_of(b0, w)]
                    (exp_of(a@.take(i + 1), w) > 0 || exp_of(b0, w) > 0) implies exists|k: int| 0 <= k < out.len() && (#[trigger] out[k]).var() == w by {
                    lemma_exp_push(a0, a[i as int], w);
                    if w == v.0 {
                        assert(out[out.len() - 1].var() == w);
                    } else {
                        let k = choose|k: int| 0 <= k < old_out.len() && (#[trigger] old_out[k]).var() == w;
                        assert(out[k] == old_out[k]);
                    }
                }
            }
            i = i + 1;
        } else if i >= a.len() || b[j].0.0 < a[i].0.0 {
            let (v, e) = b[j];
            proof {
                lemma_exp_at(b@, j as int);
                assert forall|k: int| 0 <= k < a.len() implies a[k].0.0 != v.0 by {
                    if k >= i {
                        assert(a[k].0.0 >= a[i as int].0.0);
                    }
                }
                lemma_exp_absent(a@, v.0);
                assert(b@.take(j + 1) =~= b0.push(b[j as int]));
            }
            out.push(Joined::Right(v, e));
            proof {
                assert forall|w: usize|
                    #![trigger exp_of(a0, w)]
                    #![trigger exp_of(b@.take(j + 1), w)]
                    (exp_of(a0, w) > 0 || exp_of(b@.take(j + 1), w) > 0) implies exists|k: int| 0 <= k < out.len() && (#[trigger] out[k]).var() == w by {
                    lemma_exp_push(b0, b[j as int], w);
                    if w == v.0 {
                        assert(out[out.len() - 1].var() == w);
                    } else {
                        let k = choose|k: int| 0 <= k < old_out.len() && (#[trigger] old_out[k]).var() == w;
                        assert(out[k] == old_out[k]);
                    }
                }
            }
            j = j + 1;
        } else {
            let (v, ea) = a[i];
            let eb = b[j].1;
            proof {
                lemma_exp_at(a@, i as int);
                lemma_exp_at(b@, j as int);
                assert(a@.take(i + 1) =~= a0.push(a[i as int]));
                assert(b@.take(j + 1) =~= b0.push(b[j as int]));
            }
            out.push(Joined::Both(v, ea, eb));
            proof {
                assert forall|w: usize|
                    #![trigger exp_of(a@.take(i + 1), w)]
                    #![trigger exp_of(b@.take(j + 1), w)]
                    (exp_of(a@.take(i + 1), w) > 0 || exp_of(b@.take(j + 1), w) > 0) implies exists|k: int| 0 <= k < out.len() && (#[trigger] out[k]).var() == w by {
                    lemma_exp_push(a0, a[i as int], w);
                    lemma_exp_push(b0, b[j as int], w);
                    if w == v.0 {
                        assert(out[out.len() - 1].var() == w);
                    } else {
                        let k = choose|k: int| 0 <= k < old_out.len() && (#[trigger] old_out[k]).var() == w;
                        assert(out[k] == old_out[k]);
                    }
                }
            }
            i = i + 1;
            j = j + 1;
        }
    }
    proof {
        assert(a@.take(a.len() as int) =~= a@);
        assert(b@.take(b.len() as int) =~= b@);
    }
    out
}


/// A sequence that keeps the variables of a join, one positive exponent per
/// step, is canonical; each step's variable carries that exponent, and a
/// variable outside the join is absent from it and from both terms.
pub proof fn lemma_join_map(j: Seq<Joined>, a: Seq<(Var, usize)>, b: Seq<(Var, usize)>, out: Seq<(Var, usize)>)
    requires
        is_join(j, a, b),
        out.len() == j.len(),
        forall|k: int| 0 <= k < out.len() ==> (#[trigger] out[k]).0.0 == j[k].var() && out[k].1 > 0,
    ensures
        canonical(out),
        forall|k: int| 0 <= k < j.len() ==> exp_of(out, (#[trigger] j[k]).var()) == out[k].1,
        forall|v: usize| (forall|k: int| 0 <= k < j.len() ==> (#[trigger] j[k]).var() != v)
            ==> exp_of(out, v) == 0 && exp_of(a, v) == 0 && exp_of(b, v) == 0,
{
    assert forall|x: int, y: int| 0 <= x < y < out.len() implies out[x].0.0 < out[y].0.0 by {
        assert(j[x].var() < j[y].var());
    }
    assert forall|k: int| 0 <= k < j.len() implies exp_of(out, (#[trigger] j[k]).var()) == out[k].1 by {
        lemma_exp_at(out, k);
    }
    assert forall|v: usize| (forall|k: int| 0 <= k < j.len() ==> (#[trigger] j[k]).var() != v)
        implies exp_of(out, v) == 0 && exp_of(a, v) == 0 && exp_of(b, v) == 0 by {
        assert forall|k: int| 0 <= k < out.len() implies out[k].0.0 != v by {
            assert(j[k].var() != v);
        }
        lemma_exp_absent(out, v);
    }
}

/// Between two neighbouring steps of a join, neither term has a variable.
pub proof fn lemma_join_gap(j: Seq<Joined>, a: Seq<(Var, usize)>, b: Seq<(Var, usize)>, k: int, v: usize)
    requires
        is_join(j, a, b),
        0 <= k <= j.len(),
        k == 0 || j[k - 1].var() < v,
        k == j.len() || v < j[k].var(),
    ensures
        exp_of(a, v) == 0,
        exp_of(b, v) == 0,
{
    if exp_of(a, v) > 0 || exp_of(b, v) > 0 {
        let m = choose|m: int| 0 <= m < j.len() && (#[trigger] j[m]).var() == v;
        if m < k {
            if m < k - 1 {
                assert(j[m].var() < j[k - 1].var());
            }
        } else {
            if m > k {
                assert(j[k].var() < j[m].var());
            }
        }
    }
}

} // verus!
