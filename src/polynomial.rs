use vstd::prelude::*;

use core::cmp::Ordering;
use core::marker::PhantomData;

use crate::order::Order;
use crate::term::{canonical, degree_of, mul_term_term, product_fits, term_product, Degree, Term};
use crate::variable::Var;

verus! {

/// The view of a monomial: its coefficient and the view of its term.
pub type MonoView = (i64, Seq<(Var, usize)>);

/// The number of distinct 64-bit values; coefficients are taken modulo it.
pub open spec fn modulus() -> int {
    0x1_0000_0000_0000_0000
}

/// The `i64` congruent to `x` modulo 2^64: coefficients form the ring of
/// integers modulo 2^64, as `i64` wrap-around arithmetic computes it.
pub open spec fn wrap(x: int) -> int {
    let m = x % modulus();
    if m > i64::MAX {
        m - modulus()
    } else {
        m
    }
}

pub proof fn lemma_wrap_range(x: int)
    ensures
        i64::MIN <= wrap(x) <= i64::MAX,
        wrap(x) % modulus() == x % modulus(),
{
}

pub proof fn lemma_wrap_small(x: int)
    requires
        i64::MIN <= x <= i64::MAX,
    ensures
        wrap(x) == x,
{
}

/// Wrapping an intermediate sum does not change the wrapped result.
pub proof fn lemma_wrap_add(x: int, y: int)
    ensures
        wrap(wrap(x) + y) == wrap(x + y),
        wrap(x + wrap(y)) == wrap(x + y),
{
    lemma_wrap_range(x);
    lemma_wrap_range(y);
    vstd::arithmetic::div_mod::lemma_add_mod_noop(wrap(x), y, modulus());
    vstd::arithmetic::div_mod::lemma_add_mod_noop(x, y, modulus());
    vstd::arithmetic::div_mod::lemma_add_mod_noop(x, wrap(y), modulus());
}

/// `i64::wrapping_add`, `wrapping_sub` and `wrapping_mul` compute `wrap`.
pub proof fn lemma_wrapping_ops(a: i64, b: i64)
    ensures
        vstd::wrapping::i64_specs::wrapping_add(a, b) == wrap(a + b),
        vstd::wrapping::i64_specs::wrapping_sub(a, b) == wrap(a - b),
        vstd::wrapping::i64_specs::wrapping_mul(a, b) == wrap(a * b),
{
}

/// A sum over a sequence of monomials, each weighted by `h`.
pub open spec fn wsum(s: Seq<MonoView>, h: spec_fn(int, Seq<(Var, usize)>) -> int) -> int
    decreases s.len(),
{
    if s.len() == 0 {
        0
    } else {
        wsum(s.drop_last(), h) + h(s.last().0 as int, s.last().1)
    }
}

/// The weight that picks the coefficient of term `t`.
pub open spec fn at_term(t: Seq<(Var, usize)>) -> spec_fn(int, Seq<(Var, usize)>) -> int {
    |c: int, u: Seq<(Var, usize)>| if u == t { c } else { 0 }
}

/// The coefficient of `t` in the formal sum `s` (as an integer, before
/// reduction modulo 2^64).
pub open spec fn coeff_at(s: Seq<MonoView>, t: Seq<(Var, usize)>) -> int {
    wsum(s, at_term(t))
}

/// The weight that multiplies each coefficient by `k` of its term.
pub open spec fn linear(k: spec_fn(Seq<(Var, usize)>) -> int) -> spec_fn(int, Seq<(Var, usize)>) -> int {
    |c: int, w: Seq<(Var, usize)>| c * k(w)
}

/// Congruent coefficients give congruent weighted sums.
pub proof fn lemma_wrap_congruent(x: int, a: int, b: int, k: int)
    requires
        wrap(a) == wrap(b),
    ensures
        wrap(x + a * k) == wrap(x + b * k),
{
    lemma_wrap_range(a);
    lemma_wrap_range(b);
    vstd::arithmetic::div_mod::lemma_mul_mod_noop_left(a, k, modulus());
    vstd::arithmetic::div_mod::lemma_mul_mod_noop_left(b, k, modulus());
    vstd::arithmetic::div_mod::lemma_add_mod_noop(x, a * k, modulus());
    vstd::arithmetic::div_mod::lemma_add_mod_noop(x, b * k, modulus());
}

pub proof fn lemma_wsum_concat(a: Seq<MonoView>, b: Seq<MonoView>, h: spec_fn(int, Seq<(Var, usize)>) -> int)
    ensures
        wsum(a + b, h) == wsum(a, h) + wsum(b, h),
    decreases b.len(),
{
    if b.len() == 0 {
        assert(a + b =~= a);
    } else {
        assert((a + b).drop_last() =~= a + b.drop_last());
        lemma_wsum_concat(a, b.drop_last(), h);
    }
}

pub proof fn lemma_wsum_single(x: MonoView, h: spec_fn(int, Seq<(Var, usize)>) -> int)
    ensures
        wsum(seq![x], h) == h(x.0 as int, x.1),
{
    assert(seq![x].drop_last() =~= Seq::<MonoView>::empty());
    assert(wsum(Seq::<MonoView>::empty(), h) == 0);
}

/// A sum split around position `k`.
pub proof fn lemma_wsum_split(s: Seq<MonoView>, k: int, h: spec_fn(int, Seq<(Var, usize)>) -> int)
    requires
        0 <= k < s.len(),
    ensures
        wsum(s, h) == wsum(s.take(k), h) + h(s[k].0 as int, s[k].1) + wsum(s.skip(k + 1), h),
{
    assert(s =~= s.take(k) + seq![s[k]] + s.skip(k + 1));
    lemma_wsum_concat(s.take(k) + seq![s[k]], s.skip(k + 1), h);
    lemma_wsum_concat(s.take(k), seq![s[k]], h);
    lemma_wsum_single(s[k], h);
}

/// The weight that picks, from each monomial times `t`, what lands on `u`.
pub open spec fn shift_weight(t: Seq<(Var, usize)>, u: Seq<(Var, usize)>) -> spec_fn(int, Seq<(Var, usize)>) -> int {
    |d: int, w: Seq<(Var, usize)>| if term_product(w, t) == u { d } else { 0 }
}

/// The coefficient of `u` in `s` multiplied by the term `t`.
pub open spec fn shifted_coeff(s: Seq<MonoView>, t: Seq<(Var, usize)>, u: Seq<(Var, usize)>) -> int {
    wsum(s, shift_weight(t, u))
}

/// For each term `t`, the coefficient of `u` in `g` times `t`.
pub open spec fn product_row(g: Seq<MonoView>, u: Seq<(Var, usize)>) -> spec_fn(Seq<(Var, usize)>) -> int {
    |t: Seq<(Var, usize)>| shifted_coeff(g, t, u)
}

/// The coefficient of `u` in the product `f * g` (as an integer, before
/// reduction modulo 2^64).
pub open spec fn product_coeff(f: Seq<MonoView>, g: Seq<MonoView>, u: Seq<(Var, usize)>) -> int {
    wsum(f, linear(product_row(g, u)))
}

/// Every term of `s` can be multiplied by `t` without an exponent overflowing.
pub open spec fn scale_fits(s: Seq<MonoView>, t: Seq<(Var, usize)>) -> bool {
    forall|j: int| 0 <= j < s.len() ==> product_fits(#[trigger] s[j].1, t)
}

/// Every term of `g` can be multiplied by every term of `f`.
pub open spec fn product_fits_all(f: Seq<MonoView>, g: Seq<MonoView>) -> bool {
    forall|i: int| 0 <= i < f.len() ==> scale_fits(g, #[trigger] f[i].1)
}

/// One more element of a prefix adds its weight.
pub proof fn lemma_wsum_take(s: Seq<MonoView>, i: int, h: spec_fn(int, Seq<(Var, usize)>) -> int)
    requires
        0 <= i < s.len(),
    ensures
        wsum(s.take(i + 1), h) == wsum(s.take(i), h) + h(s[i].0 as int, s[i].1),
{
    assert(s.take(i + 1).drop_last() =~= s.take(i));
}

/// The coefficients of a canonical polynomial are `i64` values.
pub proof fn lemma_coeff_range<O: Order>(s: Seq<MonoView>, u: Seq<(Var, usize)>)
    requires
        poly_wf::<O>(s),
    ensures
        i64::MIN <= coeff_at(s, u) <= i64::MAX,
        wrap(coeff_at(s, u)) == coeff_at(s, u),
{
    if exists|k: int| 0 <= k < s.len() && s[k].1 == u {
        let k = choose|k: int| 0 <= k < s.len() && s[k].1 == u;
        lemma_coeff_present::<O>(s, k);
    } else {
        lemma_coeff_absent(s, u);
    }
    lemma_wrap_small(coeff_at(s, u));
}

/// A canonical polynomial under ordering `O`: terms canonical and strictly
/// increasing under `O`, coefficients nonzero.
pub open spec fn poly_wf<O: Order>(s: Seq<MonoView>) -> bool {
    entries_ok(s) && sorted_by::<O>(s)
}

/// Every term is canonical and every coefficient nonzero.
pub open spec fn entries_ok(s: Seq<MonoView>) -> bool {
    forall|i: int| 0 <= i < s.len() ==> canonical(#[trigger] s[i].1) && s[i].0 != 0
}

/// The terms strictly increase under `O`.
pub open spec fn sorted_by<O: Order>(s: Seq<MonoView>) -> bool {
    forall|i: int, j: int| 0 <= i < j < s.len() ==> O::less(#[trigger] s[i].1, #[trigger] s[j].1)
}

/// A term that no monomial of `s` carries has coefficient zero.
pub proof fn lemma_coeff_absent(s: Seq<MonoView>, t: Seq<(Var, usize)>)
    requires
        forall|i: int| 0 <= i < s.len() ==> s[i].1 != t,
    ensures
        coeff_at(s, t) == 0,
    decreases s.len(),
{
    if s.len() > 0 {
        lemma_coeff_absent(s.drop_last(), t);
    }
}

/// In a canonical polynomial each term carries its own coefficient.
pub proof fn lemma_coeff_present<O: Order>(s: Seq<MonoView>, k: int)
    requires
        poly_wf::<O>(s),
        0 <= k < s.len(),
    ensures
        coeff_at(s, s[k].1) == s[k].0,
{
    let t = s[k].1;
    lemma_wsum_split(s, k, at_term(t));
    assert forall|i: int| 0 <= i < s.take(k).len() implies #[trigger] s.take(k)[i].1 != t by {
        O::lemma_strict_total(s[i].1, t, t);
    }
    assert forall|i: int| 0 <= i < s.skip(k + 1).len() implies #[trigger] s.skip(k + 1)[i].1 != t by {
        O::lemma_strict_total(s[k + 1 + i].1, t, t);
    }
    lemma_coeff_absent(s.take(k), t);
    lemma_coeff_absent(s.skip(k + 1), t);
}

/// The coefficient change when the monomial at `k` is replaced by `x`.
pub proof fn lemma_coeff_update(s: Seq<MonoView>, k: int, x: MonoView, u: Seq<(Var, usize)>)
    requires
        0 <= k < s.len(),
    ensures
        coeff_at(s.update(k, x), u) == coeff_at(s, u) - at_term(u)(s[k].0 as int, s[k].1) + at_term(u)(x.0 as int, x.1),
{
    let s1 = s.update(k, x);
    lemma_wsum_split(s, k, at_term(u));
    lemma_wsum_split(s1, k, at_term(u));
    assert(s1.take(k) =~= s.take(k));
    assert(s1.skip(k + 1) =~= s.skip(k + 1));
}

/// Removing the monomial whose coefficient cancels keeps the polynomial
/// canonical.
proof fn lemma_remove_at<O: Order>(s0: Seq<MonoView>, k: int, c: i64)
    requires
        poly_wf::<O>(s0),
        0 <= k < s0.len(),
        wrap(s0[k].0 + c) == 0,
        coeff_at(s0, s0[k].1) == s0[k].0,
    ensures
        poly_wf::<O>(s0.remove(k)),
        forall|u: Seq<(Var, usize)>| #[trigger] coeff_at(s0.remove(k), u) == if u == s0[k].1 {
            wrap(coeff_at(s0, u) + c)
        } else {
            coeff_at(s0, u)
        },
        forall|f: spec_fn(Seq<(Var, usize)>) -> int| #[trigger] wrap(wsum(s0.remove(k), linear(f)))
            == wrap(wsum(s0, linear(f)) + c * f(s0[k].1)),
{
    let s1 = s0.remove(k);
    assert(s1 =~= s0.take(k) + s0.skip(k + 1));
    assert forall|f: spec_fn(Seq<(Var, usize)>) -> int| #[trigger] wrap(wsum(s1, linear(f)))
        == wrap(wsum(s0, linear(f)) + c * f(s0[k].1)) by {
        lemma_wsum_split(s0, k, linear(f));
        lemma_wsum_concat(s0.take(k), s0.skip(k + 1), linear(f));
        let w1 = wsum(s1, linear(f));
        lemma_wrap_small(0);
        lemma_wrap_congruent(w1, 0, s0[k].0 + c, f(s0[k].1));
        assert(w1 + (s0[k].0 + c) * f(s0[k].1) == wsum(s0, linear(f)) + c * f(s0[k].1)) by (nonlinear_arith)
            requires w1 == wsum(s0, linear(f)) - s0[k].0 * f(s0[k].1);
    }
    assert forall|u: Seq<(Var, usize)>| #[trigger] coeff_at(s1, u) == if u == s0[k].1 {
        wrap(coeff_at(s0, u) + c)
    } else {
        coeff_at(s0, u)
    } by {
        lemma_wsum_split(s0, k, at_term(u));
        lemma_wsum_concat(s0.take(k), s0.skip(k + 1), at_term(u));
    }
    assert forall|i: int, j: int| 0 <= i < j < s1.len() implies O::less(#[trigger] s1[i].1, #[trigger] s1[j].1) by {
        let i0 = if i < k { i } else { i + 1 };
        let j0 = if j < k { j } else { j + 1 };
        assert(s1[i] == s0[i0] && s1[j] == s0[j0]);
    }
    assert forall|i: int| 0 <= i < s1.len() implies canonical(#[trigger] s1[i].1) && s1[i].0 != 0 by {
        let i0 = if i < k { i } else { i + 1 };
        assert(s1[i] == s0[i0]);
        assert(canonical(s0[i0].1) && s0[i0].0 != 0);
    }
}

/// Replacing the coefficient at `k` by the new nonzero sum keeps the
/// polynomial canonical.
proof fn lemma_update_at<O: Order>(s0: Seq<MonoView>, k: int, c: i64)
    requires
        poly_wf::<O>(s0),
        0 <= k < s0.len(),
        wrap(s0[k].0 + c) != 0,
        coeff_at(s0, s0[k].1) == s0[k].0,
    ensures
        poly_wf::<O>(s0.update(k, (wrap(s0[k].0 + c) as i64, s0[k].1))),
        forall|u: Seq<(Var, usize)>| #[trigger] coeff_at(s0.update(k, (wrap(s0[k].0 + c) as i64, s0[k].1)), u) == if u == s0[k].1 {
            wrap(coeff_at(s0, u) + c)
        } else {
            coeff_at(s0, u)
        },
        forall|f: spec_fn(Seq<(Var, usize)>) -> int| #[trigger] wrap(wsum(s0.update(k, (wrap(s0[k].0 + c) as i64, s0[k].1)), linear(f)))
            == wrap(wsum(s0, linear(f)) + c * f(s0[k].1)),
{
    let x = (wrap(s0[k].0 + c) as i64, s0[k].1);
    let s1 = s0.update(k, x);
    lemma_wrap_range(s0[k].0 + c);
    assert forall|f: spec_fn(Seq<(Var, usize)>) -> int| #[trigger] wrap(wsum(s1, linear(f)))
        == wrap(wsum(s0, linear(f)) + c * f(s0[k].1)) by {
        lemma_wsum_split(s0, k, linear(f));
        lemma_wsum_split(s1, k, linear(f));
        assert(s1.take(k) =~= s0.take(k));
        assert(s1.skip(k + 1) =~= s0.skip(k + 1));
        let rest = wsum(s0, linear(f)) - s0[k].0 * f(s0[k].1);
        lemma_wrap_small(x.0 as int);
        lemma_wrap_range(s0[k].0 + c);
        lemma_wrap_congruent(rest, x.0 as int, s0[k].0 + c, f(s0[k].1));
        assert(rest + (s0[k].0 + c) * f(s0[k].1) == wsum(s0, linear(f)) + c * f(s0[k].1)) by (nonlinear_arith)
            requires rest == wsum(s0, linear(f)) - s0[k].0 * f(s0[k].1);
    }
    assert forall|u: Seq<(Var, usize)>| #[trigger] coeff_at(s1, u) == if u == s0[k].1 {
        wrap(coeff_at(s0, u) + c)
    } else {
        coeff_at(s0, u)
    } by {
        lemma_coeff_update(s0, k, x, u);
    }
    assert forall|i: int, j: int| 0 <= i < j < s1.len() implies O::less(#[trigger] s1[i].1, #[trigger] s1[j].1) by {
        assert(s1[i].1 == s0[i].1 && s1[j].1 == s0[j].1);
    }
    assert forall|i: int| 0 <= i < s1.len() implies canonical(#[trigger] s1[i].1) && s1[i].0 != 0 by {
        assert(s1[i].1 == s0[i].1);
        if i == k {
            assert(s1[i].0 as int == wrap(s0[k].0 + c));
        } else {
            assert(s1[i] == s0[i]);
        }
    }
}

proof fn lemma_insert_coeff(s0: Seq<MonoView>, k: int, c: i64, t: Seq<(Var, usize)>, u: Seq<(Var, usize)>)
    requires
        0 <= k <= s0.len(),
    ensures
        coeff_at(s0.insert(k, (c, t)), u) == coeff_at(s0, u) + at_term(u)(c as int, t),
{
    let s1 = s0.insert(k, (c, t));
    lemma_wsum_split(s1, k, at_term(u));
    assert(s1.take(k) =~= s0.take(k));
    assert(s1.skip(k + 1) =~= s0.skip(k));
    assert(s0 =~= s0.take(k) + s0.skip(k));
    lemma_wsum_concat(s0.take(k), s0.skip(k), at_term(u));
}

/// Inserting a new term at its place in the order keeps the polynomial
/// canonical.
proof fn lemma_insert_at<O: Order>(s0: Seq<MonoView>, k: int, c: i64, t: Seq<(Var, usize)>)
    requires
        poly_wf::<O>(s0),
        canonical(t),
        c != 0,
        0 <= k <= s0.len(),
        forall|i: int| 0 <= i < k ==> O::less(#[trigger] s0[i].1, t),
        k < s0.len() ==> O::less(t, s0[k].1),
        coeff_at(s0, t) == 0,
    ensures
        poly_wf::<O>(s0.insert(k, (c, t))),
        forall|u: Seq<(Var, usize)>| #[trigger] coeff_at(s0.insert(k, (c, t)), u) == if u == t {
            wrap(coeff_at(s0, u) + c)
        } else {
            coeff_at(s0, u)
        },
        forall|f: spec_fn(Seq<(Var, usize)>) -> int| #[trigger] wrap(wsum(s0.insert(k, (c, t)), linear(f)))
            == wrap(wsum(s0, linear(f)) + c * f(t)),
{
    let s1 = s0.insert(k, (c, t));
    assert forall|f: spec_fn(Seq<(Var, usize)>) -> int| #[trigger] wrap(wsum(s1, linear(f)))
        == wrap(wsum(s0, linear(f)) + c * f(t)) by {
        lemma_wsum_split(s1, k, linear(f));
        assert(s1.take(k) =~= s0.take(k));
        assert(s1.skip(k + 1) =~= s0.skip(k));
        assert(s0 =~= s0.take(k) + s0.skip(k));
        lemma_wsum_concat(s0.take(k), s0.skip(k), linear(f));
    }
    assert forall|u: Seq<(Var, usize)>| #[trigger] coeff_at(s1, u) == if u == t {
        wrap(coeff_at(s0, u) + c)
    } else {
        coeff_at(s0, u)
    } by {
        lemma_insert_coeff(s0, k, c, t, u);
        lemma_wrap_small(c as int);
    }
    lemma_insert_sorted::<O>(s0, k, c, t);
    lemma_insert_entries::<O>(s0, k, c, t);
}

proof fn lemma_insert_sorted<O: Order>(s0: Seq<MonoView>, k: int, c: i64, t: Seq<(Var, usize)>)
    requires
        poly_wf::<O>(s0),
        canonical(t),
        0 <= k <= s0.len(),
        forall|i: int| 0 <= i < k ==> O::less(#[trigger] s0[i].1, t),
        k < s0.len() ==> O::less(t, s0[k].1),
    ensures
        sorted_by::<O>(s0.insert(k, (c, t))),
{
    let s1 = s0.insert(k, (c, t));
    assert forall|i: int, j: int| 0 <= i < j < s1.len() implies O::less(#[trigger] s1[i].1, #[trigger] s1[j].1) by {
        if j == k {
            assert(s1[i] == s0[i]);
        } else if i == k {
            assert(s1[j] == s0[j - 1]);
            if j - 1 > k {
                assert(canonical(s0[k].1));
                assert(canonical(s0[j - 1].1));
                O::lemma_strict_total(t, s0[k].1, s0[j - 1].1);
            }
        } else {
            let i0 = if i < k { i } else { i - 1 };
            let j0 = if j < k { j } else { j - 1 };
            assert(s1[i] == s0[i0] && s1[j] == s0[j0]);
            if i < k && j > k {
                assert(canonical(s0[i0].1));
                assert(canonical(s0[j0].1));
                O::lemma_strict_total(s0[i0].1, t, s0[j0].1);
            }
        }
    }
}

proof fn lemma_insert_entries<O: Order>(s0: Seq<MonoView>, k: int, c: i64, t: Seq<(Var, usize)>)
    requires
        poly_wf::<O>(s0),
        canonical(t),
        c != 0,
        0 <= k <= s0.len(),
    ensures
        entries_ok(s0.insert(k, (c, t))),
{
    let s1 = s0.insert(k, (c, t));
    assert forall|i: int| 0 <= i < s1.len() implies canonical(#[trigger] s1[i].1) && s1[i].0 != 0 by {
        if i < k {
            assert(s1[i] == s0[i]);
            assert(canonical(s0[i].1));
        } else if i > k {
            assert(s1[i] == s0[i - 1]);
            assert(canonical(s0[i - 1].1));
        }
    }
}

/// Two canonical polynomials with the same coefficients are equal.
pub proof fn lemma_poly_unique<O: Order>(a: Seq<MonoView>, b: Seq<MonoView>)
    requires
        poly_wf::<O>(a),
        poly_wf::<O>(b),
        forall|u: Seq<(Var, usize)>| coeff_at(a, u) == coeff_at(b, u),
    ensures
        a == b,
    decreases a.len() + b.len(),
{
    if a.len() == 0 && b.len() == 0 {
        assert(a =~= b);
    } else if b.len() == 0 {
        lemma_coeff_present::<O>(a, a.len() - 1);
        assert(coeff_at(b, a.last().1) == 0);
    } else if a.len() == 0 {
        lemma_coeff_present::<O>(b, b.len() - 1);
        assert(coeff_at(a, b.last().1) == 0);
    } else {
        let x = a.last().1;
        let y = b.last().1;
        lemma_coeff_present::<O>(a, a.len() - 1);
        lemma_coeff_present::<O>(b, b.len() - 1);
        assert(canonical(a[a.len() - 1].1));
        assert(canonical(b[b.len() - 1].1));
        if x != y {
            O::lemma_strict_total(x, y, x);
            if O::less(x, y) {
                assert forall|i: int| 0 <= i < a.len() implies a[i].1 != y by {
                    assert(canonical(a[i].1));
                    O::lemma_strict_total(a[i].1, x, y);
                    O::lemma_strict_total(y, x, y);
                }
                lemma_coeff_absent(a, y);
            } else {
                assert forall|i: int| 0 <= i < b.len() implies b[i].1 != x by {
                    assert(canonical(b[i].1));
                    O::lemma_strict_total(b[i].1, y, x);
                    O::lemma_strict_total(x, y, x);
                }
                lemma_coeff_absent(b, x);
            }
        } else {
            let a2 = a.drop_last();
            let b2 = b.drop_last();
            assert forall|u: Seq<(Var, usize)>| coeff_at(a2, u) == coeff_at(b2, u) by {
                assert(coeff_at(a, u) == coeff_at(a2, u) + at_term(u)(a.last().0 as int, x));
                assert(coeff_at(b, u) == coeff_at(b2, u) + at_term(u)(b.last().0 as int, y));
            }
            assert(poly_wf::<O>(a2)) by {
                assert forall|i: int| 0 <= i < a2.len() implies canonical(#[trigger] a2[i].1) && a2[i].0 != 0 by {
                    assert(a2[i] == a[i]);
                    assert(canonical(a[i].1));
                }
                assert forall|i: int, j: int| 0 <= i < j < a2.len() implies O::less(#[trigger] a2[i].1, #[trigger] a2[j].1) by {
                    assert(a2[i] == a[i] && a2[j] == a[j]);
                }
            }
            assert(poly_wf::<O>(b2)) by {
                assert forall|i: int| 0 <= i < b2.len() implies canonical(#[trigger] b2[i].1) && b2[i].0 != 0 by {
                    assert(b2[i] == b[i]);
                    assert(canonical(b[i].1));
                }
                assert forall|i: int, j: int| 0 <= i < j < b2.len() implies O::less(#[trigger] b2[i].1, #[trigger] b2[j].1) by {
                    assert(b2[i] == b[i] && b2[j] == b[j]);
                }
            }
            lemma_poly_unique::<O>(a2, b2);
            assert(a =~= a2.push(a.last()));
            assert(b =~= b2.push(b.last()));
        }
    }
}

/// The canonical polynomial whose coefficients are those of `k`, reduced
/// modulo 2^64.
pub open spec fn canon<O: Order>(k: spec_fn(Seq<(Var, usize)>) -> int) -> Seq<MonoView> {
    choose|p: Seq<MonoView>| poly_wf::<O>(p) && forall|u: Seq<(Var, usize)>| #[trigger] coeff_at(p, u) == wrap(k(u))
}

/// A canonical polynomial with the coefficients of `k` is `canon(k)`.
pub proof fn lemma_canon<O: Order>(p: Seq<MonoView>, k: spec_fn(Seq<(Var, usize)>) -> int)
    requires
        poly_wf::<O>(p),
        forall|u: Seq<(Var, usize)>| #[trigger] coeff_at(p, u) == wrap(k(u)),
    ensures
        p == canon::<O>(k),
        poly_wf::<O>(canon::<O>(k)),
        forall|u: Seq<(Var, usize)>| #[trigger] coeff_at(canon::<O>(k), u) == wrap(k(u)),
{
    let c = canon::<O>(k);
    assert(poly_wf::<O>(c) && forall|u: Seq<(Var, usize)>| #[trigger] coeff_at(c, u) == wrap(k(u)));
    lemma_poly_unique::<O>(p, c);
}

/// Coefficients of a sum.
pub open spec fn sum_coeffs(f: Seq<MonoView>, g: Seq<MonoView>) -> spec_fn(Seq<(Var, usize)>) -> int {
    |u: Seq<(Var, usize)>| coeff_at(f, u) + coeff_at(g, u)
}

/// Coefficients of a difference.
pub open spec fn diff_coeffs(f: Seq<MonoView>, g: Seq<MonoView>) -> spec_fn(Seq<(Var, usize)>) -> int {
    |u: Seq<(Var, usize)>| coeff_at(f, u) - coeff_at(g, u)
}

/// Coefficients of a product.
pub open spec fn prod_coeffs(f: Seq<MonoView>, g: Seq<MonoView>) -> spec_fn(Seq<(Var, usize)>) -> int {
    |u: Seq<(Var, usize)>| product_coeff(f, g, u)
}

/// Coefficients of a polynomial times the monomial `c * t`.
pub open spec fn scaled_coeffs(f: Seq<MonoView>, c: int, t: Seq<(Var, usize)>) -> spec_fn(Seq<(Var, usize)>) -> int {
    |u: Seq<(Var, usize)>| c * shifted_coeff(f, t, u)
}

/// The sum `f + g` of two canonical polynomials.
pub open spec fn poly_add<O: Order>(f: Seq<MonoView>, g: Seq<MonoView>) -> Seq<MonoView> {
    canon::<O>(sum_coeffs(f, g))
}

/// The difference `f - g` of two canonical polynomials.
pub open spec fn poly_sub<O: Order>(f: Seq<MonoView>, g: Seq<MonoView>) -> Seq<MonoView> {
    canon::<O>(diff_coeffs(f, g))
}

/// The product `f * g` of two canonical polynomials.
pub open spec fn poly_mul<O: Order>(f: Seq<MonoView>, g: Seq<MonoView>) -> Seq<MonoView> {
    canon::<O>(prod_coeffs(f, g))
}

/// The product of `f` and the monomial `c * t`.
pub open spec fn poly_scale<O: Order>(f: Seq<MonoView>, c: int, t: Seq<(Var, usize)>) -> Seq<MonoView> {
    canon::<O>(scaled_coeffs(f, c, t))
}

/// The place of `t` in a sequence ordered by `O`: everything before it is
/// smaller, and the element there, if any, is not.
pub proof fn lemma_find_pos<O: Order>(s: Seq<MonoView>, t: Seq<(Var, usize)>) -> (k: int)
    ensures
        0 <= k <= s.len(),
        forall|i: int| 0 <= i < k ==> O::less(#[trigger] s[i].1, t),
        k < s.len() ==> !O::less(s[k].1, t),
    decreases s.len(),
{
    if s.len() == 0 {
        0
    } else {
        let s2 = s.drop_last();
        let k2 = lemma_find_pos::<O>(s2, t);
        assert forall|i: int| 0 <= i < k2 implies O::less(#[trigger] s[i].1, t) by {
            assert(s[i] == s2[i]);
        }
        if k2 < s2.len() {
            assert(s[k2] == s2[k2]);
            k2
        } else if O::less(s.last().1, t) {
            s.len() as int
        } else {
            k2
        }
    }
}

/// A canonical polynomial holding the coefficients of `k` on the terms of
/// `sup.take(n)`, and nothing elsewhere.
proof fn lemma_build<O: Order>(sup: Seq<Seq<(Var, usize)>>, k: spec_fn(Seq<(Var, usize)>) -> int, n: int) -> (p: Seq<MonoView>)
    requires
        0 <= n <= sup.len(),
        forall|i: int| 0 <= i < sup.len() ==> canonical(#[trigger] sup[i]),
    ensures
        poly_wf::<O>(p),
        forall|j: int| 0 <= j < p.len() ==> exists|i: int| 0 <= i < n && sup[i] == #[trigger] p[j].1,
        forall|u: Seq<(Var, usize)>| #[trigger] coeff_at(p, u) == if exists|i: int| 0 <= i < n && sup[i] == u {
            wrap(k(u))
        } else {
            0
        },
    decreases n,
{
    if n == 0 {
        let p = Seq::<MonoView>::empty();
        assert forall|u: Seq<(Var, usize)>| #[trigger] coeff_at(p, u) == 0 by {}
        p
    } else {
        let prev = lemma_build::<O>(sup, k, n - 1);
        let t = sup[n - 1];
        if exists|i: int| 0 <= i < n - 1 && sup[i] == t {
            assert forall|u: Seq<(Var, usize)>| #[trigger] coeff_at(prev, u) == if exists|i: int| 0 <= i < n && sup[i] == u {
                wrap(k(u))
            } else {
                0
            } by {
                if exists|i: int| 0 <= i < n && sup[i] == u {
                    let i = choose|i: int| 0 <= i < n && sup[i] == u;
                    if i == n - 1 {
                        let i2 = choose|i: int| 0 <= i < n - 1 && sup[i] == t;
                        assert(0 <= i2 < n - 1 && sup[i2] == u);
                    } else {
                        assert(0 <= i < n - 1 && sup[i] == u);
                    }
                }
            }
            assert forall|j: int| 0 <= j < prev.len() implies exists|i: int| 0 <= i < n && sup[i] == #[trigger] prev[j].1 by {
                let i = choose|i: int| 0 <= i < n - 1 && sup[i] == prev[j].1;
                assert(0 <= i < n && sup[i] == prev[j].1);
            }
            prev
        } else {
            assert forall|j: int| 0 <= j < prev.len() implies prev[j].1 != t by {
                let i = choose|i: int| 0 <= i < n - 1 && sup[i] == prev[j].1;
            }
            lemma_coeff_absent(prev, t);
            lemma_wrap_range(k(t));
            let c = wrap(k(t)) as i64;
            assert(c as int == wrap(k(t)));
            let next = if c == 0 {
                prev
            } else {
                let pos = lemma_find_pos::<O>(prev, t);
                if pos < prev.len() {
                    assert(canonical(prev[pos].1));
                    assert(prev[pos].1 != t);
                    O::lemma_strict_total(t, prev[pos].1, t);
                }
                lemma_insert_at::<O>(prev, pos, c, t);
                assert forall|j: int| 0 <= j < prev.insert(pos, (c, t)).len() implies exists|i: int| 0 <= i < n
                    && sup[i] == #[trigger] prev.insert(pos, (c, t))[j].1 by {
                    let next = prev.insert(pos, (c, t));
                    if j == pos {
                        assert(sup[n - 1] == next[j].1);
                    } else {
                        let j0 = if j < pos { j } else { j - 1 };
                        assert(next[j] == prev[j0]);
                        let i = choose|i: int| 0 <= i < n - 1 && sup[i] == prev[j0].1;
                        assert(0 <= i < n && sup[i] == next[j].1);
                    }
                }
                prev.insert(pos, (c, t))
            };
            assert forall|u: Seq<(Var, usize)>| #[trigger] coeff_at(next, u) == if exists|i: int| 0 <= i < n && sup[i] == u {
                wrap(k(u))
            } else {
                0
            } by {
                if u == t {
                    assert(0 <= n - 1 < n && sup[n - 1] == u);
                    lemma_wrap_small(c as int);
                } else {
                    if exists|i: int| 0 <= i < n && sup[i] == u {
                        let i = choose|i: int| 0 <= i < n && sup[i] == u;
                        assert(i != n - 1);
                        assert(0 <= i < n - 1 && sup[i] == u);
                    }
                    if exists|i: int| 0 <= i < n - 1 && sup[i] == u {
                        let i = choose|i: int| 0 <= i < n - 1 && sup[i] == u;
                        assert(0 <= i < n && sup[i] == u);
                    }
                }
            }
            assert forall|j: int| 0 <= j < next.len() implies exists|i: int| 0 <= i < n && sup[i] == #[trigger] next[j].1 by {
                if c == 0 {
                    let i = choose|i: int| 0 <= i < n - 1 && sup[i] == prev[j].1;
                    assert(0 <= i < n && sup[i] == next[j].1);
                }
            }
            next
        }
    }
}

/// A canonical polynomial exists for coefficients that vanish, modulo 2^64,
/// off a finite list of canonical terms.
pub proof fn lemma_canon_exists<O: Order>(sup: Seq<Seq<(Var, usize)>>, k: spec_fn(Seq<(Var, usize)>) -> int)
    requires
        forall|i: int| 0 <= i < sup.len() ==> canonical(#[trigger] sup[i]),
        forall|u: Seq<(Var, usize)>| (forall|i: int| 0 <= i < sup.len() ==> sup[i] != u) ==> #[trigger] wrap(k(u)) == 0,
    ensures
        poly_wf::<O>(canon::<O>(k)),
        forall|u: Seq<(Var, usize)>| #[trigger] coeff_at(canon::<O>(k), u) == wrap(k(u)),
{
    let p = lemma_build::<O>(sup, k, sup.len() as int);
    assert forall|u: Seq<(Var, usize)>| #[trigger] coeff_at(p, u) == wrap(k(u)) by {
        if !exists|i: int| 0 <= i < sup.len() && sup[i] == u {
            assert(forall|i: int| 0 <= i < sup.len() ==> sup[i] != u);
        }
    }
    lemma_canon::<O>(p, k);
}

/// The terms of a polynomial.
pub open spec fn terms_of(s: Seq<MonoView>) -> Seq<Seq<(Var, usize)>> {
    s.map_values(|m: MonoView| m.1)
}

/// Subtracting `g` from `f + g` gives back `f`.
pub proof fn lemma_sub_undoes_add<O: Order>(f: Seq<MonoView>, g: Seq<MonoView>)
    requires
        poly_wf::<O>(f),
        poly_wf::<O>(g),
    ensures
        poly_sub::<O>(poly_add::<O>(f, g), g) == f,
{
    let sup = terms_of(f) + terms_of(g);
    assert forall|i: int| 0 <= i < sup.len() implies canonical(#[trigger] sup[i]) by {
        if i < f.len() {
            assert(sup[i] == f[i].1);
        } else {
            assert(sup[i] == g[i - f.len()].1);
        }
    }
    assert forall|u: Seq<(Var, usize)>| (forall|i: int| 0 <= i < sup.len() ==> sup[i] != u) implies #[trigger] wrap(sum_coeffs(f, g)(u)) == 0 by {
        assert forall|i: int| 0 <= i < f.len() implies f[i].1 != u by {
            assert(sup[i] == f[i].1);
        }
        assert forall|i: int| 0 <= i < g.len() implies g[i].1 != u by {
            assert(sup[f.len() + i] == g[i].1);
        }
        lemma_coeff_absent(f, u);
        lemma_coeff_absent(g, u);
        lemma_wrap_small(0);
    }
    lemma_canon_exists::<O>(sup, sum_coeffs(f, g));
    let s = poly_add::<O>(f, g);
    assert forall|u: Seq<(Var, usize)>| #[trigger] coeff_at(f, u) == wrap(diff_coeffs(s, g)(u)) by {
        lemma_coeff_range::<O>(f, u);
        lemma_wrap_add(coeff_at(f, u) + coeff_at(g, u), -coeff_at(g, u));
    }
    lemma_canon::<O>(f, diff_coeffs(s, g));
}

/// The products of every term of `f` with every term of `g`: outside them
/// the product has no coefficient.
pub open spec fn product_terms(f: Seq<MonoView>, g: Seq<MonoView>) -> Seq<Seq<(Var, usize)>>
    decreases f.len(),
{
    if f.len() == 0 {
        Seq::<Seq<(Var, usize)>>::empty()
    } else {
        product_terms(f.drop_last(), g) + g.map_values(|m: MonoView| term_product(m.1, f.last().1))
    }
}

proof fn lemma_shift_vanishes(g: Seq<MonoView>, t: Seq<(Var, usize)>, u: Seq<(Var, usize)>)
    requires
        forall|j: int| 0 <= j < g.len() ==> term_product(#[trigger] g[j].1, t) != u,
    ensures
        shifted_coeff(g, t, u) == 0,
    decreases g.len(),
{
    if g.len() > 0 {
        let g2 = g.drop_last();
        assert forall|j: int| 0 <= j < g2.len() implies term_product(#[trigger] g2[j].1, t) != u by {
            assert(g2[j] == g[j]);
        }
        lemma_shift_vanishes(g2, t, u);
        assert(term_product(g[g.len() - 1].1, t) != u);
    }
}

proof fn lemma_product_vanishes(f: Seq<MonoView>, g: Seq<MonoView>, u: Seq<(Var, usize)>)
    requires
        forall|i: int| 0 <= i < product_terms(f, g).len() ==> #[trigger] product_terms(f, g)[i] != u,
    ensures
        product_coeff(f, g, u) == 0,
    decreases f.len(),
{
    if f.len() > 0 {
        let f2 = f.drop_last();
        let p2 = product_terms(f2, g);
        let row = g.map_values(|m: MonoView| term_product(m.1, f.last().1));
        assert(product_terms(f, g) == p2 + row);
        assert forall|i: int| 0 <= i < p2.len() implies #[trigger] p2[i] != u by {
            assert(product_terms(f, g)[i] == p2[i]);
        }
        lemma_product_vanishes(f2, g, u);
        assert forall|j: int| 0 <= j < g.len() implies term_product(#[trigger] g[j].1, f.last().1) != u by {
            assert(product_terms(f, g)[p2.len() + j] == row[j]);
        }
        lemma_shift_vanishes(g, f.last().1, u);
        assert(product_row(g, u)(f.last().1) == 0);
    }
}

proof fn lemma_product_terms_canonical<O: Order>(f: Seq<MonoView>, g: Seq<MonoView>)
    requires
        poly_wf::<O>(f),
        poly_wf::<O>(g),
        product_fits_all(f, g),
    ensures
        forall|i: int| 0 <= i < product_terms(f, g).len() ==> canonical(#[trigger] product_terms(f, g)[i]),
    decreases f.len(),
{
    if f.len() > 0 {
        let f2 = f.drop_last();
        assert(poly_wf::<O>(f2)) by {
            assert forall|i: int| 0 <= i < f2.len() implies canonical(#[trigger] f2[i].1) && f2[i].0 != 0 by {
                assert(f2[i] == f[i]);
                assert(canonical(f[i].1));
            }
            assert forall|i: int, j: int| 0 <= i < j < f2.len() implies O::less(#[trigger] f2[i].1, #[trigger] f2[j].1) by {
                assert(f2[i] == f[i] && f2[j] == f[j]);
            }
        }
        assert(product_fits_all(f2, g)) by {
            assert forall|i: int| 0 <= i < f2.len() implies scale_fits(g, #[trigger] f2[i].1) by {
                assert(f2[i] == f[i]);
            }
        }
        lemma_product_terms_canonical::<O>(f2, g);
        let p2 = product_terms(f2, g);
        let t = f.last().1;
        let row = g.map_values(|m: MonoView| term_product(m.1, t));
        assert(product_terms(f, g) == p2 + row);
        assert(canonical(f[f.len() - 1].1));
        assert(scale_fits(g, f[f.len() - 1].1));
        assert forall|i: int| 0 <= i < product_terms(f, g).len() implies canonical(#[trigger] product_terms(f, g)[i]) by {
            if i < p2.len() {
                assert(product_terms(f, g)[i] == p2[i]);
            } else {
                let j = i - p2.len();
                assert(product_terms(f, g)[i] == row[j]);
                assert(canonical(g[j].1));
                assert(product_fits(g[j].1, t));
                crate::term::lemma_product_canonical(g[j].1, t);
            }
        }
    }
}

/// The canonical product exists when every product of terms fits.
pub proof fn lemma_mul_exists<O: Order>(f: Seq<MonoView>, g: Seq<MonoView>)
    requires
        poly_wf::<O>(f),
        poly_wf::<O>(g),
        product_fits_all(f, g),
    ensures
        poly_wf::<O>(poly_mul::<O>(f, g)),
        forall|u: Seq<(Var, usize)>| #[trigger] coeff_at(poly_mul::<O>(f, g), u) == wrap(product_coeff(f, g, u)),
{
    let sup = product_terms(f, g);
    lemma_product_terms_canonical::<O>(f, g);
    assert forall|u: Seq<(Var, usize)>| (forall|i: int| 0 <= i < sup.len() ==> sup[i] != u) implies #[trigger] wrap(prod_coeffs(f, g)(u)) == 0 by {
        lemma_product_vanishes(f, g, u);
        lemma_wrap_small(0);
    }
    lemma_canon_exists::<O>(sup, prod_coeffs(f, g));
}

/// The leading monomial of a canonical polynomial: its last, which is the
/// largest under the ordering; `(0, 1)` for the zero polynomial.
pub open spec fn lead_of(s: Seq<MonoView>) -> MonoView {
    if s.len() == 0 {
        (0, Seq::<(Var, usize)>::empty())
    } else {
        s.last()
    }
}

/// Integer divisibility of coefficients: `b` is nonzero and divides `a`.
pub open spec fn coeff_divides(b: int, a: int) -> bool {
    b != 0 && vstd::math::abs(a) % vstd::math::abs(b) == 0
}

/// Access to the leading monomial.
pub trait HeadMonomial {
    /// The leading coefficient and term.
    spec fn head(&self) -> MonoView;

    /// The leading coefficient (zero for the zero polynomial).
    fn lead_coeff(&self) -> (r: i64)
        ensures
            r == self.head().0,
    ;

    /// The leading term (the constant term for the zero polynomial).
    fn lead_term(&self) -> (r: Term)
        ensures
            r@ == self.head().1,
    ;
}

/// A monomial: a coefficient times a term.
#[derive(Debug, PartialEq, Eq)]
pub struct Monomial {
    pub coeff: i64,
    pub term: Term,
}

impl View for Monomial {
    type V = MonoView;

    open spec fn view(&self) -> MonoView {
        (self.coeff, self.term@)
    }
}

impl Clone for Monomial {
    fn clone(&self) -> (r: Self)
        ensures
            r@ == self@,
    {
        Monomial { coeff: self.coeff, term: self.term.clone() }
    }
}

/// The views of a sequence of monomials.
pub open spec fn mono_views(v: Seq<Monomial>) -> Seq<MonoView> {
    v.map_values(|m: Monomial| m@)
}

/// A polynomial with `i64` coefficients taken modulo 2^64, whose terms are
/// kept in increasing order under the monomial ordering `O`.
#[derive(Debug, PartialEq, Eq)]
pub struct Polynomial<O: Order> {
    pub monomials: Vec<Monomial>,
    pub order: PhantomData<O>,
}

impl<O: Order> View for Polynomial<O> {
    type V = Seq<MonoView>;

    open spec fn view(&self) -> Seq<MonoView> {
        mono_views(self.monomials@)
    }
}

impl<O: Order> Clone for Polynomial<O> {
    fn clone(&self) -> (r: Self)
        ensures
            r@ == self@,
    {
        let mut out: Vec<Monomial> = Vec::new();
        let mut i: usize = 0;
        while i < self.monomials.len()
            invariant
                i <= self.monomials.len(),
                mono_views(out@) == self@.take(i as int),
            decreases self.monomials.len() - i,
        {
            let m = Monomial { coeff: self.monomials[i].coeff, term: self.monomials[i].term.clone() };
            let ghost before = mono_views(out@);
            let ghost mv = m@;
            proof {
                assert(m@ == self@[i as int]);
            }
            out.push(m);
            proof {
                assert(mono_views(out@) =~= before.push(mv));
                assert(self@.take(i + 1) =~= self@.take(i as int).push(self@[i as int]));
            }
            i = i + 1;
        }
        proof {
            assert(self@.take(i as int) =~= self@);
        }
        Polynomial { monomials: out, order: PhantomData }
    }
}

/// The largest total degree of a term of `s` (zero for no terms).
pub open spec fn max_degree(s: Seq<MonoView>) -> nat
    decreases s.len(),
{
    if s.len() == 0 {
        0
    } else {
        vstd::math::max(max_degree(s.drop_last()) as int, degree_of(s.last().1) as int) as nat
    }
}

impl<O: Order> Degree for Polynomial<O> {
    /// The largest total degree of a term.
    open spec fn degree(&self) -> nat {
        max_degree(self@)
    }

    fn deg(&self) -> (r: usize) {
        let mut best: usize = 0;
        let mut i: usize = 0;
        while i < self.monomials.len()
            invariant
                i <= self.monomials.len(),
                max_degree(self@) <= usize::MAX,
                best == max_degree(self@.take(i as int)),
            decreases self.monomials.len() - i,
        {
            proof {
                assert(self@.take(i + 1).drop_last() =~= self@.take(i as int));
                assert(self@[i as int] == self.monomials[i as int]@);
                lemma_max_degree_prefix(self@, i + 1);
            }
            let d = self.monomials[i].term.deg();
            if d > best {
                best = d;
            }
            i = i + 1;
        }
        proof {
            assert(self@.take(i as int) =~= self@);
        }
        best
    }
}

/// The degree of a prefix is at most the degree of the whole polynomial,
/// and so is the degree of each of its terms.
pub proof fn lemma_max_degree_prefix(s: Seq<MonoView>, i: int)
    requires
        0 <= i <= s.len(),
    ensures
        max_degree(s.take(i)) <= max_degree(s),
        i > 0 ==> degree_of(s[i - 1].1) <= max_degree(s),
    decreases s.len(),
{
    if i < s.len() {
        assert(s.drop_last().take(i) =~= s.take(i));
        lemma_max_degree_prefix(s.drop_last(), i);
        if i > 0 {
            assert(s.drop_last()[i - 1] == s[i - 1]);
        }
    } else {
        assert(s.take(i) =~= s);
    }
}

impl<O: Order> Default for Polynomial<O> {
    fn default() -> (r: Self)
        ensures
            r@ == Seq::<MonoView>::empty(),
    {
        Self::zero()
    }
}

impl<O: Order> HeadMonomial for Polynomial<O> {
    open spec fn head(&self) -> MonoView {
        lead_of(self@)
    }

    fn lead_coeff(&self) -> (r: i64) {
        let n = self.monomials.len();
        if n == 0 {
            0
        } else {
            self.monomials[n - 1].coeff
        }
    }

    fn lead_term(&self) -> (r: Term) {
        let n = self.monomials.len();
        if n == 0 {
            Term::one()
        } else {
            self.monomials[n - 1].term.clone()
        }
    }
}

impl<O: Order> Polynomial<O> {
    pub open spec fn wf(&self) -> bool {
        poly_wf::<O>(self@)
    }

    /// The zero polynomial.
    pub fn zero() -> (r: Self)
        ensures
            r.wf(),
            r@ == Seq::<MonoView>::empty(),
    {
        let r = Polynomial { monomials: Vec::new(), order: PhantomData };
        assert(r@ =~= Seq::<MonoView>::empty());
        r
    }

    /// The polynomial that accumulates the given monomials: coefficients
    /// of equal terms add up, and terms whose sum is zero are dropped.
    pub fn from_monomials(ms: Vec<Monomial>) -> (r: Self)
        requires
            forall|i: int| 0 <= i < ms.len() ==> (#[trigger] ms[i]).term.wf(),
        ensures
            r.wf(),
            forall|u: Seq<(Var, usize)>| #[trigger] coeff_at(r@, u) == wrap(coeff_at(mono_views(ms@), u)),
    {
        let ghost mv = mono_views(ms@);
        let mut r = Self::zero();
        let mut i: usize = 0;
        proof {
            assert(mv.take(0) =~= Seq::<MonoView>::empty());
            assert forall|u: Seq<(Var, usize)>| #[trigger] coeff_at(r@, u) == wrap(coeff_at(mv.take(0), u)) by {
                lemma_wrap_small(0);
            }
        }
        while i < ms.len()
            invariant
                mv == mono_views(ms@),
                forall|i: int| 0 <= i < ms.len() ==> (#[trigger] ms[i]).term.wf(),
                i <= ms.len(),
                r.wf(),
                forall|u: Seq<(Var, usize)>| #[trigger] coeff_at(r@, u) == wrap(coeff_at(mv.take(i as int), u)),
            decreases ms.len() - i,
        {
            let ghost r0 = r@;
            r.add_monomial(ms[i].coeff, ms[i].term.clone());
            proof {
                assert forall|u: Seq<(Var, usize)>| #[trigger] coeff_at(r@, u) == wrap(coeff_at(mv.take(i + 1), u)) by {
                    lemma_wsum_take(mv, i as int, at_term(u));
                    assert(mv[i as int] == ms[i as int]@);
                    lemma_wrap_add(coeff_at(mv.take(i as int), u), ms[i as int].coeff as int);
                }
            }
            i = i + 1;
        }
        proof {
            assert(mv.take(i as int) =~= mv);
        }
        r
    }

    /// The monomials in increasing order of their terms.
    pub fn iter(&self) -> (r: Vec<Monomial>)
        ensures
            mono_views(r@) == self@,
    {
        let mut out: Vec<Monomial> = Vec::new();
        let mut i: usize = 0;
        while i < self.monomials.len()
            invariant
                i <= self.monomials.len(),
                mono_views(out@) == self@.take(i as int),
            decreases self.monomials.len() - i,
        {
            let m = Monomial { coeff: self.monomials[i].coeff, term: self.monomials[i].term.clone() };
            let ghost before = mono_views(out@);
            let ghost mv = m@;
            proof {
                assert(m@ == self@[i as int]);
            }
            out.push(m);
            proof {
                assert(mono_views(out@) =~= before.push(mv));
                assert(self@.take(i + 1) =~= self@.take(i as int).push(self@[i as int]));
            }
            i = i + 1;
        }
        proof {
            assert(self@.take(i as int) =~= self@);
        }
        out
    }

    /// Whether this is the zero polynomial.
    pub fn is_zero(&self) -> (r: bool)
        ensures
            r == (self@.len() == 0),
    {
        self.monomials.len() == 0
    }

    /// The sum `self + other`.
    pub fn add(&self, other: &Self) -> (r: Self)
        requires
            self.wf(),
            other.wf(),
        ensures
            r.wf(),
            forall|u: Seq<(Var, usize)>| #[trigger] coeff_at(r@, u) == wrap(coeff_at(self@, u) + coeff_at(other@, u)),
            r@ == poly_add::<O>(self@, other@),
    {
        let r = self.add_scaled(other, false);
        proof {
            lemma_canon::<O>(r@, sum_coeffs(self@, other@));
        }
        r
    }

    /// The difference `self - other`.
    pub fn sub(&self, other: &Self) -> (r: Self)
        requires
            self.wf(),
            other.wf(),
        ensures
            r.wf(),
            forall|u: Seq<(Var, usize)>| #[trigger] coeff_at(r@, u) == wrap(coeff_at(self@, u) - coeff_at(other@, u)),
            r@ == poly_sub::<O>(self@, other@),
    {
        let r = self.add_scaled(other, true);
        proof {
            lemma_canon::<O>(r@, diff_coeffs(self@, other@));
        }
        r
    }

    /// `self + other`, or `self - other` when `negate` holds.
    fn add_scaled(&self, other: &Self, negate: bool) -> (r: Self)
        requires
            self.wf(),
            other.wf(),
        ensures
            r.wf(),
            forall|u: Seq<(Var, usize)>| #[trigger] coeff_at(r@, u) == if negate {
                wrap(coeff_at(self@, u) - coeff_at(other@, u))
            } else {
                wrap(coeff_at(self@, u) + coeff_at(other@, u))
            },
    {
        let ghost g = other@;
        let mut r = self.clone();
        let mut i: usize = 0;
        proof {
            assert(g.take(0) =~= Seq::<MonoView>::empty());
            assert forall|u: Seq<(Var, usize)>| #[trigger] coeff_at(r@, u) == if negate {
                wrap(coeff_at(self@, u) - coeff_at(g.take(0), u))
            } else {
                wrap(coeff_at(self@, u) + coeff_at(g.take(0), u))
            } by {
                lemma_coeff_range::<O>(self@, u);
            }
        }
        while i < other.monomials.len()
            invariant
                g == other@,
                other.wf(),
                self.wf(),
                i <= other.monomials.len(),
                r.wf(),
                forall|u: Seq<(Var, usize)>| #[trigger] coeff_at(r@, u) == if negate {
                    wrap(coeff_at(self@, u) - coeff_at(g.take(i as int), u))
                } else {
                    wrap(coeff_at(self@, u) + coeff_at(g.take(i as int), u))
                },
            decreases other.monomials.len() - i,
        {
            let m = &other.monomials[i];
            let c = if negate { 0i64.wrapping_sub(m.coeff) } else { m.coeff };
            proof {
                lemma_wrapping_ops(0, m.coeff);
                assert(g[i as int] == m@);
                assert(canonical(g[i as int].1));
            }
            r.add_monomial(c, m.term.clone());
            proof {
                assert forall|u: Seq<(Var, usize)>| #[trigger] coeff_at(r@, u) == if negate {
                    wrap(coeff_at(self@, u) - coeff_at(g.take(i + 1), u))
                } else {
                    wrap(coeff_at(self@, u) + coeff_at(g.take(i + 1), u))
                } by {
                    lemma_wsum_take(g, i as int, at_term(u));
                    let a = coeff_at(self@, u);
                    let b = coeff_at(g.take(i as int), u);
                    if m.term@ == u {
                        if negate {
                            lemma_wrap_add(a - b, c as int);
                            lemma_wrap_add(a - b, -m.coeff);
                            lemma_wrap_range(0 - m.coeff);
                            vstd::arithmetic::div_mod::lemma_add_mod_noop(a - b, c as int, modulus());
                            vstd::arithmetic::div_mod::lemma_add_mod_noop(a - b, -m.coeff, modulus());
                        } else {
                            lemma_wrap_add(a + b, c as int);
                        }
                    }
                }
            }
            i = i + 1;
        }
        proof {
            assert(g.take(i as int) =~= g);
        }
        r
    }

    /// Whether every term can be multiplied by `t` without overflow.
    pub fn can_scale(&self, t: &Term) -> (r: bool)
        requires
            self.wf(),
            t.wf(),
        ensures
            r == scale_fits(self@, t@),
    {
        let mut i: usize = 0;
        while i < self.monomials.len()
            invariant
                self.wf(),
                t.wf(),
                i <= self.monomials.len(),
                forall|j: int| 0 <= j < i ==> product_fits(#[trigger] self@[j].1, t@),
            decreases self.monomials.len() - i,
        {
            proof {
                assert(self@[i as int] == self.monomials[i as int]@);
                assert(canonical(self@[i as int].1));
            }
            if !self.monomials[i].term.can_multiply(t) {
                return false;
            }
            i = i + 1;
        }
        true
    }

    /// The product of this polynomial and the monomial `c * t`.
    pub fn mul_monomial(&self, c: i64, t: &Term) -> (r: Self)
        requires
            self.wf(),
            t.wf(),
            scale_fits(self@, t@),
        ensures
            r.wf(),
            forall|u: Seq<(Var, usize)>| #[trigger] coeff_at(r@, u) == wrap(c * shifted_coeff(self@, t@, u)),
            r@ == poly_scale::<O>(self@, c as int, t@),
    {
        let ghost f = self@;
        let mut r = Self::zero();
        let mut i: usize = 0;
        proof {
            assert(f.take(0) =~= Seq::<MonoView>::empty());
            lemma_wrap_small(0);
        }
        while i < self.monomials.len()
            invariant
                f == self@,
                self.wf(),
                t.wf(),
                scale_fits(f, t@),
                i <= self.monomials.len(),
                r.wf(),
                forall|u: Seq<(Var, usize)>| #[trigger] coeff_at(r@, u) == wrap(c * shifted_coeff(f.take(i as int), t@, u)),
            decreases self.monomials.len() - i,
        {
            let m = &self.monomials[i];
            proof {
                assert(f[i as int] == m@);
                assert(canonical(f[i as int].1));
                assert(product_fits(f[i as int].1, t@));
            }
            let d = m.coeff.wrapping_mul(c);
            let p = mul_term_term(&m.term, t);
            let ghost pv = p@;
            proof {
                lemma_wrapping_ops(m.coeff, c);
            }
            r.add_monomial(d, p);
            proof {
                assert forall|u: Seq<(Var, usize)>| #[trigger] coeff_at(r@, u) == wrap(c * shifted_coeff(f.take(i + 1), t@, u)) by {
                    lemma_wsum_take(f, i as int, shift_weight(t@, u));
                    let sh = shifted_coeff(f.take(i as int), t@, u);
                    if pv == u {
                        lemma_wrap_add(c * sh, d as int);
                        lemma_wrap_add(c * sh, m.coeff * c);
                        assert(c * sh + m.coeff * c == c * (sh + m.coeff)) by (nonlinear_arith);
                    }
                }
            }
            i = i + 1;
        }
        proof {
            assert(f.take(i as int) =~= f);
            lemma_canon::<O>(r@, scaled_coeffs(f, c as int, t@));
        }
        r
    }

    /// The product `self * other`: every pair of monomials is multiplied and
    /// the results accumulated.
    pub fn mul(&self, other: &Self) -> (r: Self)
        requires
            self.wf(),
            other.wf(),
            product_fits_all(self@, other@),
        ensures
            r.wf(),
            forall|u: Seq<(Var, usize)>| #[trigger] coeff_at(r@, u) == wrap(product_coeff(self@, other@, u)),
            r@ == poly_mul::<O>(self@, other@),
    {
        let ghost f = self@;
        let ghost g = other@;
        let mut r = Self::zero();
        let mut i: usize = 0;
        proof {
            assert(f.take(0) =~= Seq::<MonoView>::empty());
            lemma_wrap_small(0);
        }
        while i < self.monomials.len()
            invariant
                f == self@,
                g == other@,
                self.wf(),
                other.wf(),
                product_fits_all(f, g),
                i <= self.monomials.len(),
                r.wf(),
                forall|u: Seq<(Var, usize)>| #[trigger] coeff_at(r@, u) == wrap(product_coeff(f.take(i as int), g, u)),
            decreases self.monomials.len() - i,
        {
            let left = &self.monomials[i];
            let ghost lv = left@;
            proof {
                assert(f[i as int] == lv);
                assert(canonical(f[i as int].1));
                assert(scale_fits(g, f[i as int].1));
                assert(g.take(0) =~= Seq::<MonoView>::empty());
                assert forall|u: Seq<(Var, usize)>| #[trigger] coeff_at(r@, u) == wrap(product_coeff(f.take(i as int), g, u)
                    + lv.0 * shifted_coeff(g.take(0), lv.1, u)) by {
                    assert(shifted_coeff(g.take(0), lv.1, u) == 0);
                }
            }
            let mut j: usize = 0;
            while j < other.monomials.len()
                invariant
                    f == self@,
                    g == other@,
                    lv == self.monomials[i as int]@,
                    other.wf(),
                    canonical(lv.1),
                    scale_fits(g, lv.1),
                    i < self.monomials.len(),
                    j <= other.monomials.len(),
                    r.wf(),
                    forall|u: Seq<(Var, usize)>| #[trigger] coeff_at(r@, u) == wrap(product_coeff(f.take(i as int), g, u)
                        + lv.0 * shifted_coeff(g.take(j as int), lv.1, u)),
                decreases other.monomials.len() - j,
            {
                let m = &other.monomials[j];
                let lc = self.monomials[i].coeff;
                proof {
                    assert(g[j as int] == m@);
                    assert(canonical(g[j as int].1));
                    assert(product_fits(g[j as int].1, lv.1));
                }
                let d = m.coeff.wrapping_mul(lc);
                let p = mul_term_term(&m.term, &self.monomials[i].term);
                let ghost pv = p@;
                proof {
                    lemma_wrapping_ops(m.coeff, lc);
                }
                r.add_monomial(d, p);
                proof {
                    assert forall|u: Seq<(Var, usize)>| #[trigger] coeff_at(r@, u) == wrap(product_coeff(f.take(i as int), g, u)
                        + lv.0 * shifted_coeff(g.take(j + 1), lv.1, u)) by {
                        lemma_wsum_take(g, j as int, shift_weight(lv.1, u));
                        let pc = product_coeff(f.take(i as int), g, u);
                        let sh = shifted_coeff(g.take(j as int), lv.1, u);
                        if pv == u {
                            lemma_wrap_add(pc + lc * sh, d as int);
                            lemma_wrap_add(pc + lc * sh, m.coeff * lc);
                            assert(pc + lc * sh + m.coeff * lc == pc + lc * (sh + m.coeff)) by (nonlinear_arith);
                        }
                    }
                }
                j = j + 1;
            }
            proof {
                assert(g.take(j as int) =~= g);
                assert forall|u: Seq<(Var, usize)>| #[trigger] coeff_at(r@, u) == wrap(product_coeff(f.take(i + 1), g, u)) by {
                    lemma_wsum_take(f, i as int, linear(product_row(g, u)));
                }
            }
            i = i + 1;
        }
        proof {
            assert(f.take(i as int) =~= f);
            lemma_canon::<O>(r@, prod_coeffs(f, g));
        }
        r
    }

    /// Adds `c` times `t` to this polynomial, keeping it canonical.
    pub fn add_monomial(&mut self, c: i64, t: Term)
        requires
            old(self).wf(),
            t.wf(),
        ensures
            final(self).wf(),
            forall|u: Seq<(Var, usize)>| #[trigger] coeff_at(final(self)@, u) == if u == t@ {
                wrap(coeff_at(old(self)@, u) + c)
            } else {
                coeff_at(old(self)@, u)
            },
            forall|f: spec_fn(Seq<(Var, usize)>) -> int| #[trigger] wrap(wsum(final(self)@, linear(f)))
                == wrap(wsum(old(self)@, linear(f)) + c * f(t@)),
    {
        let ghost s0 = self@;
        let n = self.monomials.len();
        let mut k: usize = 0;
        let mut found = false;
        while k < n
            invariant_except_break
                !found,
            invariant
                n == self.monomials.len(),
                self@ == s0,
                poly_wf::<O>(s0),
                t.wf(),
                k <= n,
                forall|i: int| 0 <= i < k ==> O::less(#[trigger] s0[i].1, t@),
            ensures
                k <= n,
                forall|i: int| 0 <= i < k ==> O::less(#[trigger] s0[i].1, t@),
                found ==> k < n && s0[k as int].1 == t@,
                !found ==> k == n || O::less(t@, s0[k as int].1),
            decreases n - k,
        {
            proof {
                assert(s0[k as int] == self.monomials@[k as int]@);
                assert(canonical(s0[k as int].1));
            }
            match O::cmp(&self.monomials[k].term, &t) {
                Ordering::Equal => {
                    found = true;
                    break;
                },
                Ordering::Greater => {
                    break;
                },
                Ordering::Less => {
                    k = k + 1;
                },
            }
        }
        proof {
            assert forall|i: int| 0 <= i < s0.len() && s0[i].1 == t@ implies i == k && found by {
                O::lemma_strict_total(t@, t@, t@);
                if i > k {
                    O::lemma_strict_total(t@, s0[k as int].1, s0[i].1);
                    O::lemma_strict_total(s0[k as int].1, s0[i].1, t@);
                }
            }
            if found {
                lemma_coeff_present::<O>(s0, k as int);
            } else {
                lemma_coeff_absent(s0, t@);
            }
        }
        if found {
            let cur = self.monomials[k].coeff;
            let sum = cur.wrapping_add(c);
            proof {
                lemma_wrapping_ops(cur, c);
                assert(s0[k as int].0 == cur);
            }
            if sum == 0 {
                self.monomials.remove(k);
                proof {
                    assert(self@ =~= s0.remove(k as int));
                    lemma_remove_at::<O>(s0, k as int, c);
                }
            } else {
                let ghost tv = t@;
                self.monomials.set(k, Monomial { coeff: sum, term: t });
                proof {
                    assert(self@ =~= s0.update(k as int, (sum, tv)));
                    lemma_update_at::<O>(s0, k as int, c);
                }
            }
        } else if c != 0 {
            let ghost tv = t@;
            self.monomials.insert(k, Monomial { coeff: c, term: t });
            proof {
                assert(self@ =~= s0.insert(k as int, (c, tv)));
                lemma_insert_at::<O>(s0, k as int, c, tv);
            }
        } else {
            proof {
                lemma_wrap_small(0);
                assert forall|f: spec_fn(Seq<(Var, usize)>) -> int| #[trigger] wrap(wsum(self@, linear(f)))
                    == wrap(wsum(s0, linear(f)) + c * f(t@)) by {
                    assert(c * f(t@) == 0);
                }
            }
        }
    }
}

} // verus!
