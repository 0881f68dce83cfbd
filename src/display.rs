use vstd::prelude::*;

use itertools::Itertools;

use crate::notation::{number_to_superscript, superscript_of};
use crate::order::Order;
use crate::polynomial::{MonoView, Polynomial};
use crate::term::Term;
use crate::variable::Var;

verus! {

/// The decimal digits of `n`, most significant first.
pub open spec fn decimal(n: nat) -> Seq<char>
    decreases n,
{
    if n < 10 {
        seq![((48 + n) as u8) as char]
    } else {
        decimal(n / 10) + seq![((48 + n % 10) as u8) as char]
    }
}

/// The name of the variable with index `i`: `a` to `z`, then `aa`, `ab`, ...
pub open spec fn name_of(i: nat) -> Seq<char>
    decreases i,
{
    if i < 26 {
        seq![((97 + i) as u8) as char]
    } else {
        name_of((i / 26 - 1) as nat) + seq![((97 + i % 26) as u8) as char]
    }
}

/// A variable with its exponent in superscript digits when above one.
pub open spec fn factor_text(p: (Var, usize)) -> Seq<char> {
    name_of(p.0.0 as nat) + if p.1 > 1 {
        decimal(p.1 as nat).map_values(|c: char| superscript_of(c))
    } else {
        Seq::empty()
    }
}

/// A term as text: its factors in order; the constant term is empty.
pub open spec fn term_text(t: Seq<(Var, usize)>) -> Seq<char>
    decreases t.len(),
{
    if t.len() == 0 {
        Seq::empty()
    } else {
        term_text(t.drop_last()) + factor_text(t.last())
    }
}

/// A coefficient as text, with a leading `-` when negative.
pub open spec fn coeff_text(c: int) -> Seq<char> {
    if c < 0 {
        seq!['-'] + decimal((-c) as nat)
    } else {
        decimal(c as nat)
    }
}

/// A monomial as text: the coefficient is left out when it is one and the
/// term is not constant.
pub open spec fn monomial_text(m: MonoView) -> Seq<char> {
    if m.0 == 1 && m.1.len() > 0 {
        term_text(m.1)
    } else {
        coeff_text(m.0 as int) + term_text(m.1)
    }
}

/// The parts in order with `sep` between neighbours.
pub open spec fn joined(parts: Seq<Seq<char>>, sep: Seq<char>) -> Seq<char>
    decreases parts.len(),
{
    if parts.len() == 0 {
        Seq::empty()
    } else if parts.len() == 1 {
        parts[0]
    } else {
        joined(parts.drop_last(), sep) + sep + parts.last()
    }
}

/// A polynomial as text: its monomials from the largest term down, joined
/// by ` + `; the zero polynomial is `0`.
pub open spec fn polynomial_text(p: Seq<MonoView>) -> Seq<char> {
    if p.len() == 0 {
        seq!['0']
    } else {
        joined(Seq::new(p.len(), |i: int| monomial_text(p[p.len() - 1 - i])), seq![' ', '+', ' '])
    }
}

/// Relies on `String: FromIterator<char>`: the characters in order.
#[verifier::external_body]
fn string_of(chars: &Vec<char>) -> (r: String)
    ensures
        r@ == chars@,
{
    chars.iter().collect()
}

/// Relies on itertools' `Itertools::join`: each part written out in order,
/// with `sep` between neighbours.
#[verifier::external_body]
fn join_parts(parts: &Vec<String>, sep: &str) -> (r: String)
    ensures
        r@ == joined(parts@.map_values(|p: String| p@), sep@),
{
    parts.iter().join(sep)
}

/// The decimal digits of `n`.
fn decimal_chars(n: u64) -> (r: Vec<char>)
    ensures
        r@ == decimal(n as nat),
{
    let mut out: Vec<char> = Vec::new();
    let mut cur: u64 = n;
    loop
        invariant
            decimal(n as nat) == decimal(cur as nat) + out@,
        decreases cur,
    {
        let d = (48u8 + (cur % 10) as u8) as char;
        if cur < 10 {
            out.insert(0, d);
            proof {
                assert(decimal(cur as nat) == seq![d]);
                assert(decimal(n as nat) =~= out@);
            }
            return out;
        }
        proof {
            assert(decimal(cur as nat) == decimal((cur / 10) as nat) + seq![d]);
            assert(decimal((cur / 10) as nat) + seq![d] + out@ =~= decimal((cur / 10) as nat) + out@.insert(0, d));
        }
        out.insert(0, d);
        cur = cur / 10;
    }
}

/// The name of a variable.
fn name_chars(v: Var) -> (r: Vec<char>)
    ensures
        r@ == name_of(v.0 as nat),
{
    let mut out: Vec<char> = Vec::new();
    let mut cur: usize = v.0;
    loop
        invariant
            name_of(v.0 as nat) == name_of(cur as nat) + out@,
        decreases cur,
    {
        let c = (97u8 + (cur % 26) as u8) as char;
        if cur < 26 {
            out.insert(0, c);
            proof {
                assert(name_of(cur as nat) == seq![c]);
                assert(name_of(v.0 as nat) =~= out@);
            }
            return out;
        }
        proof {
            assert(name_of(cur as nat) == name_of((cur / 26 - 1) as nat) + seq![c]);
            assert(name_of((cur / 26 - 1) as nat) + seq![c] + out@ =~= name_of((cur / 26 - 1) as nat) + out@.insert(0, c));
        }
        out.insert(0, c);
        cur = cur / 26 - 1;
    }
}

/// Appends the text of a term to `out`.
fn push_term_text(t: &Term, out: &mut Vec<char>)
    ensures
        final(out)@ == old(out)@ + term_text(t@),
{
    let ghost start = out@;
    let mut i: usize = 0;
    proof {
        assert(t@.take(0) =~= Seq::<(Var, usize)>::empty());
        assert(start + term_text(t@.take(0)) =~= start);
    }
    while i < t.exps.len()
        invariant
            i <= t.exps.len(),
            out@ == start + term_text(t@.take(i as int)),
        decreases t.exps.len() - i,
    {
        let (v, e) = t.exps[i];
        let name = name_chars(v);
        let mut k: usize = 0;
        let ghost before = out@;
        while k < name.len()
            invariant
                k <= name.len(),
                out@ == before + name@.take(k as int),
            decreases name.len() - k,
        {
            out.push(name[k]);
            k = k + 1;
            proof {
                assert(out@ =~= before + name@.take(k as int));
            }
        }
        let ghost mid = out@;
        if e > 1 {
            let digits = decimal_chars(e as u64);
            let ghost sup_all = decimal(e as nat).map_values(|c: char| superscript_of(c));
            let mut k: usize = 0;
            while k < digits.len()
                invariant
                    k <= digits.len(),
                    digits@ == decimal(e as nat),
                    sup_all == decimal(e as nat).map_values(|c: char| superscript_of(c)),
                    out@ == mid + sup_all.take(k as int),
                decreases digits.len() - k,
            {
                out.push(number_to_superscript(digits[k]));
                k = k + 1;
                proof {
                    assert(out@ =~= mid + sup_all.take(k as int));
                }
            }
            proof {
                assert(sup_all.take(k as int) =~= sup_all);
            }
        }
        proof {
            assert(name@.take(name.len() as int) =~= name@);
            assert(t@.take(i + 1).drop_last() =~= t@.take(i as int));
            assert(t@.take(i + 1).last() == (v, e));
            assert(out@ =~= start + term_text(t@.take(i as int)) + factor_text((v, e)));
        }
        i = i + 1;
    }
    proof {
        assert(t@.take(i as int) =~= t@);
    }
}

/// The text of a monomial.
fn monomial_chars(c: i64, t: &Term) -> (r: Vec<char>)
    ensures
        r@ == monomial_text((c, t@)),
{
    let mut out: Vec<char> = Vec::new();
    if c == 1 && t.exps.len() > 0 {
        push_term_text(t, &mut out);
        proof {
            assert(out@ =~= term_text(t@));
        }
        return out;
    }
    let mag: u64 = if c < 0 {
        out.push('-');
        (0i128 - c as i128) as u64
    } else {
        c as u64
    };
    let digits = decimal_chars(mag);
    let ghost before = out@;
    let mut k: usize = 0;
    while k < digits.len()
        invariant
            k <= digits.len(),
            out@ == before + digits@.take(k as int),
        decreases digits.len() - k,
    {
        out.push(digits[k]);
        k = k + 1;
        proof {
            assert(out@ =~= before + digits@.take(k as int));
        }
    }
    proof {
        assert(digits@.take(k as int) =~= digits@);
        if c < 0 {
            assert(before =~= seq!['-']);
        } else {
            assert(before =~= Seq::<char>::empty());
        }
        assert(out@ =~= coeff_text(c as int));
    }
    push_term_text(t, &mut out);
    out
}

impl<O: Order> Polynomial<O> {
    /// The text of this polynomial: monomials from the largest term down,
    /// joined by ` + `, exponents in superscript digits, a coefficient of
    /// one left out before a non-constant term, and `0` for zero.
    pub fn to_string(&self) -> (r: String)
        ensures
            r@ == polynomial_text(self@),
    {
        let n = self.monomials.len();
        if n == 0 {
            let zero = vec!['0'];
            proof {
                assert(zero@ =~= seq!['0']);
            }
            return string_of(&zero);
        }
        let ghost texts = Seq::new(self@.len(), |i: int| monomial_text(self@[self@.len() - 1 - i]));
        let mut parts: Vec<String> = Vec::new();
        let mut k: usize = 0;
        while k < n
            invariant
                n == self.monomials.len(),
                n == self@.len(),
                k <= n,
                texts == Seq::new(self@.len(), |i: int| monomial_text(self@[self@.len() - 1 - i])),
                parts@.map_values(|p: String| p@) == texts.take(k as int),
            decreases n - k,
        {
            let m = &self.monomials[n - 1 - k];
            let chars = monomial_chars(m.coeff, &m.term);
            let s = string_of(&chars);
            let ghost before = parts@.map_values(|p: String| p@);
            proof {
                assert(self@[n - 1 - k] == m@);
                assert(s@ == texts[k as int]);
            }
            parts.push(s);
            proof {
                assert(parts@.map_values(|p: String| p@) =~= before.push(texts[k as int]));
                assert(texts.take(k + 1) =~= texts.take(k as int).push(texts[k as int]));
            }
            k = k + 1;
        }
        let sep = " + ";
        proof {
            reveal_strlit(" + ");
            assert(sep@ =~= seq![' ', '+', ' ']);
            assert(texts.take(k as int) =~= texts);
        }
        join_parts(&parts, sep)
    }
}

} // verus!
