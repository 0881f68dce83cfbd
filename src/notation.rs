use vstd::prelude::*;

use crate::order::Order;
use crate::polynomial::{canon, coeff_at, lemma_canon, mono_views, MonoView, Monomial, Polynomial};
use crate::term::{canonical, Term};
use crate::variable::Var;

verus! {

/// The superscript form of a decimal digit; the replacement character for
/// anything else.
pub open spec fn superscript_of(c: char) -> char {
    match c {
        '0' => '\u{2070}',
        '1' => '\u{00B9}',
        '2' => '\u{00B2}',
        '3' => '\u{00B3}',
        '4' => '\u{2074}',
        '5' => '\u{2075}',
        '6' => '\u{2076}',
        '7' => '\u{2077}',
        '8' => '\u{2078}',
        '9' => '\u{2079}',
        _ => '\u{FFFD}',
    }
}

/// The superscript form of a decimal digit; the replacement character for
/// anything else.
pub fn number_to_superscript(c: char) -> (r: char)
    ensures
        r == superscript_of(c),
        r == match c {
            '0' => '\u{2070}',
            '1' => '\u{00B9}',
            '2' => '\u{00B2}',
            '3' => '\u{00B3}',
            '4' => '\u{2074}',
            '5' => '\u{2075}',
            '6' => '\u{2076}',
            '7' => '\u{2077}',
            '8' => '\u{2078}',
            '9' => '\u{2079}',
            _ => '\u{FFFD}',
        },
{
    match c {
        '0' => '\u{2070}',
        '1' => '\u{00B9}',
        '2' => '\u{00B2}',
        '3' => '\u{00B3}',
        '4' => '\u{2074}',
        '5' => '\u{2075}',
        '6' => '\u{2076}',
        '7' => '\u{2077}',
        '8' => '\u{2078}',
        '9' => '\u{2079}',
        _ => '\u{FFFD}',
    }
}

/// The subscript form of a decimal digit; the replacement character for
/// anything else.
pub fn number_to_subscript(c: char) -> (r: char)
    ensures
        ('0' <= c <= '9') ==> r as u32 == 0x2080 + (c as u32 - '0' as u32),
        !('0' <= c <= '9') ==> r == '\u{FFFD}',
{
    match c {
        '0' => '\u{2080}',
        '1' => '\u{2081}',
        '2' => '\u{2082}',
        '3' => '\u{2083}',
        '4' => '\u{2084}',
        '5' => '\u{2085}',
        '6' => '\u{2086}',
        '7' => '\u{2087}',
        '8' => '\u{2088}',
        '9' => '\u{2089}',
        _ => '\u{FFFD}',
    }
}


pub open spec fn is_letter(c: char) -> bool {
    'a' <= c <= 'z'
}

pub open spec fn is_digit(c: char) -> bool {
    '0' <= c <= '9'
}

pub open spec fn digit_of(c: char) -> nat {
    (c as u32 - '0' as u32) as nat
}

/// The variable a letter names: `a` is `Var(0)`, `z` is `Var(25)`.
pub open spec fn letter_var(c: char) -> Var {
    Var((c as u32 - 'a' as u32) as usize)
}

/// `out` followed by the pairs `rest` holds, if any.
pub open spec fn prepend(out: Seq<(Var, usize)>, rest: Option<Seq<(Var, usize)>>) -> Option<Seq<(Var, usize)>> {
    match rest {
        Some(r) => Some(out + r),
        None => None,
    }
}

/// The pairs of variable and exponent that a term's text lists: letters,
/// each followed by `^` and a positive decimal exponent or by nothing
/// (exponent one).
pub open spec fn term_pairs(s: Seq<char>) -> Option<Seq<(Var, usize)>>
    decreases s.len(), 0nat,
{
    if s.len() == 0 {
        Some(Seq::empty())
    } else if !is_letter(s[0]) {
        None
    } else if s.len() > 1 && s[1] == '^' {
        exponent_pairs(s.skip(2), letter_var(s[0]), 0, 0)
    } else {
        prepend(seq![(letter_var(s[0]), 1usize)], term_pairs(s.skip(1)))
    }
}

/// The rest of a term after `v^`: `acc` is the value of the `n` digits read.
pub open spec fn exponent_pairs(s: Seq<char>, v: Var, acc: nat, n: nat) -> Option<Seq<(Var, usize)>>
    decreases s.len(), 1nat,
{
    if s.len() > 0 && is_digit(s[0]) {
        exponent_pairs(s.skip(1), v, acc * 10 + digit_of(s[0]), n + 1)
    } else if n == 0 || acc == 0 || acc > usize::MAX {
        None
    } else {
        prepend(seq![(v, acc as usize)], term_pairs(s))
    }
}

/// The term a text denotes: its pairs, when they are in canonical order.
pub open spec fn term_of_text(s: Seq<char>) -> Option<Seq<(Var, usize)>> {
    match term_pairs(s) {
        Some(p) => if canonical(p) { Some(p) } else { None },
        None => None,
    }
}

/// An exponent that has grown past `usize::MAX` fails the term.
proof fn lemma_exponent_overflow(s: Seq<char>, v: Var, acc: nat, n: nat)
    requires
        acc > usize::MAX,
    ensures
        exponent_pairs(s, v, acc, n) is None,
    decreases s.len(),
{
    if s.len() > 0 && is_digit(s[0]) {
        lemma_exponent_overflow(s.skip(1), v, acc * 10 + digit_of(s[0]), n + 1);
    }
}

proof fn lemma_prepend_assoc(a: Seq<(Var, usize)>, b: Seq<(Var, usize)>, r: Option<Seq<(Var, usize)>>)
    ensures
        prepend(a, prepend(b, r)) == prepend(a + b, r),
{
    if let Some(x) = r {
        assert(a + (b + x) =~= (a + b) + x);
    }
}

/// Parses a term: letters in increasing order, each with an optional
/// `^exponent`, as in `x^2yz^3`.
pub fn parse_term(s: &[char]) -> (r: Option<Term>)
    ensures
        r.is_some() == term_of_text(s@).is_some(),
        r matches Some(t) ==> t.wf() && term_of_text(s@) == Some(t@),
{
    proof {
        assert(s@.subrange(0, s@.len() as int) =~= s@);
    }
    parse_term_in(s, 0, s.len())
}

/// Parses the term written in `s[lo..hi]`.
fn parse_term_in(s: &[char], lo: usize, hi: usize) -> (r: Option<Term>)
    requires
        lo <= hi <= s.len(),
    ensures
        r.is_some() == term_of_text(s@.subrange(lo as int, hi as int)).is_some(),
        r matches Some(t) ==> t.wf() && term_of_text(s@.subrange(lo as int, hi as int)) == Some(t@),
{
    let ghost text = s@.subrange(lo as int, hi as int);
    let mut out: Vec<(Var, usize)> = Vec::new();
    let mut i: usize = lo;
    proof {
        assert(prepend(Seq::empty(), term_pairs(text)) == term_pairs(text)) by {
            if let Some(x) = term_pairs(text) {
                assert(Seq::<(Var, usize)>::empty() + x =~= x);
            }
        }
    }
    while i < hi
        invariant
            lo <= i <= hi,
            hi <= s.len(),
            text == s@.subrange(lo as int, hi as int),
            term_pairs(text) == prepend(out@, term_pairs(s@.subrange(i as int, hi as int))),
        decreases hi - i,
    {
        let c = s[i];
        let ghost rest = s@.subrange(i as int, hi as int);
        proof {
            assert(rest[0] == c);
        }
        if !('a' <= c && c <= 'z') {
            return None;
        }
        let v = Var((c as u32 - 'a' as u32) as usize);
        if i + 1 < hi && s[i + 1] == '^' {
            proof {
                assert(rest[1] == s[i + 1]);
                assert(rest.skip(2) =~= s@.subrange(i + 2, hi as int));
            }
            let mut j: usize = i + 2;
            let mut acc: usize = 0;
            let mut n: usize = 0;
            while j < hi && '0' <= s[j] && s[j] <= '9'
                invariant
                    i + 2 <= j <= hi,
                    hi <= s.len(),
                    text == s@.subrange(lo as int, hi as int),
                    n <= j,
                    term_pairs(text) == prepend(out@, exponent_pairs(s@.subrange(j as int, hi as int), v, acc as nat, n as nat)),
                decreases hi - j,
            {
                let d = (s[j] as u32 - '0' as u32) as usize;
                proof {
                    assert(s@.subrange(j as int, hi as int)[0] == s[j as int]);
                    assert(s@.subrange(j as int, hi as int).skip(1) =~= s@.subrange(j + 1, hi as int));
                }
                if acc > (usize::MAX - d) / 10 {
                    proof {
                        assert(acc * 10 + d > usize::MAX) by (nonlinear_arith)
                            requires acc > (usize::MAX - d) / 10, d <= 9;
                        lemma_exponent_overflow(s@.subrange(j + 1, hi as int), v, (acc as nat * 10 + d) as nat, (n + 1) as nat);
                    }
                    return None;
                }
                proof {
                    assert(acc * 10 + d <= usize::MAX) by (nonlinear_arith)
                        requires acc <= (usize::MAX - d) / 10, d <= 9;
                }
                acc = acc * 10 + d;
                n = n + 1;
                j = j + 1;
            }
            if n == 0 || acc == 0 {
                return None;
            }
            proof {
                lemma_prepend_assoc(out@, seq![(v, acc)], term_pairs(s@.subrange(j as int, hi as int)));
            }
            out.push((v, acc));
            i = j;
        } else {
            proof {
                assert(rest.skip(1) =~= s@.subrange(i + 1, hi as int));
                lemma_prepend_assoc(out@, seq![(v, 1usize)], term_pairs(s@.subrange(i + 1, hi as int)));
                assert(letter_var(c) == v);
            }
            out.push((v, 1));
            i = i + 1;
        }
    }
    proof {
        assert(s@.subrange(i as int, hi as int) =~= Seq::<char>::empty());
        assert(out@ + Seq::<(Var, usize)>::empty() =~= out@);
    }
    Term::new(out)
}


/// The rest of a monomial after its sign: `acc` is the value of the `n`
/// coefficient digits read; no digits means coefficient one.
pub open spec fn coeff_digits(s: Seq<char>, neg: bool, acc: nat, n: nat) -> Option<(int, Seq<(Var, usize)>)>
    decreases s.len(),
{
    if s.len() > 0 && is_digit(s[0]) {
        coeff_digits(s.skip(1), neg, acc * 10 + digit_of(s[0]), n + 1)
    } else {
        let mag: int = if n == 0 { 1 } else { acc as int };
        let c: int = if neg { -mag } else { mag };
        if c < i64::MIN || c > i64::MAX {
            None
        } else {
            match term_of_text(s) {
                Some(t) => Some((c, t)),
                None => None,
            }
        }
    }
}

/// The monomial a text denotes: an optional `-`, optional decimal digits,
/// then a term, as in `-3xy^2`, `-x` or `7`.
pub open spec fn monomial_of_text(s: Seq<char>) -> Option<(int, Seq<(Var, usize)>)> {
    if s.len() > 0 && s[0] == '-' {
        coeff_digits(s.skip(1), true, 0, 0)
    } else {
        coeff_digits(s, false, 0, 0)
    }
}

proof fn lemma_coeff_overflow(s: Seq<char>, neg: bool, acc: nat, n: nat)
    requires
        acc > 0x8000_0000_0000_0000,
        n > 0,
    ensures
        coeff_digits(s, neg, acc, n) is None,
    decreases s.len(),
{
    if s.len() > 0 && is_digit(s[0]) {
        lemma_coeff_overflow(s.skip(1), neg, acc * 10 + digit_of(s[0]), n + 1);
    }
}

/// Parses the monomial written in `s[lo..hi]`.
pub fn parse_monomial_in(s: &[char], lo: usize, hi: usize) -> (r: Option<Monomial>)
    requires
        lo <= hi <= s.len(),
    ensures
        r.is_some() == monomial_of_text(s@.subrange(lo as int, hi as int)).is_some(),
        r matches Some(m) ==> m.term.wf() && monomial_of_text(s@.subrange(lo as int, hi as int))
            == Some((m.coeff as int, m.term@)),
{
    let ghost text = s@.subrange(lo as int, hi as int);
    let neg = lo < hi && s[lo] == '-';
    let mut j: usize = if neg { lo + 1 } else { lo };
    proof {
        if neg {
            assert(text[0] == s[lo as int]);
            assert(text.skip(1) =~= s@.subrange(j as int, hi as int));
        } else {
            if lo < hi {
                assert(text[0] == s[lo as int]);
            }
            assert(text =~= s@.subrange(j as int, hi as int));
        }
    }
    let mut acc: u64 = 0;
    let mut n: usize = 0;
    while j < hi && '0' <= s[j] && s[j] <= '9'
        invariant
            lo <= j <= hi,
            hi <= s.len(),
            n <= j,
            acc <= 0x8000_0000_0000_0000,
            text == s@.subrange(lo as int, hi as int),
            monomial_of_text(text) == coeff_digits(s@.subrange(j as int, hi as int), neg, acc as nat, n as nat),
        decreases hi - j,
    {
        let d = (s[j] as u32 - '0' as u32) as u64;
        proof {
            assert(s@.subrange(j as int, hi as int)[0] == s[j as int]);
            assert(s@.subrange(j as int, hi as int).skip(1) =~= s@.subrange(j + 1, hi as int));
        }
        if acc > (0x8000_0000_0000_0000u64 - d) / 10 {
            proof {
                assert(acc * 10 + d > 0x8000_0000_0000_0000) by (nonlinear_arith)
                    requires acc > (0x8000_0000_0000_0000u64 - d) / 10, d <= 9;
                lemma_coeff_overflow(s@.subrange(j + 1, hi as int), neg, (acc as nat * 10 + d) as nat, (n + 1) as nat);
            }
            return None;
        }
        proof {
            assert(acc * 10 + d <= 0x8000_0000_0000_0000) by (nonlinear_arith)
                requires acc <= (0x8000_0000_0000_0000u64 - d) / 10, d <= 9;
        }
        acc = acc * 10 + d;
        n = n + 1;
        j = j + 1;
    }
    let mag: u64 = if n == 0 { 1 } else { acc };
    let coeff: i64 = if neg {
        if mag == 0x8000_0000_0000_0000u64 {
            i64::MIN
        } else {
            0i64 - (mag as i64)
        }
    } else {
        if mag > i64::MAX as u64 {
            return None;
        }
        mag as i64
    };
    match parse_term_in(s, j, hi) {
        Some(t) => Some(Monomial { coeff, term: t }),
        None => None,
    }
}

/// The text split at each `+`.
pub open spec fn split_plus(s: Seq<char>, cur: Seq<char>) -> Seq<Seq<char>>
    decreases s.len(),
{
    if s.len() == 0 {
        seq![cur]
    } else if s[0] == '+' {
        seq![cur] + split_plus(s.skip(1), Seq::empty())
    } else {
        split_plus(s.skip(1), cur.push(s[0]))
    }
}

/// The text without its leading spaces.
pub open spec fn trim_start(s: Seq<char>) -> Seq<char>
    decreases s.len(),
{
    if s.len() > 0 && s[0] == ' ' {
        trim_start(s.skip(1))
    } else {
        s
    }
}

/// The text without its trailing spaces.
pub open spec fn trim_end(s: Seq<char>) -> Seq<char>
    decreases s.len(),
{
    if s.len() > 0 && s.last() == ' ' {
        trim_end(s.drop_last())
    } else {
        s
    }
}

/// The monomials the pieces denote, each piece trimmed of spaces.
pub open spec fn monomials_of_pieces(ps: Seq<Seq<char>>) -> Option<Seq<MonoView>>
    decreases ps.len(),
{
    if ps.len() == 0 {
        Some(Seq::empty())
    } else {
        match (monomials_of_pieces(ps.drop_last()), monomial_of_text(trim_end(trim_start(ps.last())))) {
            (Some(ms), Some(m)) => Some(ms.push((m.0 as i64, m.1))),
            _ => None,
        }
    }
}

/// The coefficients of a formal sum of monomials.
pub open spec fn sum_of(ms: Seq<MonoView>) -> spec_fn(Seq<(Var, usize)>) -> int {
    |u: Seq<(Var, usize)>| coeff_at(ms, u)
}

/// The polynomial a text denotes: monomials joined by `+`, spaces allowed
/// around each; coefficients of equal terms add up.
pub open spec fn polynomial_of_text<O: Order>(s: Seq<char>) -> Option<Seq<MonoView>> {
    match monomials_of_pieces(split_plus(s, Seq::empty())) {
        Some(ms) => Some(canon::<O>(sum_of(ms))),
        None => None,
    }
}

/// Parses a polynomial such as `x^2 + -3xy + 2`.
pub fn parse_polynomial<O: Order>(s: &[char]) -> (r: Option<Polynomial<O>>)
    ensures
        r.is_some() == polynomial_of_text::<O>(s@).is_some(),
        r matches Some(p) ==> p.wf() && polynomial_of_text::<O>(s@) == Some(p@),
{
    let mut out: Vec<Monomial> = Vec::new();
    let ghost mut done: Seq<Seq<char>> = Seq::empty();
    let mut start: usize = 0;
    let mut i: usize = 0;
    proof {
        assert(s@.subrange(0, 0) =~= Seq::<char>::empty());
        assert(s@.skip(0) =~= s@);
        assert(Seq::<Seq<char>>::empty() + split_plus(s@, Seq::empty()) =~= split_plus(s@, Seq::empty()));
        assert(mono_views(out@) =~= Seq::<MonoView>::empty());
    }
    loop
        invariant
            start <= i <= s.len(),
            split_plus(s@, Seq::empty()) == done + split_plus(s@.skip(i as int), s@.subrange(start as int, i as int)),
            monomials_of_pieces(done) == Some(mono_views(out@)),
            forall|k: int| 0 <= k < out.len() ==> (#[trigger] out[k]).term.wf(),
        decreases s.len() - i,
    {
        if i < s.len() && s[i] != '+' {
            proof {
                assert(s@.skip(i as int)[0] == s[i as int]);
                assert(s@.skip(i as int).skip(1) =~= s@.skip(i + 1));
                assert(s@.subrange(start as int, i as int).push(s[i as int]) =~= s@.subrange(start as int, i + 1));
            }
            i = i + 1;
        } else {
            let ghost piece = s@.subrange(start as int, i as int);
            let mut a: usize = start;
            while a < i && s[a] == ' '
                invariant
                    start <= a <= i,
                    i <= s.len(),
                    trim_start(piece) == trim_start(s@.subrange(a as int, i as int)),
                decreases i - a,
            {
                proof {
                    assert(s@.subrange(a as int, i as int)[0] == s[a as int]);
                    assert(s@.subrange(a as int, i as int).skip(1) =~= s@.subrange(a + 1, i as int));
                }
                a = a + 1;
            }
            proof {
                if a < i {
                    assert(s@.subrange(a as int, i as int)[0] == s[a as int]);
                }
            }
            let mut b: usize = i;
            while b > a && s[b - 1] == ' '
                invariant
                    a <= b <= i,
                    i <= s.len(),
                    trim_end(trim_start(piece)) == trim_end(s@.subrange(a as int, b as int)),
                decreases b - a,
            {
                proof {
                    assert(s@.subrange(a as int, b as int).last() == s[b - 1]);
                    assert(s@.subrange(a as int, b as int).drop_last() =~= s@.subrange(a as int, b - 1));
                }
                b = b - 1;
            }
            proof {
                if b > a {
                    assert(s@.subrange(a as int, b as int).last() == s[b - 1]);
                }
            }
            let m = match parse_monomial_in(s, a, b) {
                Some(m) => m,
                None => {
                    proof {
                        assert(monomials_of_pieces(done.push(piece)) is None) by {
                            assert(done.push(piece).drop_last() =~= done);
                        }
                        let sp = split_plus(s@.skip(i as int), piece);
                        if i == s.len() {
                            assert(s@.skip(i as int) =~= Seq::<char>::empty());
                        } else {
                            assert(s@.skip(i as int)[0] == s[i as int]);
                        }
                        assert(sp[0] == piece);
                        assert(done + sp =~= done.push(piece) + sp.drop_first());
                        lemma_pieces_none(done.push(piece), sp.drop_first());
                    }
                    return None;
                },
            };
            proof {
                assert(done.push(piece).drop_last() =~= done);
                assert(mono_views(out@.push(m)) =~= mono_views(out@).push(m@));
            }
            out.push(m);
            proof {
                done = done.push(piece);
            }
            if i == s.len() {
                proof {
                    assert(s@.skip(i as int) =~= Seq::<char>::empty());
                    assert(done =~= split_plus(s@, Seq::empty()));
                }
                let p = Polynomial::from_monomials(out);
                proof {
                    lemma_canon::<O>(p@, sum_of(mono_views(out@)));
                }
                return Some(p);
            }
            proof {
                assert(s@.skip(i as int)[0] == s[i as int]);
                assert(s@.skip(i as int).skip(1) =~= s@.skip(i + 1));
                assert(s@.subrange(i + 1, i + 1) =~= Seq::<char>::empty());
                assert(done.drop_last() + seq![piece] + split_plus(s@.skip(i + 1), Seq::empty()) =~= done + split_plus(s@.skip(i + 1), Seq::empty()));
            }
            i = i + 1;
            start = i;
        }
    }
}

/// A failed piece fails every longer list of pieces.
proof fn lemma_pieces_none(ps: Seq<Seq<char>>, more: Seq<Seq<char>>)
    requires
        monomials_of_pieces(ps) is None,
    ensures
        monomials_of_pieces(ps + more) is None,
    decreases more.len(),
{
    if more.len() > 0 {
        lemma_pieces_none(ps, more.drop_last());
        assert((ps + more).drop_last() =~= ps + more.drop_last());
    } else {
        assert(ps + more =~= ps);
    }
}

} // verus!
