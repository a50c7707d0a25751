use vstd::prelude::*;
use crate::equation::{Atom, AtomV, Equation, Expression, Term, lemma_term_of, lemma_expr_of, view_atoms, view_terms};
use crate::lexer::string_of;
use crate::rational::{Rational, abs, int_text, lemma_reduce_integer, product, round_half_away, tdiv};

verus! {

/// Most digits a number shows after the decimal point.
pub const MAX_DECIMALS: usize = 10;

/// Multiplies `f` by ten until it is an integer, at most `k` times.
pub open spec fn scale_up(f: (int, int), k: nat) -> (int, int)
    decreases k,
{
    if k == 0 || f.1 == 1 {
        f
    } else {
        scale_up(product(f, (10, 1)), (k - 1) as nat)
    }
}

/// How many times `scale_up` multiplies `f` by ten.
pub open spec fn scale_steps(f: (int, int), k: nat) -> nat
    decreases k,
{
    if k == 0 || f.1 == 1 {
        0
    } else {
        1 + scale_steps(product(f, (10, 1)), (k - 1) as nat)
    }
}

/// `n` zero digits.
pub open spec fn zeros(n: int) -> Seq<char>
    decreases n,
{
    if n <= 0 { Seq::empty() } else { zeros(n - 1).push('0') }
}

/// Exact decimal text of `r`: its sign, its integer part and, when the fraction does
/// not round to zero, a `.` and the fraction's digits, at most `m` of them, the last
/// one rounded.
pub open spec fn decimal_text(r: (int, int), m: nat) -> Seq<char> {
    let fr = (r.0 - r.1 * tdiv(r.0, r.1), r.1);
    let f = scale_up(fr, m);
    let steps = scale_steps(fr, m);
    let d = abs(round_half_away(f.0, f.1));
    let t = tdiv(r.0, r.1);
    let sign = if r.0 < 0 && t == 0 { seq!['-'] } else { Seq::empty() };
    if d == 0 {
        int_text(t)
    } else {
        sign + int_text(t) + seq!['.'] + zeros(steps - int_text(d as int).len()) + int_text(d as int)
    }
}

pub open spec fn atom_text(a: AtomV) -> Seq<char>
    decreases a, 0nat,
{
    match a {
        AtomV::Number(n, d) => decimal_text((n, d), MAX_DECIMALS as nat),
        AtomV::Variable(s) => s,
        AtomV::Group(e) => seq!['('] + (if e.len() == 0 { seq!['0'] } else { terms_text(e, e.len() as int) })
            + seq![')'],
        AtomV::Fraction(n, d) => seq!['(', '('] + (if n.len() == 0 {
            seq!['0']
        } else {
            terms_text(n, n.len() as int)
        }) + seq![')', '/', '('] + (if d.len() == 0 {
            seq!['0']
        } else {
            terms_text(d, d.len() as int)
        }) + seq![')', ')'],
    }
}

/// The first `n` atoms of `t`, joined by `*`.
pub open spec fn atoms_text(t: Seq<AtomV>, n: int) -> Seq<char>
    decreases t, n,
{
    if n <= 0 || n > t.len() {
        Seq::empty()
    } else if n == 1 {
        atom_text(t[0])
    } else {
        atoms_text(t, n - 1) + seq!['*'] + atom_text(t[n - 1])
    }
}

/// The first `n` terms of `e`, joined by ` + `; a term without atoms reads `1`.
pub open spec fn terms_text(e: Seq<Seq<AtomV>>, n: int) -> Seq<char>
    decreases e, n,
{
    if n <= 0 || n > e.len() {
        Seq::empty()
    } else {
        let last = if e[n - 1].len() == 0 {
            seq!['1']
        } else {
            atoms_text(e[n - 1], e[n - 1].len() as int)
        };
        if n == 1 {
            last
        } else {
            terms_text(e, n - 1) + seq![' ', '+', ' '] + last
        }
    }
}

pub open spec fn term_text(t: Seq<AtomV>) -> Seq<char> {
    if t.len() == 0 { seq!['1'] } else { atoms_text(t, t.len() as int) }
}

pub open spec fn expr_text(e: Seq<Seq<AtomV>>) -> Seq<char> {
    if e.len() == 0 { seq!['0'] } else { terms_text(e, e.len() as int) }
}

pub open spec fn equation_text(q: (Seq<Seq<AtomV>>, Seq<Seq<AtomV>>)) -> Seq<char> {
    expr_text(q.0) + seq![' ', '=', ' '] + expr_text(q.1)
}

fn is_less(o: std::cmp::Ordering) -> (r: bool)
    ensures
        r == (o == std::cmp::Ordering::Less),
{
    match o {
        std::cmp::Ordering::Less => true,
        _ => false,
    }
}

/// Exact decimal text of a number.
pub fn decimal_text_of(r: &Rational, max_decimals: usize) -> (s: Vec<char>)
    ensures
        s@ == decimal_text(r@, max_decimals as nat),
{
    let ten = Rational::from_int(10);
    let mut f = r.fract();
    let ghost f0 = f@;
    let mut k: usize = 0;
    let mut done = false;
    while k < max_decimals && !done
        invariant
            k <= max_decimals,
            ten@ == (10int, 1int),
            scale_up(f0, max_decimals as nat) == scale_up(f@, (max_decimals - k) as nat),
            scale_steps(f0, max_decimals as nat) == k + scale_steps(f@, (max_decimals - k) as nat),
            done ==> f@.1 == 1,
        decreases max_decimals - k + (if done { 0int } else { 1int }),
    {
        let t = f.trunc();
        if f.equals(&t) {
            done = true;
        } else {
            assert(f@.1 != 1) by {
                if f@.1 == 1 {
                    assert(f@.0 / 1 == f@.0);
                    assert((-f@.0) / 1 == -f@.0);
                }
            }
            f = f.mul(&ten);
            k += 1;
        }
    }
    assert(scale_up(f@, (max_decimals - k) as nat) == f@);
    assert(scale_steps(f@, (max_decimals - k) as nat) == 0);
    let rounded = f.round();
    let zero = Rational::from_int(0);
    let ghost x = rounded@.0;
    assert(x * 1 == x && 0 * rounded@.1 == 0);
    let d = if is_less(rounded.compare(&zero)) {
        proof {
            lemma_reduce_integer(-x);
            assert(x * -1 == -x);
        }
        rounded.mul(&Rational::from_int(-1))
    } else {
        rounded
    };
    assert(d@ == (abs(x) as int, 1int));
    let whole = r.trunc();
    if d.is_zero() {
        return whole.numer_text();
    }
    let mut out: Vec<char> = Vec::new();
    assert(r@.0 * 1 == r@.0 && 0 * r@.1 == 0);
    if is_less(r.compare(&zero)) && whole.is_zero() {
        out.push('-');
    }
    let ghost sign = out@;
    let mut int_part = whole.numer_text();
    out.append(&mut int_part);
    out.push('.');
    let digits = d.numer_text();
    let ghost prefix = out@;
    let mut j: usize = digits.len();
    while j < k
        invariant
            digits.len() <= j,
            j <= k || j == digits.len(),
            out@ == prefix + zeros(j - digits.len()),
        decreases k - j,
    {
        out.push('0');
        assert(out@ =~= prefix + zeros(j + 1 - digits.len()));
        j += 1;
    }
    let ghost padded = out@;
    push_str(&mut out, &digits);
    assert(zeros(k - digits.len()) == zeros(j - digits.len())) by {
        if k < digits.len() {
            assert(zeros(k - digits.len()) == Seq::<char>::empty());
            assert(zeros(0) == Seq::<char>::empty());
        }
    }
    assert(out@ =~= decimal_text(r@, max_decimals as nat));
    out
}

fn push_str(out: &mut Vec<char>, v: &Vec<char>)
    ensures
        final(out)@ == old(out)@ + v@,
{
    let ghost s = v@;
    let mut i: usize = 0;
    while i < v.len()
        invariant
            i <= v.len(),
            v@ == s,
            out@ == old(out)@ + s.subrange(0, i as int),
        decreases v.len() - i,
    {
        out.push(v[i]);
        assert(out@ =~= old(out)@ + s.subrange(0, i + 1));
        i += 1;
    }
    assert(s.subrange(0, v.len() as int) =~= s);
}

fn render_atom(a: &Atom, out: &mut Vec<char>)
    ensures
        final(out)@ == old(out)@ + atom_text(a@),
    decreases a,
{
    match a {
        Atom::Number(v) => {
            let t = decimal_text_of(v, MAX_DECIMALS);
            push_str(out, &t);
        },
        Atom::Variable(name) => {
            let cs = crate::lexer::chars_of(name.as_str());
            push_str(out, &cs);
        },
        Atom::Group(e) => {
            let ghost start = out@;
            out.push('(');
            render_expression(e, out);
            out.push(')');
            assert(out@ =~= start + atom_text(a@));
        },
        Atom::Fraction { numerator, denominator } => {
            let ghost start = out@;
            out.push('(');
            out.push('(');
            render_expression(numerator, out);
            out.push(')');
            out.push('/');
            out.push('(');
            render_expression(denominator, out);
            out.push(')');
            out.push(')');
            assert(out@ =~= start + atom_text(a@));
        },
    }
}

fn render_term(t: &Term, out: &mut Vec<char>)
    ensures
        final(out)@ == old(out)@ + term_text(t@),
    decreases t,
{
    proof {
        lemma_term_of(*t);
    }
    let ghost start = out@;
    if t.atoms.len() == 0 {
        out.push('1');
        assert(out@ =~= start + term_text(t@));
        return;
    }
    let mut i: usize = 0;
    while i < t.atoms.len()
        invariant
            i <= t.atoms.len(),
            t@ == view_atoms(t.atoms@),
            out@ == start + atoms_text(t@, i as int),
        decreases t.atoms.len() - i,
    {
        if i > 0 {
            out.push('*');
        }
        render_atom(&t.atoms[i], out);
        assert(out@ =~= start + atoms_text(t@, i + 1));
        i += 1;
    }
}

fn render_expression(e: &Expression, out: &mut Vec<char>)
    ensures
        final(out)@ == old(out)@ + expr_text(e@),
    decreases e,
{
    proof {
        lemma_expr_of(*e);
    }
    let ghost start = out@;
    if e.terms.len() == 0 {
        out.push('0');
        assert(out@ =~= start + expr_text(e@));
        return;
    }
    let mut i: usize = 0;
    while i < e.terms.len()
        invariant
            i <= e.terms.len(),
            e@ == view_terms(e.terms@),
            out@ == start + terms_text(e@, i as int),
        decreases e.terms.len() - i,
    {
        if i > 0 {
            out.push(' ');
            out.push('+');
            out.push(' ');
        }
        render_term(&e.terms[i], out);
        assert(out@ =~= start + terms_text(e@, i + 1));
        i += 1;
    }
}

impl Term {
    /// The term's atoms joined by `*`; a term without atoms reads `1`.
    pub fn to_text(&self) -> (r: String)
        ensures
            r@ == term_text(self@),
    {
        let mut out: Vec<char> = Vec::new();
        render_term(self, &mut out);
        assert(out@ =~= term_text(self@));
        string_of(&out)
    }
}

impl Expression {
    /// The expression's terms joined by ` + `; an expression without terms reads `0`.
    pub fn to_text(&self) -> (r: String)
        ensures
            r@ == expr_text(self@),
    {
        let mut out: Vec<char> = Vec::new();
        render_expression(self, &mut out);
        assert(out@ =~= expr_text(self@));
        string_of(&out)
    }
}

impl Atom {
    pub fn to_text(&self) -> (r: String)
        ensures
            r@ == atom_text(self@),
    {
        let mut out: Vec<char> = Vec::new();
        render_atom(self, &mut out);
        assert(out@ =~= atom_text(self@));
        string_of(&out)
    }
}

impl Equation {
    /// Left side, ` = `, right side.
    pub fn to_text(&self) -> (r: String)
        ensures
            r@ == equation_text(self@),
    {
        let mut out: Vec<char> = Vec::new();
        match self {
            Equation::Equality { left, right } => {
                render_expression(left, &mut out);
                out.push(' ');
                out.push('=');
                out.push(' ');
                render_expression(right, &mut out);
            },
        }
        assert(out@ =~= equation_text(self@));
        string_of(&out)
    }
}

} // verus!
