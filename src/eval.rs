use vstd::prelude::*;
use crate::equation::{Atom, AtomV, Expression, Term, lemma_expr_view, lemma_term_view};
use crate::rational::{Rational, product, quotient, sum};

verus! {

/// Why a tree has no value.
#[derive(Clone, Copy, Debug, PartialEq, Eq, Structural)]
pub enum EvalError {
    VariableEncountered,
    DivisionByZero,
}

/// Value of an atom, evaluated left to right; the first failure wins.
pub open spec fn atom_value(a: AtomV) -> Result<(int, int), EvalError>
    decreases a, 0nat,
{
    match a {
        AtomV::Number(n, d) => Ok((n, d)),
        AtomV::Variable(_) => Err(EvalError::VariableEncountered),
        AtomV::Group(e) => terms_value(e, e.len() as int),
        AtomV::Fraction(num, den) => match terms_value(num, num.len() as int) {
            Err(x) => Err(x),
            Ok(n) => match terms_value(den, den.len() as int) {
                Err(x) => Err(x),
                Ok(d) => if d.0 == 0 {
                    Err(EvalError::DivisionByZero)
                } else {
                    Ok(quotient(n, d))
                },
            },
        },
    }
}

/// Product of the first `n` atoms of `t`, starting from one.
pub open spec fn atoms_value(t: Seq<AtomV>, n: int) -> Result<(int, int), EvalError>
    decreases t, n,
{
    if n <= 0 || n > t.len() {
        Ok((1, 1))
    } else {
        match atoms_value(t, n - 1) {
            Err(x) => Err(x),
            Ok(p) => match atom_value(t[n - 1]) {
                Err(x) => Err(x),
                Ok(v) => Ok(product(p, v)),
            },
        }
    }
}

/// Sum of the first `n` terms of `e`, starting from zero.
pub open spec fn terms_value(e: Seq<Seq<AtomV>>, n: int) -> Result<(int, int), EvalError>
    decreases e, n,
{
    if n <= 0 || n > e.len() {
        Ok((0, 1))
    } else {
        match terms_value(e, n - 1) {
            Err(x) => Err(x),
            Ok(s) => match atoms_value(e[n - 1], e[n - 1].len() as int) {
                Err(x) => Err(x),
                Ok(v) => Ok(sum(s, v)),
            },
        }
    }
}

pub open spec fn term_value(t: Seq<AtomV>) -> Result<(int, int), EvalError> {
    atoms_value(t, t.len() as int)
}

pub open spec fn expr_value(e: Seq<Seq<AtomV>>) -> Result<(int, int), EvalError> {
    terms_value(e, e.len() as int)
}

pub open spec fn same_value(r: Result<Rational, EvalError>, s: Result<(int, int), EvalError>) -> bool {
    match r {
        Ok(v) => s == Ok::<(int, int), EvalError>(v@),
        Err(x) => s == Err::<(int, int), EvalError>(x),
    }
}

pub fn eval_atom(atom: &Atom) -> (r: Result<Rational, EvalError>)
    ensures
        same_value(r, atom_value(atom@)),
    decreases atom,
{
    match atom {
        Atom::Number(value) => Ok(value.copy()),
        Atom::Variable(_) => Err(EvalError::VariableEncountered),
        Atom::Group(expression) => eval_expression(expression),
        Atom::Fraction { numerator, denominator } => {
            let n = eval_expression(numerator)?;
            let d = eval_expression(denominator)?;
            if d.is_zero() {
                Err(EvalError::DivisionByZero)
            } else {
                Ok(n.div(&d))
            }
        },
    }
}

pub fn eval_term(term: &Term) -> (r: Result<Rational, EvalError>)
    ensures
        same_value(r, term_value(term@)),
    decreases term,
{
    proof {
        lemma_term_view(*term);
    }
    let mut acc = Rational::from_int(1);
    let mut i: usize = 0;
    while i < term.atoms.len()
        invariant
            i <= term.atoms.len(),
            term@.len() == term.atoms.len(),
            forall|j: int| 0 <= j < term.atoms.len() ==> #[trigger] term@[j] == term.atoms[j]@,
            atoms_value(term@, i as int) == Ok::<(int, int), EvalError>(acc@),
        decreases term.atoms.len() - i,
    {
        let v = eval_atom(&term.atoms[i]);
        match v {
            Err(x) => {
                proof {
                    lemma_atoms_value_err(term@, i as int + 1, term.atoms.len() as int);
                }
                return Err(x);
            },
            Ok(v) => {
                acc = acc.mul(&v);
            },
        }
        i += 1;
    }
    Ok(acc)
}

pub fn eval_expression(expression: &Expression) -> (r: Result<Rational, EvalError>)
    ensures
        same_value(r, expr_value(expression@)),
    decreases expression,
{
    proof {
        lemma_expr_view(*expression);
    }
    let mut acc = Rational::from_int(0);
    let mut i: usize = 0;
    while i < expression.terms.len()
        invariant
            i <= expression.terms.len(),
            expression@.len() == expression.terms.len(),
            forall|j: int| 0 <= j < expression.terms.len() ==> #[trigger] expression@[j] == expression.terms[j]@,
            terms_value(expression@, i as int) == Ok::<(int, int), EvalError>(acc@),
        decreases expression.terms.len() - i,
    {
        let v = eval_term(&expression.terms[i]);
        match v {
            Err(x) => {
                proof {
                    lemma_terms_value_err(expression@, i as int + 1, expression.terms.len() as int);
                }
                return Err(x);
            },
            Ok(v) => {
                acc = acc.add(&v);
            },
        }
        i += 1;
    }
    Ok(acc)
}

proof fn lemma_atoms_value_err(t: Seq<AtomV>, m: int, n: int)
    requires
        0 < m <= n <= t.len(),
        atoms_value(t, m) is Err,
    ensures
        atoms_value(t, n) == atoms_value(t, m),
    decreases n - m,
{
    if m < n {
        lemma_atoms_value_err(t, m, n - 1);
    }
}

proof fn lemma_terms_value_err(e: Seq<Seq<AtomV>>, m: int, n: int)
    requires
        0 < m <= n <= e.len(),
        terms_value(e, m) is Err,
    ensures
        terms_value(e, n) == terms_value(e, m),
    decreases n - m,
{
    if m < n {
        lemma_terms_value_err(e, m, n - 1);
    }
}

} // verus!
