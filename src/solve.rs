use vstd::prelude::*;
use crate::equation::{
    Atom, AtomV, Equation, Expression, Term, has_var, term_has_var, view_atoms, view_terms,
    lemma_term_of, lemma_expr_of, lemma_view_atoms_push, lemma_view_terms_push, lemma_view_empty,
};
use crate::eval::EvalError;
use crate::rational::Rational;
use crate::simplify::{
    coefficient, var_atoms, simp_expr, same_expr, simplify_expression, coefficient_of, number_term,
};

verus! {

/// Most passes the solver makes before it gives up.
pub const MAX_PASSES: usize = 1000;

/// Why the solver produced no equation.
#[derive(Clone, Copy, Debug, PartialEq, Eq, Structural)]
pub enum SolveError {
    Eval(EvalError),
    NotConverged,
}

pub open spec fn neg_term(t: Seq<AtomV>) -> Seq<AtomV> {
    t.push(AtomV::Number(-1, 1))
}

/// The terms of `e` that hold a variable (`want`) or that hold none, each negated
/// when `negate` is set.
pub open spec fn pick_terms(e: Seq<Seq<AtomV>>, want: bool, negate: bool) -> Seq<Seq<AtomV>>
    decreases e.len(),
{
    if e.len() == 0 {
        e
    } else if term_has_var(e.last()) == want {
        pick_terms(e.drop_last(), want, negate).push(
            if negate { neg_term(e.last()) } else { e.last() },
        )
    } else {
        pick_terms(e.drop_last(), want, negate)
    }
}

/// The first fraction atom of `t` at or after `i`, or `t.len()`.
pub open spec fn fraction_index(t: Seq<AtomV>, i: int) -> int
    decreases t.len() - i,
{
    if i < 0 || i >= t.len() {
        t.len() as int
    } else if t[i] is Fraction {
        i
    } else {
        fraction_index(t, i + 1)
    }
}

/// Moves the variable terms to the left and the others to the right, then, when a
/// single term is left, clears its fraction or divides by its coefficient.
pub open spec fn isolate(l: Seq<Seq<AtomV>>, r: Seq<Seq<AtomV>>) -> Result<
    (Seq<Seq<AtomV>>, Seq<Seq<AtomV>>),
    EvalError,
> {
    let nl = pick_terms(l, true, false) + pick_terms(r, true, true);
    let nr = pick_terms(r, false, false) + pick_terms(l, false, true);
    if nl.len() == 1 {
        let t = nl[0];
        let f = fraction_index(t, 0);
        if f < t.len() {
            match t[f] {
                AtomV::Fraction(num, den) => Ok(
                    (
                        seq![t.remove(f).push(AtomV::Group(num))],
                        nr.map_values(|u: Seq<AtomV>| u.push(AtomV::Group(den))),
                    ),
                ),
                _ => Ok((nl, nr)),
            }
        } else {
            match coefficient(t) {
                Err(x) => Err(x),
                Ok(c) => Ok(
                    (
                        seq![var_atoms(t)],
                        if c != (1int, 1int) {
                            seq![seq![AtomV::Fraction(nr, seq![seq![AtomV::Number(c.0, c.1)]])]]
                        } else {
                            nr
                        },
                    ),
                ),
            }
        }
    } else {
        Ok((nl, nr))
    }
}

/// One pass of the solver: simplify both sides, isolate, simplify again.
pub open spec fn step(q: (Seq<Seq<AtomV>>, Seq<Seq<AtomV>>)) -> Result<
    (Seq<Seq<AtomV>>, Seq<Seq<AtomV>>),
    EvalError,
> {
    match simp_expr(q.0) {
        Err(x) => Err(x),
        Ok(l) => match simp_expr(q.1) {
            Err(x) => Err(x),
            Ok(r) => match isolate(l, r) {
                Err(x) => Err(x),
                Ok(p) => match simp_expr(p.0) {
                    Err(x) => Err(x),
                    Ok(a) => match simp_expr(p.1) {
                        Err(x) => Err(x),
                        Ok(b) => Ok((a, b)),
                    },
                },
            },
        },
    }
}

/// Passes until one leaves the equation unchanged, at most `fuel` of them.
pub open spec fn solve(q: (Seq<Seq<AtomV>>, Seq<Seq<AtomV>>), fuel: nat) -> Result<
    (Seq<Seq<AtomV>>, Seq<Seq<AtomV>>),
    SolveError,
>
    decreases fuel,
{
    if fuel == 0 {
        Err(SolveError::NotConverged)
    } else {
        match step(q) {
            Err(x) => Err(SolveError::Eval(x)),
            Ok(n) => if n == q {
                Ok(q)
            } else {
                solve(n, (fuel - 1) as nat)
            },
        }
    }
}

proof fn lemma_solve_fixed(q: (Seq<Seq<AtomV>>, Seq<Seq<AtomV>>), fuel: nat, r: (Seq<Seq<AtomV>>, Seq<Seq<AtomV>>))
    requires
        solve(q, fuel) == Ok::<(Seq<Seq<AtomV>>, Seq<Seq<AtomV>>), SolveError>(r),
    ensures
        step(r) == Ok::<(Seq<Seq<AtomV>>, Seq<Seq<AtomV>>), EvalError>(r),
    decreases fuel,
{
    if fuel > 0 {
        match step(q) {
            Err(_) => {},
            Ok(n) => if n != q {
                lemma_solve_fixed(n, (fuel - 1) as nat, r);
            },
        }
    }
}

/// Solving is idempotent: solving a solved equation gives it back unchanged.
pub proof fn lemma_simplify_idempotent(q: (Seq<Seq<AtomV>>, Seq<Seq<AtomV>>), r: (Seq<Seq<AtomV>>, Seq<Seq<AtomV>>))
    requires
        solve(q, MAX_PASSES as nat) == Ok::<(Seq<Seq<AtomV>>, Seq<Seq<AtomV>>), SolveError>(r),
    ensures
        solve(r, MAX_PASSES as nat) == Ok::<(Seq<Seq<AtomV>>, Seq<Seq<AtomV>>), SolveError>(r),
{
    lemma_solve_fixed(q, MAX_PASSES as nat, r);
}


fn negated(t: &Term) -> (r: Term)
    ensures
        r@ == neg_term(t@),
{
    let mut r = t.copy();
    proof {
        lemma_term_of(r);
    }
    let ghost prev = r.atoms@;
    let n = Atom::Number(Rational::from_int(-1));
    r.atoms.push(n);
    proof {
        lemma_view_atoms_push(prev, n);
        lemma_term_of(r);
    }
    r
}

/// Appends to `out` the terms that `pick_terms` selects from `e`.
fn pick(e: &Expression, want: bool, negate: bool, out: &mut Vec<Term>)
    ensures
        view_terms(final(out)@) == view_terms(old(out)@) + pick_terms(e@, want, negate),
{
    proof {
        lemma_expr_of(*e);
    }
    let ghost ev = e@;
    let ghost start = view_terms(out@);
    let mut i: usize = 0;
    while i < e.terms.len()
        invariant
            i <= e.terms.len(),
            ev == e@,
            ev == view_terms(e.terms@),
            view_terms(out@) == start + pick_terms(ev.subrange(0, i as int), want, negate),
        decreases e.terms.len() - i,
    {
        assert(ev.subrange(0, i + 1).drop_last() =~= ev.subrange(0, i as int));
        assert(ev[i as int] == e.terms@[i as int]@);
        if e.terms[i].contains_variable() == want {
            let t = if negate { negated(&e.terms[i]) } else { e.terms[i].copy() };
            let ghost prev = out@;
            out.push(t);
            proof {
                lemma_view_terms_push(prev, t);
            }
            assert(view_terms(out@) =~= start + pick_terms(ev.subrange(0, i + 1), want, negate));
        }
        i += 1;
    }
    assert(ev.subrange(0, e.terms.len() as int) =~= ev);
}

fn first_fraction(t: &Term) -> (r: usize)
    ensures
        r as int == fraction_index(t@, 0),
        r <= t.atoms.len(),
{
    proof {
        lemma_term_of(*t);
    }
    let mut i: usize = 0;
    while i < t.atoms.len()
        invariant
            i <= t.atoms.len(),
            t@ == view_atoms(t.atoms@),
            fraction_index(t@, 0) == fraction_index(t@, i as int),
        decreases t.atoms.len() - i,
    {
        match &t.atoms[i] {
            Atom::Fraction { .. } => {
                return i;
            },
            _ => {},
        }
        i += 1;
    }
    i
}

fn var_part(t: &Term) -> (r: Term)
    ensures
        r@ == var_atoms(t@),
{
    proof {
        lemma_term_of(*t);
        lemma_view_empty();
    }
    let ghost tv = t@;
    let mut out: Vec<Atom> = Vec::new();
    let mut i: usize = 0;
    while i < t.atoms.len()
        invariant
            i <= t.atoms.len(),
            tv == view_atoms(t.atoms@),
            tv.len() == t.atoms.len(),
            view_atoms(out@) == var_atoms(tv.subrange(0, i as int)),
        decreases t.atoms.len() - i,
    {
        assert(tv.subrange(0, i + 1).drop_last() =~= tv.subrange(0, i as int));
        if t.atoms[i].contains_variable() {
            let a = t.atoms[i].copy();
            let ghost prev = out@;
            out.push(a);
            proof {
                lemma_view_atoms_push(prev, a);
            }
        }
        i += 1;
    }
    assert(tv.subrange(0, t.atoms.len() as int) =~= tv);
    let r = Term { atoms: out };
    proof {
        lemma_term_of(r);
    }
    r
}

fn single(t: Term) -> (r: Expression)
    ensures
        r@ == seq![t@],
{
    let mut terms: Vec<Term> = Vec::new();
    let ghost prev = terms@;
    terms.push(t);
    let r = Expression { terms };
    proof {
        lemma_view_empty();
        lemma_view_terms_push(prev, t);
        lemma_expr_of(r);
        assert(r@ =~= seq![t@]);
    }
    r
}

pub open spec fn same_pair(
    r: Result<(Expression, Expression), EvalError>,
    s: Result<(Seq<Seq<AtomV>>, Seq<Seq<AtomV>>), EvalError>,
) -> bool {
    match r {
        Ok(p) => s == Ok::<(Seq<Seq<AtomV>>, Seq<Seq<AtomV>>), EvalError>((p.0@, p.1@)),
        Err(x) => s == Err::<(Seq<Seq<AtomV>>, Seq<Seq<AtomV>>), EvalError>(x),
    }
}

#[verifier::rlimit(50)]
fn isolate_sides(l: &Expression, r: &Expression) -> (res: Result<(Expression, Expression), EvalError>)
    ensures
        same_pair(res, isolate(l@, r@)),
{
    let mut left: Vec<Term> = Vec::new();
    let mut right: Vec<Term> = Vec::new();
    proof {
        lemma_view_empty();
    }
    pick(l, true, false, &mut left);
    pick(r, true, true, &mut left);
    pick(r, false, false, &mut right);
    pick(l, false, true, &mut right);
    let nl = Expression { terms: left };
    let nr = Expression { terms: right };
    proof {
        lemma_expr_of(nl);
        lemma_expr_of(nr);
        assert(nl@ =~= pick_terms(l@, true, false) + pick_terms(r@, true, true));
        assert(nr@ =~= pick_terms(r@, false, false) + pick_terms(l@, false, true));
    }
    if nl.terms.len() != 1 {
        return Ok((nl, nr));
    }
    let t = &nl.terms[0];
    assert(nl@[0] == t@);
    proof {
        lemma_term_of(*t);
    }
    let f = first_fraction(t);
    if f < t.atoms.len() {
        match &t.atoms[f] {
            Atom::Fraction { numerator, denominator } => {
                let mut other: Vec<Atom> = Vec::new();
                let mut i: usize = 0;
                while i < t.atoms.len()
                    invariant
                        i <= t.atoms.len(),
                        f < t.atoms.len(),
                        t@ == view_atoms(t.atoms@),
                        view_atoms(other@) == (if i <= f { t@.subrange(0, i as int) } else { t@.remove(f as int).subrange(0, i - 1) }),
                    decreases t.atoms.len() - i,
                {
                    if i != f {
                        let a = t.atoms[i].copy();
                        let ghost prev = other@;
                        other.push(a);
                        proof {
                            lemma_view_atoms_push(prev, a);
                        }
                        if i < f {
                            assert(view_atoms(other@) =~= t@.subrange(0, i + 1));
                        } else {
                            assert(view_atoms(other@) =~= t@.remove(f as int).subrange(0, i as int));
                        }
                    } else {
                        assert(t@.subrange(0, f as int) =~= t@.remove(f as int).subrange(0, f as int));
                    }
                    i += 1;
                }
                assert(view_atoms(other@) =~= t@.remove(f as int));
                let g = Atom::Group(numerator.copy());
                let ghost prev = other@;
                other.push(g);
                proof {
                    lemma_view_atoms_push(prev, g);
                }
                let lt = Term { atoms: other };
                proof {
                    lemma_term_of(lt);
                }
                let mut rs: Vec<Term> = Vec::new();
                let mut j: usize = 0;
                let ghost dv = denominator@;
                let ghost nrv = nr@;
                while j < nr.terms.len()
                    invariant
                        j <= nr.terms.len(),
                        nrv == nr@,
                        nrv == view_terms(nr.terms@),
                        dv == denominator@,
                        view_terms(rs@) == nrv.subrange(0, j as int).map_values(|u: Seq<AtomV>| u.push(AtomV::Group(dv))),
                    decreases nr.terms.len() - j,
                {
                    let mut u = nr.terms[j].copy();
                    proof {
                        lemma_term_of(u);
                    }
                    let ghost ua = u.atoms@;
                    let g = Atom::Group(denominator.copy());
                    u.atoms.push(g);
                    proof {
                        lemma_view_atoms_push(ua, g);
                        lemma_term_of(u);
                    }
                    let ghost prev = rs@;
                    rs.push(u);
                    proof {
                        lemma_view_terms_push(prev, u);
                    }
                    assert(view_terms(rs@) =~= nrv.subrange(0, j + 1).map_values(|u: Seq<AtomV>| u.push(AtomV::Group(dv))));
                    j += 1;
                }
                assert(nrv.subrange(0, nr.terms.len() as int) =~= nrv);
                let re = Expression { terms: rs };
                proof {
                    lemma_expr_of(re);
                }
                return Ok((single(lt), re));
            },
            _ => {
                return Ok((nl, nr));
            },
        }
    }
    let c = coefficient_of(t)?;
    let lt = var_part(t);
    if c.is_int(1) {
        Ok((single(lt), nr))
    } else {
        let ghost cv = c@;
        let ghost nrv = nr@;
        let den = single(number_term(c));
        let fr = Atom::Fraction { numerator: nr, denominator: den };
        let mut atoms: Vec<Atom> = Vec::new();
        let ghost prev = atoms@;
        atoms.push(fr);
        let ft = Term { atoms };
        proof {
            lemma_view_atoms_push(prev, fr);
            lemma_term_of(ft);
            assert(ft@ =~= seq![AtomV::Fraction(nrv, seq![seq![AtomV::Number(cv.0, cv.1)]])]);
        }
        Ok((single(lt), single(ft)))
    }
}

/// One pass of the solver.
pub fn simplify_equation(equation: &Equation) -> (r: Result<Equation, EvalError>)
    ensures
        match r {
            Ok(q) => step(equation@) == Ok::<(Seq<Seq<AtomV>>, Seq<Seq<AtomV>>), EvalError>(q@),
            Err(x) => step(equation@) == Err::<(Seq<Seq<AtomV>>, Seq<Seq<AtomV>>), EvalError>(x),
        },
{
    match equation {
        Equation::Equality { left, right } => {
            let l = simplify_expression(left)?;
            let r = simplify_expression(right)?;
            let (a, b) = isolate_sides(&l, &r)?;
            let a2 = simplify_expression(&a)?;
            let b2 = simplify_expression(&b)?;
            Ok(Equation::Equality { left: a2, right: b2 })
        },
    }
}

/// Runs solver passes until one leaves the equation unchanged; gives up after
/// `MAX_PASSES` passes.
pub fn simplify(equation: &Equation) -> (r: Result<Equation, SolveError>)
    ensures
        match r {
            Ok(q) => solve(equation@, MAX_PASSES as nat) == Ok::<(Seq<Seq<AtomV>>, Seq<Seq<AtomV>>), SolveError>(q@),
            Err(x) => solve(equation@, MAX_PASSES as nat) == Err::<(Seq<Seq<AtomV>>, Seq<Seq<AtomV>>), SolveError>(x),
        },
{
    let mut result = equation.copy();
    let mut fuel: usize = MAX_PASSES;
    while fuel > 0
        invariant
            solve(equation@, MAX_PASSES as nat) == solve(result@, fuel as nat),
        decreases fuel,
    {
        let next = match simplify_equation(&result) {
            Err(x) => {
                return Err(SolveError::Eval(x));
            },
            Ok(n) => n,
        };
        if next.equals(&result) {
            return Ok(result);
        }
        result = next;
        fuel -= 1;
    }
    Err(SolveError::NotConverged)
}

} // verus!
