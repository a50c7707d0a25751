use vstd::prelude::*;
use crate::equation::{
    Atom, AtomV, Expression, Term, has_var, term_has_var, expr_has_var, view_atoms, view_terms,
    lemma_term_of, lemma_expr_of, lemma_view_atoms_push, lemma_view_terms_push,
    lemma_view_terms_append, lemma_view_empty,
};
use crate::eval::{EvalError, atom_value, expr_value, term_value, same_value, eval_atom, eval_expression, eval_term};
use crate::rational::Rational;
use crate::order::{cmp_atom, cmp_terms_from, compare_atom, compare_expressions, insert_by, sort_by};
use crate::rational::{product, sum};

verus! {

/// The atoms of `t` that hold a variable, in order.
pub open spec fn var_atoms(t: Seq<AtomV>) -> Seq<AtomV>
    decreases t.len(),
{
    if t.len() == 0 {
        t
    } else if has_var(t.last()) {
        var_atoms(t.drop_last()).push(t.last())
    } else {
        var_atoms(t.drop_last())
    }
}

/// The atoms of `t` that hold no variable, in order.
pub open spec fn const_atoms(t: Seq<AtomV>) -> Seq<AtomV>
    decreases t.len(),
{
    if t.len() == 0 {
        t
    } else if !has_var(t.last()) {
        const_atoms(t.drop_last()).push(t.last())
    } else {
        const_atoms(t.drop_last())
    }
}

/// Product of the values of the atoms of `t` that hold no variable.
pub open spec fn coefficient(t: Seq<AtomV>) -> Result<(int, int), EvalError> {
    term_value(const_atoms(t))
}

pub open spec fn atom_order() -> spec_fn(AtomV, AtomV) -> std::cmp::Ordering {
    |x: AtomV, y: AtomV| cmp_atom(x, y)
}

/// Two terms are like terms when their variable-holding atoms, sorted, agree.
pub open spec fn is_like(a: Seq<AtomV>, b: Seq<AtomV>) -> bool {
    sort_by(var_atoms(a), atom_order()) == sort_by(var_atoms(b), atom_order())
}

/// Indices below `n` of the terms of `e` that are like term `k`, in order.
pub open spec fn like_indices(e: Seq<Seq<AtomV>>, k: int, n: int) -> Seq<int>
    decreases n,
{
    if n <= 0 {
        Seq::empty()
    } else if is_like(e[k], e[n - 1]) {
        like_indices(e, k, n - 1).push(n - 1)
    } else {
        like_indices(e, k, n - 1)
    }
}

/// The like-term class of each of the first `n` terms of `e`.
pub open spec fn all_classes(e: Seq<Seq<AtomV>>, n: int) -> Seq<Seq<int>>
    decreases n,
{
    if n <= 0 {
        Seq::empty()
    } else {
        all_classes(e, n - 1).push(like_indices(e, n - 1, e.len() as int))
    }
}

/// The terms that a class of indices names (indices out of range name nothing).
pub open spec fn class_terms(e: Seq<Seq<AtomV>>, c: Seq<int>) -> Seq<Seq<AtomV>>
    decreases c.len(),
{
    if c.len() == 0 {
        Seq::empty()
    } else if 0 <= c.last() < e.len() {
        class_terms(e, c.drop_last()).push(e[c.last()])
    } else {
        class_terms(e, c.drop_last())
    }
}

pub open spec fn class_order(e: Seq<Seq<AtomV>>) -> spec_fn(Seq<int>, Seq<int>) -> std::cmp::Ordering {
    |c1: Seq<int>, c2: Seq<int>| cmp_terms_from(class_terms(e, c1), class_terms(e, c2), 0)
}

/// Drops each class whose terms repeat those of the class kept just before it.
pub open spec fn dedup_classes(e: Seq<Seq<AtomV>>, s: Seq<Seq<int>>) -> Seq<Seq<int>>
    decreases s.len(),
{
    if s.len() == 0 {
        s
    } else {
        let r = dedup_classes(e, s.drop_last());
        if r.len() > 0 && class_terms(e, r.last()) == class_terms(e, s.last()) {
            r
        } else {
            r.push(s.last())
        }
    }
}

/// The like-term classes of `e`, sorted and without repeats.
pub open spec fn classes(e: Seq<Seq<AtomV>>) -> Seq<Seq<int>> {
    dedup_classes(e, sort_by(all_classes(e, e.len() as int), class_order(e)))
}

/// Sum of the coefficients of the first `n` members of class `c`.
pub open spec fn class_amount(e: Seq<Seq<AtomV>>, c: Seq<int>, n: int) -> Result<(int, int), EvalError>
    decreases n,
{
    if n <= 0 || n > c.len() {
        Ok((0, 1))
    } else {
        match class_amount(e, c, n - 1) {
            Err(x) => Err(x),
            Ok(s) => if 0 <= c[n - 1] < e.len() {
                match coefficient(e[c[n - 1]]) {
                    Err(x) => Err(x),
                    Ok(v) => Ok(sum(s, v)),
                }
            } else {
                Ok(s)
            },
        }
    }
}

/// The first group atom of `t` at or after `i`, or `t.len()`.
pub open spec fn group_index(t: Seq<AtomV>, i: int) -> int
    decreases t.len() - i,
{
    if i < 0 || i >= t.len() {
        t.len() as int
    } else if t[i] is Group {
        i
    } else {
        group_index(t, i + 1)
    }
}

pub open spec fn has_group(t: Seq<AtomV>) -> bool {
    group_index(t, 0) < t.len()
}

/// Distributes the first group of `t`: one term per term of the group, each made of
/// that inner term's atoms followed by the other atoms of `t`.
pub open spec fn expand_term(t: Seq<AtomV>) -> Seq<Seq<AtomV>> {
    let g = group_index(t, 0);
    if 0 <= g < t.len() {
        let rest = t.remove(g);
        match t[g] {
            AtomV::Group(inner) => inner.map_values(|u: Seq<AtomV>| u + rest),
            _ => Seq::empty(),
        }
    } else {
        Seq::empty()
    }
}

/// The expansions of the terms of `l` that hold a group, in order.
pub open spec fn expand_level(l: Seq<Seq<AtomV>>) -> Seq<Seq<AtomV>>
    decreases l.len(),
{
    if l.len() == 0 {
        l
    } else if has_group(l.last()) {
        expand_level(l.drop_last()) + expand_term(l.last())
    } else {
        expand_level(l.drop_last())
    }
}

/// The terms of `l` without a group, in order.
pub open spec fn keep_level(l: Seq<Seq<AtomV>>) -> Seq<Seq<AtomV>>
    decreases l.len(),
{
    if l.len() == 0 {
        l
    } else if has_group(l.last()) {
        keep_level(l.drop_last())
    } else {
        keep_level(l.drop_last()).push(l.last())
    }
}

/// Distribution of groups, level by level: the terms without a group stay in their
/// order, and the expansions of the others are handled after them.
pub open spec fn expand_levels(l: Seq<Seq<AtomV>>, fuel: nat) -> Seq<Seq<AtomV>>
    decreases fuel,
{
    if fuel == 0 || l.len() == 0 {
        l
    } else {
        keep_level(l) + expand_levels(expand_level(l), (fuel - 1) as nat)
    }
}

/// Length of the longest term of `l`.
pub open spec fn max_len(l: Seq<Seq<AtomV>>) -> nat
    decreases l.len(),
{
    if l.len() == 0 {
        0
    } else {
        let m = max_len(l.drop_last());
        if l.last().len() > m { l.last().len() } else { m }
    }
}

/// Each level strips one group from every term that has one, so a term of `m` atoms
/// is group-free after `m` levels.
pub open spec fn expand(l: Seq<Seq<AtomV>>) -> Seq<Seq<AtomV>> {
    expand_levels(l, max_len(l))
}

pub open spec fn simp_atom(a: AtomV) -> Result<AtomV, EvalError>
    decreases a, 0nat,
{
    match a {
        AtomV::Group(e) => match simp_expr(e) {
            Err(x) => Err(x),
            Ok(s) => if !expr_has_var(s) {
                match expr_value(s) {
                    Err(x) => Err(x),
                    Ok(v) => Ok(AtomV::Number(v.0, v.1)),
                }
            } else {
                Ok(AtomV::Group(s))
            },
        },
        AtomV::Fraction(n, d) => match simp_expr(n) {
            Err(x) => Err(x),
            Ok(sn) => match simp_expr(d) {
                Err(x) => Err(x),
                Ok(sd) => if !expr_has_var(sn) && !expr_has_var(sd) {
                    match atom_value(AtomV::Fraction(sn, sd)) {
                        Err(x) => Err(x),
                        Ok(v) => Ok(AtomV::Number(v.0, v.1)),
                    }
                } else {
                    Ok(AtomV::Fraction(sn, sd))
                },
            },
        },
        _ => Ok(a),
    }
}

/// The first `n` atoms of `t` that hold a variable, each simplified.
pub open spec fn simp_var_atoms(t: Seq<AtomV>, n: int) -> Result<Seq<AtomV>, EvalError>
    decreases t, n,
{
    if n <= 0 || n > t.len() {
        Ok(Seq::empty())
    } else {
        match simp_var_atoms(t, n - 1) {
            Err(x) => Err(x),
            Ok(r) => if has_var(t[n - 1]) {
                match simp_atom(t[n - 1]) {
                    Err(x) => Err(x),
                    Ok(a) => Ok(r.push(a)),
                }
            } else {
                Ok(r)
            },
        }
    }
}

/// The simplified term with coefficient `amount` and the variable part of `src`: a
/// zero coefficient leaves zero, a unit coefficient is left out.
pub open spec fn merged_term(amount: (int, int), src: Seq<AtomV>) -> Result<Seq<AtomV>, EvalError>
    decreases src, src.len() + 1,
{
    let c = product((1, 1), amount);
    if !term_has_var(src) {
        Ok(seq![AtomV::Number(c.0, c.1)])
    } else if amount.0 == 0 {
        Ok(seq![AtomV::Number(0, 1)])
    } else {
        match simp_var_atoms(src, src.len() as int) {
            Err(x) => Err(x),
            Ok(r) => if c == (1int, 1int) {
                Ok(r)
            } else {
                Ok(seq![AtomV::Number(c.0, c.1)] + r)
            },
        }
    }
}

/// One merged term for each of the first `n` classes in `cs`.
pub open spec fn simp_classes(e: Seq<Seq<AtomV>>, cs: Seq<Seq<int>>, n: int) -> Result<
    Seq<Seq<AtomV>>,
    EvalError,
>
    decreases e, n,
{
    if n <= 0 || n > cs.len() {
        Ok(Seq::empty())
    } else {
        match simp_classes(e, cs, n - 1) {
            Err(x) => Err(x),
            Ok(r) => {
                let c = cs[n - 1];
                match class_amount(e, c, c.len() as int) {
                    Err(x) => Err(x),
                    Ok(a) => if c.len() > 0 && 0 <= c[0] < e.len() {
                        match merged_term(a, e[c[0]]) {
                            Err(x) => Err(x),
                            Ok(t) => Ok(r.push(t)),
                        }
                    } else {
                        Ok(r)
                    },
                }
            },
        }
    }
}

/// Canonical form of an expression: a single number when it holds no variable, else
/// its like terms merged and its groups distributed.
pub open spec fn simp_expr(e: Seq<Seq<AtomV>>) -> Result<Seq<Seq<AtomV>>, EvalError>
    decreases e, classes(e).len() + 1,
{
    if !expr_has_var(e) {
        match expr_value(e) {
            Err(x) => Err(x),
            Ok(v) => Ok(seq![seq![AtomV::Number(v.0, v.1)]]),
        }
    } else {
        match simp_classes(e, classes(e), classes(e).len() as int) {
            Err(x) => Err(x),
            Ok(ts) => Ok(expand(ts)),
        }
    }
}


fn is_greater(o: std::cmp::Ordering) -> (r: bool)
    ensures
        r == (o == std::cmp::Ordering::Greater),
{
    match o {
        std::cmp::Ordering::Greater => true,
        _ => false,
    }
}

proof fn lemma_insert_step<A>(s: Seq<A>, x: A, cmp: spec_fn(A, A) -> std::cmp::Ordering, j: int)
    requires
        0 < j <= s.len(),
        cmp(s[j - 1], x) == std::cmp::Ordering::Greater,
    ensures
        insert_by(s.subrange(0, j), x, cmp) + s.subrange(j, s.len() as int) == insert_by(
            s.subrange(0, j - 1),
            x,
            cmp,
        ) + s.subrange(j - 1, s.len() as int),
{
    let p = s.subrange(0, j);
    assert(p.drop_last() =~= s.subrange(0, j - 1));
    assert(p.last() == s[j - 1]);
    let q = insert_by(s.subrange(0, j - 1), x, cmp);
    assert(insert_by(p, x, cmp) == q.push(s[j - 1]));
    assert(q.push(s[j - 1]) + s.subrange(j, s.len() as int) =~= q + s.subrange(j - 1, s.len() as int));
}

proof fn lemma_insert_stop<A>(s: Seq<A>, x: A, cmp: spec_fn(A, A) -> std::cmp::Ordering, j: int)
    requires
        0 <= j <= s.len(),
        j == 0 || cmp(s[j - 1], x) != std::cmp::Ordering::Greater,
    ensures
        insert_by(s.subrange(0, j), x, cmp) + s.subrange(j, s.len() as int) == s.insert(j, x),
{
    let p = s.subrange(0, j);
    if j > 0 {
        assert(p.last() == s[j - 1]);
    }
    assert(insert_by(p, x, cmp) + s.subrange(j, s.len() as int) =~= s.insert(j, x));
}

/// The variable-holding atoms of `t`, copied and sorted by the order on atoms.
fn like_key(t: &Term) -> (r: Vec<Atom>)
    ensures
        view_atoms(r@) == sort_by(var_atoms(t@), atom_order()),
{
    proof {
        lemma_term_of(*t);
    }
    let ghost tv = t@;
    let mut r: Vec<Atom> = Vec::new();
    let mut i: usize = 0;
    while i < t.atoms.len()
        invariant
            i <= t.atoms.len(),
            tv == view_atoms(t.atoms@),
            tv.len() == t.atoms.len(),
            view_atoms(r@) == sort_by(var_atoms(tv.subrange(0, i as int)), atom_order()),
        decreases t.atoms.len() - i,
    {
        let ghost pre = tv.subrange(0, i as int);
        assert(tv.subrange(0, i + 1).drop_last() =~= pre);
        if t.atoms[i].contains_variable() {
            let x = t.atoms[i].copy();
            let ghost s = view_atoms(r@);
            assert(var_atoms(tv.subrange(0, i + 1)) == var_atoms(pre).push(tv[i as int]));
            assert(var_atoms(pre).push(tv[i as int]).drop_last() =~= var_atoms(pre));
            let mut j: usize = r.len();
            assert(s.subrange(0, j as int) =~= s);
            assert(insert_by(s, x@, atom_order()) =~= insert_by(s, x@, atom_order()) + s.subrange(
                j as int,
                s.len() as int,
            ));
            while j > 0 && is_greater(compare_atom(&r[j - 1], &x))
                invariant
                    j <= r.len(),
                    s == view_atoms(r@),
                    i < tv.len(),
                    x@ == tv[i as int],
                    insert_by(s, x@, atom_order()) == insert_by(s.subrange(0, j as int), x@, atom_order())
                        + s.subrange(j as int, s.len() as int),
                decreases j,
            {
                proof {
                    lemma_insert_step(s, x@, atom_order(), j as int);
                }
                j -= 1;
            }
            proof {
                lemma_insert_stop(s, x@, atom_order(), j as int);
            }
            r.insert(j, x);
            assert(view_atoms(r@) =~= s.insert(j as int, tv[i as int]));
        } else {
            assert(var_atoms(tv.subrange(0, i + 1)) == var_atoms(pre));
        }
        i += 1;
    }
    assert(tv.subrange(0, t.atoms.len() as int) =~= tv);
    r
}

fn atoms_equal(a: &Vec<Atom>, b: &Vec<Atom>) -> (r: bool)
    ensures
        r == (view_atoms(a@) == view_atoms(b@)),
{
    if a.len() != b.len() {
        assert(view_atoms(a@).len() != view_atoms(b@).len());
        return false;
    }
    let mut i: usize = 0;
    while i < a.len()
        invariant
            i <= a.len(),
            a.len() == b.len(),
            forall|j: int| 0 <= j < i ==> a@[j]@ == b@[j]@,
        decreases a.len() - i,
    {
        if !a[i].equals(&b[i]) {
            assert(view_atoms(a@)[i as int] != view_atoms(b@)[i as int]);
            return false;
        }
        i += 1;
    }
    assert(view_atoms(a@) =~= view_atoms(b@));
    true
}


pub open spec fn idx(c: Seq<usize>) -> Seq<int> {
    c.map_values(|j: usize| j as int)
}

pub open spec fn idxs(v: Seq<Vec<usize>>) -> Seq<Seq<int>> {
    v.map_values(|c: Vec<usize>| idx(c@))
}

/// Copies of the terms that class `c` names.
fn class_expr(terms: &Vec<Term>, c: &Vec<usize>) -> (r: Expression)
    ensures
        r@ == class_terms(view_terms(terms@), idx(c@)),
{
    let ghost e = view_terms(terms@);
    let mut out: Vec<Term> = Vec::new();
    let mut i: usize = 0;
    while i < c.len()
        invariant
            i <= c.len(),
            e == view_terms(terms@),
            view_terms(out@) == class_terms(e, idx(c@).subrange(0, i as int)),
        decreases c.len() - i,
    {
        assert(idx(c@).subrange(0, i + 1).drop_last() =~= idx(c@).subrange(0, i as int));
        if c[i] < terms.len() {
            out.push(terms[c[i]].copy());
            assert(view_terms(out@) =~= class_terms(e, idx(c@).subrange(0, i as int)).push(e[c@[i as int] as int]));
        }
        i += 1;
    }
    assert(idx(c@).subrange(0, c.len() as int) =~= idx(c@));
    let r = Expression { terms: out };
    proof {
        lemma_expr_of(r);
    }
    r
}

fn compare_classes(terms: &Vec<Term>, a: &Vec<usize>, b: &Vec<usize>) -> (r: std::cmp::Ordering)
    ensures
        r == (class_order(view_terms(terms@)))(idx(a@), idx(b@)),
{
    let x = class_expr(terms, a);
    let y = class_expr(terms, b);
    compare_expressions(&x, &y)
}

/// The like-term classes of `terms`, sorted and without repeats.
fn collect_like_terms(terms: &Vec<Term>) -> (r: Vec<Vec<usize>>)
    ensures
        idxs(r@) == classes(view_terms(terms@)),
{
    let ghost e = view_terms(terms@);
    let mut keys: Vec<Vec<Atom>> = Vec::new();
    let mut k: usize = 0;
    while k < terms.len()
        invariant
            k <= terms.len(),
            e == view_terms(terms@),
            keys.len() == k,
            forall|j: int| 0 <= j < k ==> view_atoms(#[trigger] keys@[j]@) == sort_by(var_atoms(e[j]), atom_order()),
        decreases terms.len() - k,
    {
        keys.push(like_key(&terms[k]));
        k += 1;
    }
    let mut all: Vec<Vec<usize>> = Vec::new();
    k = 0;
    while k < terms.len()
        invariant
            k <= terms.len(),
            e == view_terms(terms@),
            keys.len() == terms.len(),
            forall|j: int| 0 <= j < terms.len() ==> view_atoms(#[trigger] keys@[j]@) == sort_by(var_atoms(e[j]), atom_order()),
            idxs(all@) == all_classes(e, k as int),
        decreases terms.len() - k,
    {
        let mut class: Vec<usize> = Vec::new();
        let mut j: usize = 0;
        while j < terms.len()
            invariant
                j <= terms.len(),
                k < terms.len(),
                e == view_terms(terms@),
                keys.len() == terms.len(),
                forall|m: int| 0 <= m < terms.len() ==> view_atoms(#[trigger] keys@[m]@) == sort_by(var_atoms(e[m]), atom_order()),
                idx(class@) == like_indices(e, k as int, j as int),
            decreases terms.len() - j,
        {
            if atoms_equal(&keys[k], &keys[j]) {
                class.push(j);
                assert(idx(class@) =~= like_indices(e, k as int, j as int).push(j as int));
            }
            j += 1;
        }
        all.push(class);
        assert(idxs(all@) =~= all_classes(e, k as int).push(like_indices(e, k as int, e.len() as int)));
        k += 1;
    }
    let ghost order = class_order(e);
    let mut sorted: Vec<Vec<usize>> = Vec::new();
    let mut i: usize = 0;
    while i < all.len()
        invariant
            i <= all.len(),
            e == view_terms(terms@),
            order == class_order(e),
            idxs(sorted@) == sort_by(idxs(all@).subrange(0, i as int), order),
        decreases all.len() - i,
    {
        let ghost pre = idxs(all@).subrange(0, i as int);
        assert(idxs(all@).subrange(0, i + 1).drop_last() =~= pre);
        let x = all[i].clone();
        assert(x@ =~= all@[i as int]@);
        let ghost s = idxs(sorted@);
        let mut j: usize = sorted.len();
        assert(s.subrange(0, j as int) =~= s);
        assert(insert_by(s, idx(x@), order) =~= insert_by(s, idx(x@), order) + s.subrange(
            j as int,
            s.len() as int,
        ));
        while j > 0 && is_greater(compare_classes(terms, &sorted[j - 1], &x))
            invariant
                j <= sorted.len(),
                s == idxs(sorted@),
                e == view_terms(terms@),
                order == class_order(e),
                insert_by(s, idx(x@), order) == insert_by(s.subrange(0, j as int), idx(x@), order)
                    + s.subrange(j as int, s.len() as int),
            decreases j,
        {
            proof {
                lemma_insert_step(s, idx(x@), order, j as int);
            }
            j -= 1;
        }
        proof {
            lemma_insert_stop(s, idx(x@), order, j as int);
        }
        sorted.insert(j, x);
        assert(idxs(sorted@) =~= s.insert(j as int, idx(x@)));
        assert(idxs(all@)[i as int] == idx(x@));
        i += 1;
    }
    assert(idxs(all@).subrange(0, all.len() as int) =~= idxs(all@));
    let ghost srt = idxs(sorted@);
    let mut out: Vec<Vec<usize>> = Vec::new();
    i = 0;
    while i < sorted.len()
        invariant
            i <= sorted.len(),
            e == view_terms(terms@),
            srt == idxs(sorted@),
            idxs(out@) == dedup_classes(e, srt.subrange(0, i as int)),
        decreases sorted.len() - i,
    {
        assert(srt.subrange(0, i + 1).drop_last() =~= srt.subrange(0, i as int));
        let mut repeat = false;
        if out.len() > 0 {
            let last = class_expr(terms, &out[out.len() - 1]);
            let cur = class_expr(terms, &sorted[i]);
            repeat = last.equals(&cur);
        }
        if !repeat {
            let x = sorted[i].clone();
            assert(x@ =~= sorted@[i as int]@);
            out.push(x);
            assert(idxs(out@) =~= dedup_classes(e, srt.subrange(0, i as int)).push(srt[i as int]));
        }
        i += 1;
    }
    assert(srt.subrange(0, sorted.len() as int) =~= srt);
    out
}


pub open spec fn same_atom(r: Result<Atom, EvalError>, s: Result<AtomV, EvalError>) -> bool {
    match r {
        Ok(a) => s == Ok::<AtomV, EvalError>(a@),
        Err(x) => s == Err::<AtomV, EvalError>(x),
    }
}

pub open spec fn same_term(r: Result<Term, EvalError>, s: Result<Seq<AtomV>, EvalError>) -> bool {
    match r {
        Ok(t) => s == Ok::<Seq<AtomV>, EvalError>(t@),
        Err(x) => s == Err::<Seq<AtomV>, EvalError>(x),
    }
}

pub open spec fn same_expr(r: Result<Expression, EvalError>, s: Result<Seq<Seq<AtomV>>, EvalError>) -> bool {
    match r {
        Ok(e) => s == Ok::<Seq<Seq<AtomV>>, EvalError>(e@),
        Err(x) => s == Err::<Seq<Seq<AtomV>>, EvalError>(x),
    }
}

/// Copies of the atoms of `t` that hold no variable.
fn const_part(t: &Term) -> (r: Term)
    ensures
        r@ == const_atoms(t@),
{
    proof {
        lemma_term_of(*t);
    }
    let ghost tv = t@;
    let mut out: Vec<Atom> = Vec::new();
    let mut i: usize = 0;
    while i < t.atoms.len()
        invariant
            i <= t.atoms.len(),
            tv == view_atoms(t.atoms@),
            tv.len() == t.atoms.len(),
            view_atoms(out@) == const_atoms(tv.subrange(0, i as int)),
        decreases t.atoms.len() - i,
    {
        assert(tv.subrange(0, i + 1).drop_last() =~= tv.subrange(0, i as int));
        if !t.atoms[i].contains_variable() {
            out.push(t.atoms[i].copy());
            assert(view_atoms(out@) =~= const_atoms(tv.subrange(0, i as int)).push(tv[i as int]));
        }
        i += 1;
    }
    assert(tv.subrange(0, t.atoms.len() as int) =~= tv);
    let r = Term { atoms: out };
    proof {
        lemma_term_of(r);
    }
    r
}

/// Product of the values of the atoms of `t` that hold no variable.
pub fn coefficient_of(t: &Term) -> (r: Result<Rational, EvalError>)
    ensures
        same_value(r, coefficient(t@)),
{
    let c = const_part(t);
    eval_term(&c)
}

proof fn lemma_class_amount_err(e: Seq<Seq<AtomV>>, c: Seq<int>, m: int, n: int)
    requires
        0 < m <= n <= c.len(),
        class_amount(e, c, m) is Err,
    ensures
        class_amount(e, c, n) == class_amount(e, c, m),
    decreases n - m,
{
    if m < n {
        lemma_class_amount_err(e, c, m, n - 1);
    }
}

fn class_amount_of(terms: &Vec<Term>, c: &Vec<usize>) -> (r: Result<Rational, EvalError>)
    ensures
        same_value(r, class_amount(view_terms(terms@), idx(c@), c.len() as int)),
{
    let ghost e = view_terms(terms@);
    let mut acc = Rational::from_int(0);
    let mut i: usize = 0;
    while i < c.len()
        invariant
            i <= c.len(),
            e == view_terms(terms@),
            class_amount(e, idx(c@), i as int) == Ok::<(int, int), EvalError>(acc@),
        decreases c.len() - i,
    {
        if c[i] < terms.len() {
            match coefficient_of(&terms[c[i]]) {
                Err(x) => {
                    proof {
                        lemma_class_amount_err(e, idx(c@), i + 1, c.len() as int);
                    }
                    return Err(x);
                },
                Ok(v) => {
                    acc = acc.add(&v);
                },
            }
        }
        i += 1;
    }
    Ok(acc)
}

proof fn lemma_simp_var_atoms_err(t: Seq<AtomV>, m: int, n: int)
    requires
        0 < m <= n <= t.len(),
        simp_var_atoms(t, m) is Err,
    ensures
        simp_var_atoms(t, n) == simp_var_atoms(t, m),
    decreases n - m,
{
    if m < n {
        lemma_simp_var_atoms_err(t, m, n - 1);
    }
}

proof fn lemma_simp_classes_err(e: Seq<Seq<AtomV>>, cs: Seq<Seq<int>>, m: int, n: int)
    requires
        0 < m <= n <= cs.len(),
        simp_classes(e, cs, m) is Err,
    ensures
        simp_classes(e, cs, n) == simp_classes(e, cs, m),
    decreases n - m,
{
    if m < n {
        lemma_simp_classes_err(e, cs, m, n - 1);
    }
}

pub fn simplify_atom(atom: &Atom) -> (r: Result<Atom, EvalError>)
    ensures
        same_atom(r, simp_atom(atom@)),
    decreases atom, 0nat,
{
    match atom {
        Atom::Group(expression) => {
            let s = simplify_expression(expression)?;
            if !s.contains_variable() {
                let v = eval_expression(&s)?;
                Ok(Atom::Number(v))
            } else {
                Ok(Atom::Group(s))
            }
        },
        Atom::Fraction { numerator, denominator } => {
            let n = simplify_expression(numerator)?;
            let d = simplify_expression(denominator)?;
            if !n.contains_variable() && !d.contains_variable() {
                let f = Atom::Fraction { numerator: n, denominator: d };
                let v = eval_atom(&f)?;
                Ok(Atom::Number(v))
            } else {
                Ok(Atom::Fraction { numerator: n, denominator: d })
            }
        },
        _ => Ok(atom.copy()),
    }
}

/// The atoms of `t` that hold a variable, each simplified.
#[verifier::rlimit(50)]
fn simplify_var_atoms(t: &Term) -> (r: Result<Term, EvalError>)
    ensures
        same_term(r, simp_var_atoms(t@, t@.len() as int)),
    decreases t, 1nat,
{
    proof {
        lemma_term_of(*t);
    }
    let ghost tv = t@;
    let mut out: Vec<Atom> = Vec::new();
    proof {
        lemma_view_empty();
    }
    let mut i: usize = 0;
    while i < t.atoms.len()
        invariant
            i <= t.atoms.len(),
            tv == view_atoms(t.atoms@),
            tv == t@,
            tv.len() == t.atoms.len(),
            simp_var_atoms(tv, i as int) == Ok::<Seq<AtomV>, EvalError>(view_atoms(out@)),
        decreases t.atoms.len() - i,
    {
        if t.atoms[i].contains_variable() {
            match simplify_atom(&t.atoms[i]) {
                Err(x) => {
                    proof {
                        assert(tv[i as int] == t.atoms@[i as int]@);
                        assert(simp_var_atoms(tv, i + 1) == Err::<Seq<AtomV>, EvalError>(x));
                        lemma_simp_var_atoms_err(tv, i + 1, tv.len() as int);
                    }
                    return Err(x);
                },
                Ok(a) => {
                    let ghost prev = out@;
                    out.push(a);
                    proof {
                        lemma_view_atoms_push(prev, a);
                    }
                },
            }
        }
        i += 1;
    }
    let r = Term { atoms: out };
    proof {
        lemma_term_of(r);
    }
    Ok(r)
}

pub(crate) fn number_term(v: Rational) -> (r: Term)
    ensures
        r@ == seq![AtomV::Number(v@.0, v@.1)],
{
    let mut atoms: Vec<Atom> = Vec::new();
    atoms.push(Atom::Number(v));
    let r = Term { atoms };
    proof {
        lemma_term_of(r);
        assert(r@ =~= seq![AtomV::Number(v@.0, v@.1)]);
    }
    r
}

fn merge_term(amount: &Rational, src: &Term) -> (r: Result<Term, EvalError>)
    ensures
        same_term(r, merged_term(amount@, src@)),
    decreases src, 2nat,
{
    let one = Rational::from_int(1);
    let c = one.mul(amount);
    if !src.contains_variable() {
        return Ok(number_term(c));
    }
    if amount.is_zero() {
        return Ok(number_term(Rational::from_int(0)));
    }
    let rest = simplify_var_atoms(src)?;
    if c.is_int(1) {
        Ok(rest)
    } else {
        let mut atoms: Vec<Atom> = Vec::new();
        let ghost cv = c@;
        atoms.push(Atom::Number(c));
        proof {
            lemma_term_of(rest);
        }
        let ghost rv = rest@;
        let mut tail = rest.atoms;
        atoms.append(&mut tail);
        let r = Term { atoms };
        proof {
            lemma_term_of(r);
            assert(r@ =~= seq![AtomV::Number(cv.0, cv.1)] + rv);
        }
        Ok(r)
    }
}


/// Appends copies of the atoms of `v` to `out`.
fn push_copies(out: &mut Vec<Atom>, v: &Vec<Atom>)
    ensures
        view_atoms(final(out)@) == view_atoms(old(out)@) + view_atoms(v@),
{
    let ghost start = view_atoms(out@);
    let mut i: usize = 0;
    while i < v.len()
        invariant
            i <= v.len(),
            view_atoms(out@) == start + view_atoms(v@).subrange(0, i as int),
        decreases v.len() - i,
    {
        let a = v[i].copy();
        let ghost prev = out@;
        out.push(a);
        assert(out@ == prev.push(a));
        assert(view_atoms(out@) == view_atoms(prev).push(a@));
        assert(view_atoms(out@) =~= start + view_atoms(v@).subrange(0, i + 1));
        i += 1;
    }
    assert(view_atoms(v@).subrange(0, v.len() as int) =~= view_atoms(v@));
}

fn first_group(t: &Term) -> (r: usize)
    ensures
        r as int == group_index(t@, 0),
        r <= t.atoms.len(),
{
    proof {
        lemma_term_of(*t);
    }
    let mut i: usize = 0;
    while i < t.atoms.len()
        invariant
            i <= t.atoms.len(),
            t@ == view_atoms(t.atoms@),
            group_index(t@, 0) == group_index(t@, i as int),
        decreases t.atoms.len() - i,
    {
        match &t.atoms[i] {
            Atom::Group(_) => {
                return i;
            },
            _ => {},
        }
        i += 1;
    }
    i
}

#[verifier::rlimit(50)]
fn expand_one(t: &Term) -> (r: Vec<Term>)
    ensures
        view_terms(r@) == expand_term(t@),
{
    proof {
        lemma_term_of(*t);
    }
    let g = first_group(t);
    if g >= t.atoms.len() {
        let r: Vec<Term> = Vec::new();
        assert(view_terms(r@) =~= expand_term(t@));
        return r;
    }
    let mut rest: Vec<Atom> = Vec::new();
    let mut i: usize = 0;
    while i < t.atoms.len()
        invariant
            i <= t.atoms.len(),
            g < t.atoms.len(),
            t@ == view_atoms(t.atoms@),
            view_atoms(rest@) == (if i <= g { t@.subrange(0, i as int) } else { t@.remove(g as int).subrange(0, i - 1) }),
        decreases t.atoms.len() - i,
    {
        if i != g {
            let a = t.atoms[i].copy();
            let ghost prev = rest@;
            rest.push(a);
            proof {
                lemma_view_atoms_push(prev, a);
            }
            if i < g {
                assert(view_atoms(rest@) =~= t@.subrange(0, i + 1));
            } else {
                assert(view_atoms(rest@) =~= t@.remove(g as int).subrange(0, i as int));
            }
        } else {
            assert(t@.subrange(0, g as int) =~= t@.remove(g as int).subrange(0, g as int));
        }
        i += 1;
    }
    assert(view_atoms(rest@) =~= t@.remove(g as int));
    let ghost restv = t@.remove(g as int);
    let mut out: Vec<Term> = Vec::new();
    match &t.atoms[g] {
        Atom::Group(inner) => {
            proof {
                lemma_expr_of(*inner);
            }
            let ghost iv = inner@;
            let mut j: usize = 0;
            while j < inner.terms.len()
                invariant
                    j <= inner.terms.len(),
                    iv == view_terms(inner.terms@),
                    view_atoms(rest@) == restv,
                    view_terms(out@) == iv.subrange(0, j as int).map_values(|u: Seq<AtomV>| u + restv),
                decreases inner.terms.len() - j,
            {
                let mut atoms: Vec<Atom> = Vec::new();
                push_copies(&mut atoms, &inner.terms[j].atoms);
                push_copies(&mut atoms, &rest);
                let nt = Term { atoms };
                proof {
                    lemma_term_of(nt);
                    lemma_term_of(inner.terms[j as int]);
                    assert(view_atoms(Seq::<Atom>::empty()) =~= Seq::<AtomV>::empty());
                    assert(nt@ =~= iv[j as int] + restv);
                }
                let ghost prev = out@;
                out.push(nt);
                proof {
                    lemma_view_terms_push(prev, nt);
                }
                assert(view_terms(out@) =~= iv.subrange(0, j + 1).map_values(|u: Seq<AtomV>| u + restv));
                j += 1;
            }
            assert(iv.subrange(0, inner.terms.len() as int) =~= iv);
        },
        _ => {
            assert(view_terms(out@) =~= Seq::<Seq<AtomV>>::empty());
        },
    }
    out
}

fn level(l: &Vec<Term>) -> (r: (Vec<Term>, Vec<Term>))
    ensures
        view_terms(r.0@) == keep_level(view_terms(l@)),
        view_terms(r.1@) == expand_level(view_terms(l@)),
{
    let ghost lv = view_terms(l@);
    let mut keep: Vec<Term> = Vec::new();
    let mut next: Vec<Term> = Vec::new();
    let mut i: usize = 0;
    while i < l.len()
        invariant
            i <= l.len(),
            lv == view_terms(l@),
            view_terms(keep@) == keep_level(lv.subrange(0, i as int)),
            view_terms(next@) == expand_level(lv.subrange(0, i as int)),
        decreases l.len() - i,
    {
        assert(lv.subrange(0, i + 1).drop_last() =~= lv.subrange(0, i as int));
        let g = first_group(&l[i]);
        proof {
            lemma_term_of(l[i as int]);
            assert(lv[i as int] == l@[i as int]@);
        }
        if g < l[i].atoms.len() {
            assert(keep_level(lv.subrange(0, i + 1)) == keep_level(lv.subrange(0, i as int)));
            let mut ex = expand_one(&l[i]);
            let ghost before = next@;
            let ghost exv = ex@;
            next.append(&mut ex);
            proof {
                lemma_view_terms_append(before, exv);
            }
            assert(next@ == before + exv);
            assert(view_terms(next@) =~= view_terms(before) + expand_term(lv[i as int]));
        } else {
            assert(expand_level(lv.subrange(0, i + 1)) == expand_level(lv.subrange(0, i as int)));
            let t = l[i].copy();
            let ghost prev = keep@;
            keep.push(t);
            proof {
                lemma_view_terms_push(prev, t);
            }
            assert(view_terms(keep@) =~= keep_level(lv.subrange(0, i as int)).push(lv[i as int]));
        }
        i += 1;
    }
    assert(lv.subrange(0, l.len() as int) =~= lv);
    (keep, next)
}

/// Distributes every group of `l`, level by level.
pub(crate) fn expand_groups(l: Vec<Term>) -> (r: Vec<Term>)
    ensures
        view_terms(r@) == expand(view_terms(l@)),
{
    let ghost lv = view_terms(l@);
    let mut fuel: usize = 0;
    let mut i: usize = 0;
    while i < l.len()
        invariant
            i <= l.len(),
            lv == view_terms(l@),
            fuel as nat == max_len(lv.subrange(0, i as int)),
        decreases l.len() - i,
    {
        assert(lv.subrange(0, i + 1).drop_last() =~= lv.subrange(0, i as int));
        proof {
            lemma_term_of(l[i as int]);
        }
        if l[i].atoms.len() > fuel {
            fuel = l[i].atoms.len();
        }
        i += 1;
    }
    assert(lv.subrange(0, l.len() as int) =~= lv);
    let mut out: Vec<Term> = Vec::new();
    let mut cur = l;
    while fuel > 0 && cur.len() > 0
        invariant
            view_terms(out@) + expand_levels(view_terms(cur@), fuel as nat) == expand(lv),
        decreases fuel,
    {
        let (mut keep, next) = level(&cur);
        let ghost before = view_terms(out@);
        let ghost o = out@;
        let ghost k = keep@;
        out.append(&mut keep);
        proof {
            lemma_view_terms_append(o, k);
        }
        assert(out@ == o + k);
        assert(view_terms(out@) =~= before + keep_level(view_terms(cur@)));
        assert(before + (keep_level(view_terms(cur@)) + expand_levels(view_terms(next@), (fuel - 1) as nat))
            =~= view_terms(out@) + expand_levels(view_terms(next@), (fuel - 1) as nat));
        cur = next;
        fuel -= 1;
    }
    let ghost o = out@;
    let ghost c = cur@;
    out.append(&mut cur);
    proof {
        lemma_view_terms_append(o, c);
    }
    assert(out@ == o + c);
    out
}

#[verifier::rlimit(50)]
pub fn simplify_expression(expression: &Expression) -> (r: Result<Expression, EvalError>)
    ensures
        same_expr(r, simp_expr(expression@)),
    decreases expression, 3nat,
{
    if !expression.contains_variable() {
        let v = eval_expression(expression)?;
        let mut terms: Vec<Term> = Vec::new();
        terms.push(number_term(v));
        let r = Expression { terms };
        proof {
            lemma_expr_of(r);
            assert(r@ =~= seq![seq![AtomV::Number(v@.0, v@.1)]]);
        }
        return Ok(r);
    }
    proof {
        lemma_expr_of(*expression);
    }
    let ghost e = expression@;
    let cs = collect_like_terms(&expression.terms);
    let ghost csv = idxs(cs@);
    let mut merged: Vec<Term> = Vec::new();
    proof {
        lemma_view_empty();
    }
    let mut n: usize = 0;
    while n < cs.len()
        invariant
            n <= cs.len(),
            e == view_terms(expression.terms@),
            e == expression@,
            expr_has_var(e),
            csv == idxs(cs@),
            csv == classes(e),
            simp_classes(e, csv, n as int) == Ok::<Seq<Seq<AtomV>>, EvalError>(view_terms(merged@)),
        decreases cs.len() - n,
    {
        let c = &cs[n];
        assert(csv[n as int] == idx(c@));
        let amount = match class_amount_of(&expression.terms, c) {
            Err(x) => {
                proof {
                    assert(simp_classes(e, csv, n + 1) == Err::<Seq<Seq<AtomV>>, EvalError>(x));
                    lemma_simp_classes_err(e, csv, n + 1, csv.len() as int);
                }
                return Err(x);
            },
            Ok(a) => a,
        };
        if c.len() > 0 && c[0] < expression.terms.len() {
            match merge_term(&amount, &expression.terms[c[0]]) {
                Err(x) => {
                    proof {
                        assert(e[c@[0] as int] == expression.terms@[c@[0] as int]@);
                        assert(simp_classes(e, csv, n + 1) == Err::<Seq<Seq<AtomV>>, EvalError>(x));
                        lemma_simp_classes_err(e, csv, n + 1, csv.len() as int);
                    }
                    return Err(x);
                },
                Ok(t) => {
                    let ghost prev = merged@;
                    merged.push(t);
                    proof {
                        lemma_view_terms_push(prev, t);
                    }
                },
            }
        }
        n += 1;
    }
    let out = expand_groups(merged);
    let r = Expression { terms: out };
    proof {
        lemma_expr_of(r);
    }
    Ok(r)
}

} // verus!
