use vstd::prelude::*;
use crate::equation::{Atom, AtomV, Expression, Term, lemma_expr_view, lemma_term_view};

verus! {

pub open spec fn cmp_num(a: (int, int), b: (int, int)) -> std::cmp::Ordering {
    if a.0 * b.1 < b.0 * a.1 {
        std::cmp::Ordering::Less
    } else if a.0 * b.1 == b.0 * a.1 {
        std::cmp::Ordering::Equal
    } else {
        std::cmp::Ordering::Greater
    }
}

/// Lexicographic order of two character sequences.
pub open spec fn cmp_chars(a: Seq<char>, b: Seq<char>) -> std::cmp::Ordering
    decreases a.len(),
{
    if a.len() == 0 {
        if b.len() == 0 { std::cmp::Ordering::Equal } else { std::cmp::Ordering::Less }
    } else if b.len() == 0 {
        std::cmp::Ordering::Greater
    } else if (a[0] as u32) < (b[0] as u32) {
        std::cmp::Ordering::Less
    } else if (a[0] as u32) > (b[0] as u32) {
        std::cmp::Ordering::Greater
    } else {
        cmp_chars(a.drop_first(), b.drop_first())
    }
}

/// Rank of an atom's kind in the order: numbers, variables, fractions, groups.
pub open spec fn rank(a: AtomV) -> int {
    match a {
        AtomV::Number(_, _) => 0,
        AtomV::Variable(_) => 1,
        AtomV::Fraction(_, _) => 2,
        AtomV::Group(_) => 3,
    }
}

/// The total order on atoms: by kind first, then by value, name, or contents.
pub open spec fn cmp_atom(a: AtomV, b: AtomV) -> std::cmp::Ordering
    decreases a, 0nat,
{
    if rank(a) < rank(b) {
        std::cmp::Ordering::Less
    } else if rank(a) > rank(b) {
        std::cmp::Ordering::Greater
    } else {
        match (a, b) {
            (AtomV::Number(n1, d1), AtomV::Number(n2, d2)) => cmp_num((n1, d1), (n2, d2)),
            (AtomV::Variable(x), AtomV::Variable(y)) => cmp_chars(x, y),
            (AtomV::Group(x), AtomV::Group(y)) => cmp_terms_from(x, y, 0),
            (AtomV::Fraction(n1, d1), AtomV::Fraction(n2, d2)) => match cmp_terms_from(n1, n2, 0) {
                std::cmp::Ordering::Equal => cmp_terms_from(d1, d2, 0),
                o => o,
            },
            _ => std::cmp::Ordering::Equal,
        }
    }
}

/// Lexicographic order of two terms, from index `i` on.
pub open spec fn cmp_atoms_from(x: Seq<AtomV>, y: Seq<AtomV>, i: int) -> std::cmp::Ordering
    decreases x, (x.len() - i) as nat,
{
    if i < 0 || i >= x.len() {
        if i >= y.len() { std::cmp::Ordering::Equal } else { std::cmp::Ordering::Less }
    } else if i >= y.len() {
        std::cmp::Ordering::Greater
    } else {
        match cmp_atom(x[i], y[i]) {
            std::cmp::Ordering::Equal => cmp_atoms_from(x, y, i + 1),
            o => o,
        }
    }
}

/// Lexicographic order of two expressions, from index `i` on.
pub open spec fn cmp_terms_from(x: Seq<Seq<AtomV>>, y: Seq<Seq<AtomV>>, i: int) -> std::cmp::Ordering
    decreases x, (x.len() - i) as nat,
{
    if i < 0 || i >= x.len() {
        if i >= y.len() { std::cmp::Ordering::Equal } else { std::cmp::Ordering::Less }
    } else if i >= y.len() {
        std::cmp::Ordering::Greater
    } else {
        match cmp_atoms_from(x[i], y[i], 0) {
            std::cmp::Ordering::Equal => cmp_terms_from(x, y, i + 1),
            o => o,
        }
    }
}

pub open spec fn cmp_term(x: Seq<AtomV>, y: Seq<AtomV>) -> std::cmp::Ordering {
    cmp_atoms_from(x, y, 0)
}

/// Stable insertion of `x` into `s`: it goes after every element that is not greater.
pub open spec fn insert_by<A>(s: Seq<A>, x: A, cmp: spec_fn(A, A) -> std::cmp::Ordering) -> Seq<A>
    decreases s.len(),
{
    if s.len() == 0 {
        seq![x]
    } else if cmp(s.last(), x) == std::cmp::Ordering::Greater {
        insert_by(s.drop_last(), x, cmp).push(s.last())
    } else {
        s.push(x)
    }
}

/// Stable insertion sort.
pub open spec fn sort_by<A>(s: Seq<A>, cmp: spec_fn(A, A) -> std::cmp::Ordering) -> Seq<A>
    decreases s.len(),
{
    if s.len() == 0 {
        s
    } else {
        insert_by(sort_by(s.drop_last(), cmp), s.last(), cmp)
    }
}

/// Relies on `String`'s `Ord`: strings are ordered by their UTF-8 bytes, which is the
/// order of their characters' code points.
#[verifier::external_body]
fn compare_names(a: &String, b: &String) -> (r: std::cmp::Ordering)
    ensures
        r == cmp_chars(a@, b@),
{
    a.cmp(b)
}

pub fn compare_atom(a: &Atom, b: &Atom) -> (r: std::cmp::Ordering)
    ensures
        r == cmp_atom(a@, b@),
    decreases a,
{
    let ra: u8 = match a {
        Atom::Number(_) => 0,
        Atom::Variable(_) => 1,
        Atom::Fraction { .. } => 2,
        Atom::Group(_) => 3,
    };
    let rb: u8 = match b {
        Atom::Number(_) => 0,
        Atom::Variable(_) => 1,
        Atom::Fraction { .. } => 2,
        Atom::Group(_) => 3,
    };
    if ra < rb {
        return std::cmp::Ordering::Less;
    }
    if ra > rb {
        return std::cmp::Ordering::Greater;
    }
    match (a, b) {
        (Atom::Number(x), Atom::Number(y)) => x.compare(y),
        (Atom::Variable(x), Atom::Variable(y)) => compare_names(x, y),
        (Atom::Group(x), Atom::Group(y)) => compare_expressions(x, y),
        (
            Atom::Fraction { numerator: n1, denominator: d1 },
            Atom::Fraction { numerator: n2, denominator: d2 },
        ) => match compare_expressions(n1, n2) {
            std::cmp::Ordering::Equal => compare_expressions(d1, d2),
            o => o,
        },
        _ => std::cmp::Ordering::Equal,
    }
}

pub fn compare_terms(x: &Term, y: &Term) -> (r: std::cmp::Ordering)
    ensures
        r == cmp_term(x@, y@),
    decreases x,
{
    proof {
        lemma_term_view(*x);
        lemma_term_view(*y);
    }
    let mut i: usize = 0;
    while i < x.atoms.len() && i < y.atoms.len()
        invariant
            i <= x.atoms.len(),
            i <= y.atoms.len(),
            x@.len() == x.atoms.len(),
            y@.len() == y.atoms.len(),
            forall|j: int| 0 <= j < x.atoms.len() ==> #[trigger] x@[j] == x.atoms[j]@,
            forall|j: int| 0 <= j < y.atoms.len() ==> #[trigger] y@[j] == y.atoms[j]@,
            cmp_atoms_from(x@, y@, 0) == cmp_atoms_from(x@, y@, i as int),
        decreases x.atoms.len() - i,
    {
        match compare_atom(&x.atoms[i], &y.atoms[i]) {
            std::cmp::Ordering::Equal => {},
            o => {
                return o;
            },
        }
        i += 1;
    }
    if i < x.atoms.len() {
        std::cmp::Ordering::Greater
    } else if i < y.atoms.len() {
        std::cmp::Ordering::Less
    } else {
        std::cmp::Ordering::Equal
    }
}

pub fn compare_expressions(x: &Expression, y: &Expression) -> (r: std::cmp::Ordering)
    ensures
        r == cmp_terms_from(x@, y@, 0),
    decreases x,
{
    proof {
        lemma_expr_view(*x);
        lemma_expr_view(*y);
    }
    let mut i: usize = 0;
    while i < x.terms.len() && i < y.terms.len()
        invariant
            i <= x.terms.len(),
            i <= y.terms.len(),
            x@.len() == x.terms.len(),
            y@.len() == y.terms.len(),
            forall|j: int| 0 <= j < x.terms.len() ==> #[trigger] x@[j] == x.terms[j]@,
            forall|j: int| 0 <= j < y.terms.len() ==> #[trigger] y@[j] == y.terms[j]@,
            cmp_terms_from(x@, y@, 0) == cmp_terms_from(x@, y@, i as int),
        decreases x.terms.len() - i,
    {
        match compare_terms(&x.terms[i], &y.terms[i]) {
            std::cmp::Ordering::Equal => {},
            o => {
                return o;
            },
        }
        i += 1;
    }
    if i < x.terms.len() {
        std::cmp::Ordering::Greater
    } else if i < y.terms.len() {
        std::cmp::Ordering::Less
    } else {
        std::cmp::Ordering::Equal
    }
}

} // verus!
