use vstd::prelude::*;
use crate::rational::Rational;

verus! {

/// A factor of a term.
pub enum Atom {
    Number(Rational),
    Variable(String),
    Group(Expression),
    Fraction { numerator: Expression, denominator: Expression },
}

/// Atoms multiplied together; no atoms at all stands for one.
pub struct Term {
    pub atoms: Vec<Atom>,
}

/// Terms added together; no terms at all stands for zero.
pub struct Expression {
    pub terms: Vec<Term>,
}

pub enum Equation {
    Equality { left: Expression, right: Expression },
}

/// Mathematical model of an atom: a number is the pair (numerator, denominator) in
/// lowest terms; a term is the sequence of its atoms, an expression the sequence of
/// its terms.
pub enum AtomV {
    Number(int, int),
    Variable(Seq<char>),
    Group(Seq<Seq<AtomV>>),
    Fraction(Seq<Seq<AtomV>>, Seq<Seq<AtomV>>),
}

pub open spec fn atom_view(a: Atom) -> AtomV
    decreases a, 0nat,
{
    match a {
        Atom::Number(v) => AtomV::Number(v@.0, v@.1),
        Atom::Variable(s) => AtomV::Variable(s@),
        Atom::Group(e) => AtomV::Group(terms_view(e, e.terms.len() as int)),
        Atom::Fraction { numerator, denominator } => AtomV::Fraction(
            terms_view(numerator, numerator.terms.len() as int),
            terms_view(denominator, denominator.terms.len() as int),
        ),
    }
}

/// Models of the first `n` atoms of `t`.
pub open spec fn atoms_view(t: Term, n: int) -> Seq<AtomV>
    decreases t, n,
{
    if n <= 0 || n > t.atoms.len() {
        Seq::empty()
    } else {
        atoms_view(t, n - 1).push(atom_view(t.atoms[n - 1]))
    }
}

/// Models of the first `n` terms of `e`.
pub open spec fn terms_view(e: Expression, n: int) -> Seq<Seq<AtomV>>
    decreases e, n,
{
    if n <= 0 || n > e.terms.len() {
        Seq::empty()
    } else {
        terms_view(e, n - 1).push(atoms_view(e.terms[n - 1], e.terms[n - 1].atoms.len() as int))
    }
}

impl View for Atom {
    type V = AtomV;

    open spec fn view(&self) -> AtomV {
        atom_view(*self)
    }
}

impl View for Term {
    type V = Seq<AtomV>;

    open spec fn view(&self) -> Seq<AtomV> {
        atoms_view(*self, self.atoms.len() as int)
    }
}

impl View for Expression {
    type V = Seq<Seq<AtomV>>;

    open spec fn view(&self) -> Seq<Seq<AtomV>> {
        terms_view(*self, self.terms.len() as int)
    }
}

impl View for Equation {
    type V = (Seq<Seq<AtomV>>, Seq<Seq<AtomV>>);

    open spec fn view(&self) -> (Seq<Seq<AtomV>>, Seq<Seq<AtomV>>) {
        match *self {
            Equation::Equality { left, right } => (left@, right@),
        }
    }
}

pub proof fn lemma_term_view(t: Term)
    ensures
        t@.len() == t.atoms.len(),
        forall|i: int| 0 <= i < t.atoms.len() ==> #[trigger] t@[i] == t.atoms[i]@,
{
    lemma_atoms_view(t, t.atoms.len() as int);
}

proof fn lemma_atoms_view(t: Term, n: int)
    requires
        0 <= n <= t.atoms.len(),
    ensures
        atoms_view(t, n).len() == n,
        forall|i: int| 0 <= i < n ==> #[trigger] atoms_view(t, n)[i] == t.atoms[i]@,
    decreases n,
{
    if n > 0 {
        lemma_atoms_view(t, n - 1);
    }
}

pub proof fn lemma_expr_view(e: Expression)
    ensures
        e@.len() == e.terms.len(),
        forall|i: int| 0 <= i < e.terms.len() ==> #[trigger] e@[i] == e.terms[i]@,
{
    lemma_terms_view(e, e.terms.len() as int);
}

proof fn lemma_terms_view(e: Expression, n: int)
    requires
        0 <= n <= e.terms.len(),
    ensures
        terms_view(e, n).len() == n,
        forall|i: int| 0 <= i < n ==> #[trigger] terms_view(e, n)[i] == e.terms[i]@,
    decreases n,
{
    if n > 0 {
        lemma_terms_view(e, n - 1);
    }
}

pub open spec fn has_var(a: AtomV) -> bool
    decreases a, 0nat,
{
    match a {
        AtomV::Number(_, _) => false,
        AtomV::Variable(_) => true,
        AtomV::Group(e) => some_term_has_var(e, e.len() as int),
        AtomV::Fraction(n, d) => some_term_has_var(n, n.len() as int) || some_term_has_var(
            d,
            d.len() as int,
        ),
    }
}

/// Whether one of the first `n` atoms of `t` holds a variable.
pub open spec fn some_atom_has_var(t: Seq<AtomV>, n: int) -> bool
    decreases t, n,
{
    if n <= 0 || n > t.len() {
        false
    } else {
        some_atom_has_var(t, n - 1) || has_var(t[n - 1])
    }
}

/// Whether one of the first `n` terms of `e` holds a variable.
pub open spec fn some_term_has_var(e: Seq<Seq<AtomV>>, n: int) -> bool
    decreases e, n,
{
    if n <= 0 || n > e.len() {
        false
    } else {
        some_term_has_var(e, n - 1) || some_atom_has_var(e[n - 1], e[n - 1].len() as int)
    }
}

pub open spec fn term_has_var(t: Seq<AtomV>) -> bool {
    some_atom_has_var(t, t.len() as int)
}

pub open spec fn expr_has_var(e: Seq<Seq<AtomV>>) -> bool {
    some_term_has_var(e, e.len() as int)
}

impl Atom {
    pub fn contains_variable(&self) -> (r: bool)
        ensures
            r == has_var(self@),
        decreases self,
    {
        match self {
            Atom::Number(_) => false,
            Atom::Variable(_) => true,
            Atom::Group(expression) => expression.contains_variable(),
            Atom::Fraction { numerator, denominator } => numerator.contains_variable()
                || denominator.contains_variable(),
        }
    }
}

impl Term {
    pub fn contains_variable(&self) -> (r: bool)
        ensures
            r == term_has_var(self@),
        decreases self,
    {
        proof {
            lemma_term_view(*self);
        }
        let mut i: usize = 0;
        while i < self.atoms.len()
            invariant
                i <= self.atoms.len(),
                self@.len() == self.atoms.len(),
                forall|j: int| 0 <= j < self.atoms.len() ==> #[trigger] self@[j] == self.atoms[j]@,
                !some_atom_has_var(self@, i as int),
            decreases self.atoms.len() - i,
        {
            if self.atoms[i].contains_variable() {
                proof {
                    lemma_some_atom_grows(self@, i as int + 1, self.atoms.len() as int);
                }
                return true;
            }
            i += 1;
        }
        false
    }
}

impl Expression {
    pub fn contains_variable(&self) -> (r: bool)
        ensures
            r == expr_has_var(self@),
        decreases self,
    {
        proof {
            lemma_expr_view(*self);
        }
        let mut i: usize = 0;
        while i < self.terms.len()
            invariant
                i <= self.terms.len(),
                self@.len() == self.terms.len(),
                forall|j: int| 0 <= j < self.terms.len() ==> #[trigger] self@[j] == self.terms[j]@,
                !some_term_has_var(self@, i as int),
            decreases self.terms.len() - i,
        {
            if self.terms[i].contains_variable() {
                proof {
                    lemma_some_term_grows(self@, i as int + 1, self.terms.len() as int);
                }
                return true;
            }
            i += 1;
        }
        false
    }
}

impl Equation {
    pub fn contains_variable(&self) -> (r: bool)
        ensures
            r == (expr_has_var(self@.0) || expr_has_var(self@.1)),
    {
        match self {
            Equation::Equality { left, right } => left.contains_variable() || right.contains_variable(),
        }
    }
}

proof fn lemma_some_atom_grows(t: Seq<AtomV>, m: int, n: int)
    requires
        0 <= m <= n <= t.len(),
        some_atom_has_var(t, m),
    ensures
        some_atom_has_var(t, n),
    decreases n - m,
{
    if m < n {
        lemma_some_atom_grows(t, m, n - 1);
    }
}

proof fn lemma_some_term_grows(e: Seq<Seq<AtomV>>, m: int, n: int)
    requires
        0 <= m <= n <= e.len(),
        some_term_has_var(e, m),
    ensures
        some_term_has_var(e, n),
    decreases n - m,
{
    if m < n {
        lemma_some_term_grows(e, m, n - 1);
    }
}

impl Atom {
    pub fn copy(&self) -> (r: Atom)
        ensures
            r@ == self@,
        decreases self,
    {
        match self {
            Atom::Number(v) => Atom::Number(v.copy()),
            Atom::Variable(name) => Atom::Variable(name.clone()),
            Atom::Group(e) => Atom::Group(e.copy()),
            Atom::Fraction { numerator, denominator } => Atom::Fraction {
                numerator: numerator.copy(),
                denominator: denominator.copy(),
            },
        }
    }

    pub fn equals(&self, other: &Atom) -> (r: bool)
        ensures
            r == (self@ == other@),
        decreases self,
    {
        match (self, other) {
            (Atom::Number(x), Atom::Number(y)) => x.equals(y),
            (Atom::Variable(x), Atom::Variable(y)) => x.eq(y),
            (Atom::Group(x), Atom::Group(y)) => x.equals(y),
            (
                Atom::Fraction { numerator: n1, denominator: d1 },
                Atom::Fraction { numerator: n2, denominator: d2 },
            ) => n1.equals(n2) && d1.equals(d2),
            _ => false,
        }
    }
}

impl Term {
    pub fn copy(&self) -> (r: Term)
        ensures
            r@ == self@,
        decreases self,
    {
        proof {
            lemma_term_view(*self);
        }
        let mut atoms: Vec<Atom> = Vec::new();
        let mut i: usize = 0;
        while i < self.atoms.len()
            invariant
                i <= self.atoms.len(),
                atoms.len() == i,
                forall|j: int| 0 <= j < i ==> #[trigger] atoms[j]@ == self.atoms[j]@,
            decreases self.atoms.len() - i,
        {
            atoms.push(self.atoms[i].copy());
            i += 1;
        }
        let r = Term { atoms };
        proof {
            lemma_term_view(r);
            assert(r@ =~= self@);
        }
        r
    }

    pub fn equals(&self, other: &Term) -> (r: bool)
        ensures
            r == (self@ == other@),
        decreases self,
    {
        proof {
            lemma_term_view(*self);
            lemma_term_view(*other);
        }
        if self.atoms.len() != other.atoms.len() {
            return false;
        }
        let mut i: usize = 0;
        while i < self.atoms.len()
            invariant
                i <= self.atoms.len(),
                self.atoms.len() == other.atoms.len(),
                self@.len() == self.atoms.len(),
                other@.len() == other.atoms.len(),
                forall|j: int| 0 <= j < self.atoms.len() ==> #[trigger] self@[j] == self.atoms[j]@,
                forall|j: int| 0 <= j < other.atoms.len() ==> #[trigger] other@[j] == other.atoms[j]@,
                forall|j: int| 0 <= j < i ==> self@[j] == other@[j],
            decreases self.atoms.len() - i,
        {
            if !self.atoms[i].equals(&other.atoms[i]) {
                assert(self@[i as int] != other@[i as int]);
                return false;
            }
            i += 1;
        }
        assert(self@ =~= other@);
        true
    }
}

impl Expression {
    pub fn copy(&self) -> (r: Expression)
        ensures
            r@ == self@,
        decreases self,
    {
        proof {
            lemma_expr_view(*self);
        }
        let mut terms: Vec<Term> = Vec::new();
        let mut i: usize = 0;
        while i < self.terms.len()
            invariant
                i <= self.terms.len(),
                terms.len() == i,
                forall|j: int| 0 <= j < i ==> #[trigger] terms[j]@ == self.terms[j]@,
            decreases self.terms.len() - i,
        {
            terms.push(self.terms[i].copy());
            i += 1;
        }
        let r = Expression { terms };
        proof {
            lemma_expr_view(r);
            assert(r@ =~= self@);
        }
        r
    }

    pub fn equals(&self, other: &Expression) -> (r: bool)
        ensures
            r == (self@ == other@),
        decreases self,
    {
        proof {
            lemma_expr_view(*self);
            lemma_expr_view(*other);
        }
        if self.terms.len() != other.terms.len() {
            return false;
        }
        let mut i: usize = 0;
        while i < self.terms.len()
            invariant
                i <= self.terms.len(),
                self.terms.len() == other.terms.len(),
                self@.len() == self.terms.len(),
                other@.len() == other.terms.len(),
                forall|j: int| 0 <= j < self.terms.len() ==> #[trigger] self@[j] == self.terms[j]@,
                forall|j: int| 0 <= j < other.terms.len() ==> #[trigger] other@[j] == other.terms[j]@,
                forall|j: int| 0 <= j < i ==> self@[j] == other@[j],
            decreases self.terms.len() - i,
        {
            if !self.terms[i].equals(&other.terms[i]) {
                assert(self@[i as int] != other@[i as int]);
                return false;
            }
            i += 1;
        }
        assert(self@ =~= other@);
        true
    }
}

impl Equation {
    pub fn copy(&self) -> (r: Equation)
        ensures
            r@ == self@,
    {
        match self {
            Equation::Equality { left, right } => Equation::Equality {
                left: left.copy(),
                right: right.copy(),
            },
        }
    }

    pub fn equals(&self, other: &Equation) -> (r: bool)
        ensures
            r == (self@ == other@),
    {
        match (self, other) {
            (Equation::Equality { left: l1, right: r1 }, Equation::Equality { left: l2, right: r2 }) => {
                l1.equals(l2) && r1.equals(r2)
            },
        }
    }
}

pub open spec fn view_atoms(v: Seq<Atom>) -> Seq<AtomV> {
    v.map_values(|a: Atom| a@)
}

pub open spec fn view_terms(v: Seq<Term>) -> Seq<Seq<AtomV>> {
    v.map_values(|t: Term| t@)
}

pub proof fn lemma_term_of(t: Term)
    ensures
        t@ == view_atoms(t.atoms@),
{
    lemma_term_view(t);
    assert(t@ =~= view_atoms(t.atoms@));
}

pub proof fn lemma_expr_of(e: Expression)
    ensures
        e@ == view_terms(e.terms@),
{
    lemma_expr_view(e);
    assert(e@ =~= view_terms(e.terms@));
}

pub proof fn lemma_view_atoms_push(s: Seq<Atom>, a: Atom)
    ensures
        view_atoms(s.push(a)) == view_atoms(s).push(a@),
{
    assert(view_atoms(s.push(a)) =~= view_atoms(s).push(a@));
}

pub proof fn lemma_view_terms_push(s: Seq<Term>, t: Term)
    ensures
        view_terms(s.push(t)) == view_terms(s).push(t@),
{
    assert(view_terms(s.push(t)) =~= view_terms(s).push(t@));
}

pub proof fn lemma_view_terms_append(a: Seq<Term>, b: Seq<Term>)
    ensures
        view_terms(a + b) == view_terms(a) + view_terms(b),
{
    assert(view_terms(a + b) =~= view_terms(a) + view_terms(b));
}

pub proof fn lemma_view_empty()
    ensures
        view_atoms(Seq::<Atom>::empty()) == Seq::<AtomV>::empty(),
        view_terms(Seq::<Term>::empty()) == Seq::<Seq<AtomV>>::empty(),
{
    assert(view_atoms(Seq::<Atom>::empty()) =~= Seq::<AtomV>::empty());
    assert(view_terms(Seq::<Term>::empty()) =~= Seq::<Seq<AtomV>>::empty());
}

} // verus!
