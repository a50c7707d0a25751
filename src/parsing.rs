use vstd::prelude::*;
use crate::equation::{
    Atom, AtomV, Equation, Expression, Term, lemma_expr_of, lemma_term_of, lemma_view_atoms_push,
    lemma_view_empty, lemma_view_terms_push, view_atoms, view_terms,
};
use crate::grammar::{
    Failure, atom_spec, equation_spec, expect_spec, expr_rest, expr_spec, fails_as, is_product_kind,
    is_sum_kind, lemma_fails_shift, lemma_progress_trans, lemma_skip_white_ge, parsed_as, progress,
    term_rest, term_spec, tok_kind, tok_next, tok_start,
};
use crate::lexer::{Lexer, LexerError, Token, TokenData, TokenKind, number_value, walk};
use crate::rational::Rational;

verus! {

pub enum ParsingError {
    LexerError(LexerError),
    ExpectedToken { expected: TokenKind, got: Token },
    ExpectedAtom { got: Token },
}

broadcast use lemma_progress_trans, lemma_fails_shift, lemma_skip_white_ge;

pub open spec fn remaining(l: Lexer) -> int {
    l.source().len() - l.position()
}

fn next(lexer: &mut Lexer) -> (r: Result<Token, ParsingError>)
    requires
        old(lexer).wf(),
        old(lexer).position() <= old(lexer).source().len(),
    ensures
        progress(*old(lexer), *final(lexer)),
        final(lexer).position() == tok_next(old(lexer).source(), old(lexer).position() as int),
        match r {
            Ok(t) => {
                let s = old(lexer).source();
                let p0 = tok_start(s, old(lexer).position() as int);
                &&& tok_kind(s, old(lexer).position() as int) == Some(t.kind)
                &&& t.kind != TokenKind::EOF ==> final(lexer).position() > old(lexer).position()
                &&& t.span.filepath@ == old(lexer).filepath()
                &&& t.span.start == walk(old(lexer).location(), s, old(lexer).position() as int, p0)
                &&& t.kind == TokenKind::Number ==> t.data is Number
                &&& t.kind == TokenKind::Name ==> t.data is String
                &&& match t.data {
                    TokenData::Number(v) => v@ == number_value(s, p0),
                    TokenData::String(n) => n@ == s.subrange(p0, tok_next(s, old(lexer).position() as int)),
                    TokenData::Empty => true,
                }
            },
            Err(e) => tok_kind(old(lexer).source(), old(lexer).position() as int) is None && fails_as(
                e,
                Failure::Lexical(tok_start(old(lexer).source(), old(lexer).position() as int)),
                *old(lexer),
            ),
        },
{
    match lexer.next_token() {
        Ok(t) => Ok(t),
        Err(e) => Err(ParsingError::LexerError(e)),
    }
}

fn peek_kind(lexer: &Lexer) -> (r: Result<TokenKind, ParsingError>)
    requires
        lexer.wf(),
        lexer.position() <= lexer.source().len(),
    ensures
        match r {
            Ok(k) => tok_kind(lexer.source(), lexer.position() as int) == Some(k),
            Err(e) => tok_kind(lexer.source(), lexer.position() as int) is None && fails_as(
                e,
                Failure::Lexical(tok_start(lexer.source(), lexer.position() as int)),
                *lexer,
            ),
        },
{
    match lexer.peek_token() {
        Ok(t) => Ok(t.kind),
        Err(e) => Err(ParsingError::LexerError(e)),
    }
}

fn expect_token(lexer: &mut Lexer, kind: TokenKind) -> (r: Result<Token, ParsingError>)
    requires
        old(lexer).wf(),
        old(lexer).position() <= old(lexer).source().len(),
    ensures
        progress(*old(lexer), *final(lexer)),
        match r {
            Ok(t) => {
                let s = old(lexer).source();
                let p0 = tok_start(s, old(lexer).position() as int);
                &&& expect_spec(s, old(lexer).position() as int, kind) == Ok::<int, Failure>(final(lexer).position() as int)
                &&& t.kind == kind
                &&& kind != TokenKind::EOF ==> final(lexer).position() > old(lexer).position()
                &&& t.kind == TokenKind::Number ==> t.data is Number
                &&& t.kind == TokenKind::Name ==> t.data is String
                &&& match t.data {
                    TokenData::Number(v) => v@ == number_value(s, p0),
                    TokenData::String(n) => n@ == s.subrange(p0, tok_next(s, old(lexer).position() as int)),
                    TokenData::Empty => true,
                }
            },
            Err(e) => match expect_spec(old(lexer).source(), old(lexer).position() as int, kind) {
                Ok(_) => false,
                Err(f) => fails_as(e, f, *old(lexer)),
            },
        },
{
    let token = next(lexer)?;
    if token.kind != kind {
        return Err(ParsingError::ExpectedToken { expected: kind, got: token });
    }
    Ok(token)
}

fn make_fraction(atoms: Vec<Atom>, a: Atom) -> (r: Atom)
    ensures
        r@ == AtomV::Fraction(seq![view_atoms(atoms@)], seq![seq![a@]]),
{
    let ghost av = view_atoms(atoms@);
    let ghost a_v = a@;
    let num_term = Term { atoms };
    proof {
        lemma_term_of(num_term);
    }
    let ghost nt = num_term;
    let mut num_terms: Vec<Term> = Vec::new();
    num_terms.push(num_term);
    let mut den_atoms: Vec<Atom> = Vec::new();
    den_atoms.push(a);
    let den_term = Term { atoms: den_atoms };
    proof {
        lemma_term_of(den_term);
        assert(den_term@ =~= seq![a_v]);
    }
    let ghost dt = den_term;
    let mut den_terms: Vec<Term> = Vec::new();
    den_terms.push(den_term);
    let numerator = Expression { terms: num_terms };
    let denominator = Expression { terms: den_terms };
    proof {
        lemma_expr_of(numerator);
        lemma_expr_of(denominator);
        assert(numerator@ =~= seq![av]);
        assert(denominator@ =~= seq![seq![a_v]]);
    }
    Atom::Fraction { numerator, denominator }
}

fn is_product_operator(k: TokenKind) -> (r: bool)
    ensures
        r == is_product_kind(k),
{
    match k {
        TokenKind::Multiply | TokenKind::Divide => true,
        _ => false,
    }
}

fn is_sum_operator(k: TokenKind) -> (r: bool)
    ensures
        r == is_sum_kind(k),
{
    match k {
        TokenKind::Plus | TokenKind::Minus => true,
        _ => false,
    }
}

/// A number, a name, or a parenthesized expression.
fn parse_atom(lexer: &mut Lexer) -> (r: Result<Atom, ParsingError>)
    requires
        old(lexer).wf(),
        old(lexer).position() <= old(lexer).source().len(),
    ensures
        progress(*old(lexer), *final(lexer)),
        parsed_as(r, atom_spec(old(lexer).source(), old(lexer).position() as int), *old(lexer), *final(lexer)),
    decreases remaining(*old(lexer)), 0nat,
{
    let ghost s = lexer.source();
    let ghost p = lexer.position() as int;
    let k = match peek_kind(lexer) {
        Ok(k) => k,
        Err(e) => {
            return Err(e);
        },
    };
    match k {
        TokenKind::Number => {
            let token = expect_token(lexer, TokenKind::Number)?;
            match token.data {
                TokenData::Number(v) => Ok(Atom::Number(v)),
                _ => Err(ParsingError::ExpectedAtom { got: token }),
            }
        },
        TokenKind::Name => {
            let token = expect_token(lexer, TokenKind::Name)?;
            match token.data {
                TokenData::String(name) => Ok(Atom::Variable(name)),
                _ => Err(ParsingError::ExpectedAtom { got: token }),
            }
        },
        TokenKind::OpenParenthesis => {
            expect_token(lexer, TokenKind::OpenParenthesis)?;
            let expression = parse_expression(lexer)?;
            expect_token(lexer, TokenKind::CloseParenthesis)?;
            Ok(Atom::Group(expression))
        },
        _ => {
            let got = next(lexer)?;
            Err(ParsingError::ExpectedAtom { got })
        },
    }
}

/// A run of atoms joined by `*` and `/`; a division makes a fraction of everything
/// before it over the next atom.
pub fn parse_term(lexer: &mut Lexer) -> (r: Result<Term, ParsingError>)
    requires
        old(lexer).wf(),
        old(lexer).position() <= old(lexer).source().len(),
    ensures
        progress(*old(lexer), *final(lexer)),
        parsed_as(r, term_spec(old(lexer).source(), old(lexer).position() as int), *old(lexer), *final(lexer)),
    decreases remaining(*old(lexer)), 1nat,
{
    let ghost l0 = *lexer;
    let ghost s = lexer.source();
    let first = parse_atom(lexer)?;
    let mut atoms: Vec<Atom> = Vec::new();
    let ghost fv = first@;
    atoms.push(first);
    proof {
        lemma_view_empty();
        lemma_view_atoms_push(Seq::<Atom>::empty(), atoms@[0]);
        assert(atoms@ =~= Seq::<Atom>::empty().push(atoms@[0]));
    }
    let mut done = false;
    while !done
        invariant
            progress(l0, *lexer),
            l0 == *old(lexer),
            s == l0.source(),
            term_spec(s, l0.position() as int) == term_rest(s, lexer.position() as int, view_atoms(atoms@)),
            done ==> term_rest(s, lexer.position() as int, view_atoms(atoms@)) == Ok::<(Seq<AtomV>, int), Failure>(
                (view_atoms(atoms@), lexer.position() as int),
            ),
        decreases remaining(*lexer), (if done { 0int } else { 1int }),
    {
        let ghost q = lexer.position() as int;
        let ghost acc = view_atoms(atoms@);
        let k = match peek_kind(lexer) {
            Ok(k) => k,
            Err(e) => {
                return Err(e);
            },
        };
        if !is_product_operator(k) {
            done = true;
        } else {
            let operator = next(lexer)?;
            let ghost l1 = *lexer;
            match operator.kind {
                TokenKind::Multiply => {
                    let atom = parse_atom(lexer)?;
                    let ghost prev = atoms@;
                    proof {
                        lemma_view_atoms_push(prev, atom);
                    }
                    atoms.push(atom);
                    proof {
                        assert(operator.kind == k);
                        assert(l1.position() == tok_next(s, q));
                        assert(term_rest(s, q, acc) == term_rest(s, lexer.position() as int, view_atoms(atoms@)));
                    }
                },
                TokenKind::Divide => {
                    let atom = parse_atom(lexer)?;
                    let ghost av = atom@;
                    assert(view_atoms(atoms@) == acc);
                    let fraction = make_fraction(atoms, atom);
                    atoms = Vec::new();
                    let ghost fr = fraction;
                    atoms.push(fraction);
                    proof {
                        lemma_view_empty();
                        lemma_view_atoms_push(Seq::<Atom>::empty(), fr);
                        assert(atoms@ =~= Seq::<Atom>::empty().push(fr));
                        assert(view_atoms(atoms@) =~= seq![fr@]);
                        assert(operator.kind == k);
                        assert(l1.position() == tok_next(s, q));
                        assert(term_rest(s, q, acc) == term_rest(s, lexer.position() as int, view_atoms(atoms@)));
                    }
                },
                _ => {
                    return Err(ParsingError::ExpectedAtom { got: operator });
                },
            }
        }
    }
    let t = Term { atoms };
    proof {
        lemma_term_of(t);
    }
    Ok(t)
}

/// A run of terms joined by `+` and `-`; a subtracted term gets a factor of -1.
fn parse_expression(lexer: &mut Lexer) -> (r: Result<Expression, ParsingError>)
    requires
        old(lexer).wf(),
        old(lexer).position() <= old(lexer).source().len(),
    ensures
        progress(*old(lexer), *final(lexer)),
        parsed_as(r, expr_spec(old(lexer).source(), old(lexer).position() as int), *old(lexer), *final(lexer)),
    decreases remaining(*old(lexer)), 2nat,
{
    let ghost l0 = *lexer;
    let ghost s = lexer.source();
    let first = parse_term(lexer)?;
    let mut terms: Vec<Term> = Vec::new();
    let ghost ft = first;
    terms.push(first);
    proof {
        lemma_view_empty();
        lemma_view_terms_push(Seq::<Term>::empty(), ft);
        assert(terms@ =~= Seq::<Term>::empty().push(ft));
    }
    let mut done = false;
    while !done
        invariant
            progress(l0, *lexer),
            l0 == *old(lexer),
            s == l0.source(),
            expr_spec(s, l0.position() as int) == expr_rest(s, lexer.position() as int, view_terms(terms@)),
            done ==> expr_rest(s, lexer.position() as int, view_terms(terms@)) == Ok::<(Seq<Seq<AtomV>>, int), Failure>(
                (view_terms(terms@), lexer.position() as int),
            ),
        decreases remaining(*lexer), (if done { 0int } else { 1int }),
    {
        let k = match peek_kind(lexer) {
            Ok(k) => k,
            Err(e) => {
                return Err(e);
            },
        };
        if !is_sum_operator(k) {
            done = true;
        } else {
            let operator = next(lexer)?;
            match operator.kind {
                TokenKind::Plus => {
                    let term = parse_term(lexer)?;
                    let ghost prev = terms@;
                    proof {
                        lemma_view_terms_push(prev, term);
                    }
                    terms.push(term);
                },
                TokenKind::Minus => {
                    let mut term = parse_term(lexer)?;
                    proof {
                        lemma_term_of(term);
                    }
                    let ghost ta = term.atoms@;
                    let n = Atom::Number(Rational::from_int(-1));
                    term.atoms.push(n);
                    proof {
                        lemma_view_atoms_push(ta, n);
                        lemma_term_of(term);
                    }
                    let ghost prev = terms@;
                    proof {
                        lemma_view_terms_push(prev, term);
                    }
                    terms.push(term);
                },
                _ => {
                    return Err(ParsingError::ExpectedAtom { got: operator });
                },
            }
        }
    }
    let e = Expression { terms };
    proof {
        lemma_expr_of(e);
    }
    Ok(e)
}

/// `expression '=' expression` followed by the end of input.
pub fn parse_equation(lexer: &mut Lexer) -> (r: Result<Equation, ParsingError>)
    requires
        old(lexer).wf(),
        old(lexer).position() <= old(lexer).source().len(),
    ensures
        progress(*old(lexer), *final(lexer)),
        parsed_as(r, equation_spec(old(lexer).source(), old(lexer).position() as int), *old(lexer), *final(lexer)),
{
    let left = parse_expression(lexer)?;
    expect_token(lexer, TokenKind::Equal)?;
    let right = parse_expression(lexer)?;
    expect_token(lexer, TokenKind::EOF)?;
    Ok(Equation::Equality { left, right })
}

} // verus!
