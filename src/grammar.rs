use vstd::prelude::*;
use crate::equation::AtomV;
use crate::lexer::{Lexer, LexerError, TokenKind, char_at, number_value, skip_white, token_end, token_kind_of, walk};
use crate::parsing::ParsingError;

verus! {


/// Why the grammar rejects the input, with the source index where the offending
/// token starts.
pub enum Failure {
    Lexical(int),
    ExpectedToken(TokenKind, int),
    ExpectedAtom(int),
}

/// Where the token after position `p` starts.
pub open spec fn tok_start(s: Seq<char>, p: int) -> int {
    skip_white(s, p)
}

/// The kind of the token after position `p`, or none for a bad character.
pub open spec fn tok_kind(s: Seq<char>, p: int) -> Option<TokenKind> {
    token_kind_of(char_at(s, skip_white(s, p)))
}

/// Where the token after position `p` ends.
pub open spec fn tok_next(s: Seq<char>, p: int) -> int {
    token_end(s, skip_white(s, p))
}

pub open spec fn is_product_kind(k: TokenKind) -> bool {
    k == TokenKind::Multiply || k == TokenKind::Divide
}

pub open spec fn is_sum_kind(k: TokenKind) -> bool {
    k == TokenKind::Plus || k == TokenKind::Minus
}

/// A token of kind `k` after position `p`; the position after it.
pub open spec fn expect_spec(s: Seq<char>, p: int, k: TokenKind) -> Result<int, Failure> {
    match tok_kind(s, p) {
        None => Err(Failure::Lexical(tok_start(s, p))),
        Some(k2) => if k2 == k {
            Ok(tok_next(s, p))
        } else {
            Err(Failure::ExpectedToken(k, tok_start(s, p)))
        },
    }
}

/// atom := number | name | '(' expression ')'
pub open spec fn atom_spec(s: Seq<char>, p: int) -> Result<(AtomV, int), Failure>
    decreases s.len() - p, 0nat,
{
    let p0 = tok_start(s, p);
    if p < 0 || p > s.len() {
        Err(Failure::ExpectedAtom(p0))
    } else {
        match tok_kind(s, p) {
            None => Err(Failure::Lexical(p0)),
            Some(TokenKind::Number) => {
                let v = number_value(s, p0);
                Ok((AtomV::Number(v.0, v.1), tok_next(s, p)))
            },
            Some(TokenKind::Name) => Ok((AtomV::Variable(s.subrange(p0, tok_next(s, p))), tok_next(s, p))),
            Some(TokenKind::OpenParenthesis) => {
                let q = tok_next(s, p);
                if q <= p {
                    Err(Failure::ExpectedAtom(p0))
                } else {
                    match expr_spec(s, q) {
                        Err(f) => Err(f),
                        Ok((e, q2)) => match expect_spec(s, q2, TokenKind::CloseParenthesis) {
                            Err(f) => Err(f),
                            Ok(q3) => Ok((AtomV::Group(e), q3)),
                        },
                    }
                }
            },
            Some(_) => Err(Failure::ExpectedAtom(p0)),
        }
    }
}

/// The rest of a term after the atoms `acc`: each `*` appends the next atom, each
/// `/` makes a fraction of all atoms so far over the next atom.
pub open spec fn term_rest(s: Seq<char>, q: int, acc: Seq<AtomV>) -> Result<(Seq<AtomV>, int), Failure>
    decreases s.len() - q, 0nat,
{
    if q < 0 || q > s.len() {
        Ok((acc, q))
    } else {
        match tok_kind(s, q) {
            None => Err(Failure::Lexical(tok_start(s, q))),
            Some(k) => if !is_product_kind(k) {
                Ok((acc, q))
            } else {
                let q1 = tok_next(s, q);
                if q1 <= q {
                    Ok((acc, q))
                } else {
                    match atom_spec(s, q1) {
                        Err(f) => Err(f),
                        Ok((a, q2)) => if q2 < q1 || q2 > s.len() {
                            Ok((acc, q))
                        } else {
                            term_rest(
                                s,
                                q2,
                                if k == TokenKind::Multiply {
                                    acc.push(a)
                                } else {
                                    seq![AtomV::Fraction(seq![acc], seq![seq![a]])]
                                },
                            )
                        },
                    }
                }
            },
        }
    }
}

/// term := atom (('*' | '/') atom)*
pub open spec fn term_spec(s: Seq<char>, p: int) -> Result<(Seq<AtomV>, int), Failure>
    decreases s.len() - p, 1nat,
{
    match atom_spec(s, p) {
        Err(f) => Err(f),
        Ok((a, q)) => if q < p || q > s.len() {
            Ok((seq![a], q))
        } else {
            term_rest(s, q, seq![a])
        },
    }
}

/// The rest of an expression after the terms `acc`: a term after `-` gets a factor
/// of -1.
pub open spec fn expr_rest(s: Seq<char>, q: int, acc: Seq<Seq<AtomV>>) -> Result<(Seq<Seq<AtomV>>, int), Failure>
    decreases s.len() - q, 1nat,
{
    if q < 0 || q > s.len() {
        Ok((acc, q))
    } else {
        match tok_kind(s, q) {
            None => Err(Failure::Lexical(tok_start(s, q))),
            Some(k) => if !is_sum_kind(k) {
                Ok((acc, q))
            } else {
                let q1 = tok_next(s, q);
                if q1 <= q {
                    Ok((acc, q))
                } else {
                    match term_spec(s, q1) {
                        Err(f) => Err(f),
                        Ok((t, q2)) => if q2 < q1 || q2 > s.len() {
                            Ok((acc, q))
                        } else {
                            expr_rest(
                                s,
                                q2,
                                acc.push(if k == TokenKind::Minus { t.push(AtomV::Number(-1, 1)) } else { t }),
                            )
                        },
                    }
                }
            },
        }
    }
}

/// expression := term (('+' | '-') term)*
pub open spec fn expr_spec(s: Seq<char>, p: int) -> Result<(Seq<Seq<AtomV>>, int), Failure>
    decreases s.len() - p, 2nat,
{
    match term_spec(s, p) {
        Err(f) => Err(f),
        Ok((t, q)) => if q < p || q > s.len() {
            Ok((seq![t], q))
        } else {
            expr_rest(s, q, seq![t])
        },
    }
}

/// equation := expression '=' expression EOF
pub open spec fn equation_spec(s: Seq<char>, p: int) -> Result<
    ((Seq<Seq<AtomV>>, Seq<Seq<AtomV>>), int),
    Failure,
> {
    match expr_spec(s, p) {
        Err(f) => Err(f),
        Ok((l, q)) => match expect_spec(s, q, TokenKind::Equal) {
            Err(f) => Err(f),
            Ok(q2) => match expr_spec(s, q2) {
                Err(f) => Err(f),
                Ok((r, q3)) => match expect_spec(s, q3, TokenKind::EOF) {
                    Err(f) => Err(f),
                    Ok(q4) => Ok(((l, r), q4)),
                },
            },
        },
    }
}

/// `e` is the error that the failure `f` names, with the offending token located
/// relative to the lexer state `l0`.
pub open spec fn fails_as(e: ParsingError, f: Failure, l0: Lexer) -> bool {
    let s = l0.source();
    failure_at(f) >= l0.position() && match f {
        Failure::Lexical(p) => match e {
            ParsingError::LexerError(LexerError::UnexpectedCharacter { span, character }) => character
                == char_at(s, p) && span.filepath@ == l0.filepath() && span.start == walk(
                l0.location(),
                s,
                l0.position() as int,
                p,
            ),
            _ => false,
        },
        Failure::ExpectedToken(k, p) => match e {
            ParsingError::ExpectedToken { expected, got } => expected == k && Some(got.kind)
                == token_kind_of(char_at(s, p)) && got.span.filepath@ == l0.filepath() && got.span.start
                == walk(l0.location(), s, l0.position() as int, p),
            _ => false,
        },
        Failure::ExpectedAtom(p) => match e {
            ParsingError::ExpectedAtom { got } => Some(got.kind) == token_kind_of(char_at(s, p))
                && got.span.filepath@ == l0.filepath() && got.span.start == walk(
                l0.location(),
                s,
                l0.position() as int,
                p,
            ),
            _ => false,
        },
    }
}

pub open spec fn failure_at(f: Failure) -> int {
    match f {
        Failure::Lexical(p) => p,
        Failure::ExpectedToken(_, p) => p,
        Failure::ExpectedAtom(p) => p,
    }
}

/// The parser's result agrees with the grammar's: the same tree and end position, or
/// the same failure.
pub open spec fn parsed_as<A: View>(r: Result<A, ParsingError>, g: Result<(A::V, int), Failure>, l0: Lexer, l1: Lexer) -> bool {
    match r {
        Ok(a) => g == Ok::<(A::V, int), Failure>((a@, l1.position() as int)),
        Err(e) => match g {
            Ok(_) => false,
            Err(f) => fails_as(e, f, l0),
        },
    }
}

pub open spec fn progress(before: Lexer, after: Lexer) -> bool {
    &&& after.wf()
    &&& after.source() == before.source()
    &&& after.filepath() == before.filepath()
    &&& after.position() >= before.position()
    &&& after.position() <= after.source().len()
    &&& after.location() == walk(before.location(), before.source(), before.position() as int, after.position() as int)
}

pub proof fn lemma_walk_compose(l: crate::lexer::SourceLocation, s: Seq<char>, a: int, b: int, c: int)
    requires
        a <= b <= c,
    ensures
        walk(walk(l, s, a, b), s, b, c) == walk(l, s, a, c),
    decreases c - b,
{
    if c > b {
        lemma_walk_compose(l, s, a, b, c - 1);
    }
}

pub broadcast proof fn lemma_skip_white_ge(s: Seq<char>, p: int)
    requires
        0 <= p,
    ensures
        #[trigger] skip_white(s, p) >= p,
    decreases s.len() - p,
{
    if p < s.len() && s[p] != '\0' && crate::lexer::white(s[p]) {
        lemma_skip_white_ge(s, p + 1);
    }
}

pub broadcast proof fn lemma_progress_trans(a: Lexer, b: Lexer, c: Lexer)
    requires
        #[trigger] progress(a, b),
        #[trigger] progress(b, c),
    ensures
        progress(a, c),
{
    lemma_walk_compose(a.location(), a.source(), a.position() as int, b.position() as int, c.position() as int);
}

pub broadcast proof fn lemma_fails_shift(e: ParsingError, f: Failure, a: Lexer, b: Lexer)
    requires
        #[trigger] progress(a, b),
        #[trigger] fails_as(e, f, b),
    ensures
        fails_as(e, f, a),
{
    lemma_walk_compose(a.location(), a.source(), a.position() as int, b.position() as int, failure_at(f));
}


} // verus!
