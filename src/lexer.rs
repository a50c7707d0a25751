use vstd::prelude::*;
use crate::rational::{Rational, lemma_reduce_integer, product, reduce};

verus! {

#[derive(Clone, Copy, Debug, PartialEq, Eq, Structural)]
pub struct SourceLocation {
    pub line: usize,
    pub column: usize,
}

#[derive(Clone, Debug)]
pub struct SourceSpan {
    pub filepath: String,
    pub start: SourceLocation,
    pub end: SourceLocation,
}

#[derive(Clone, Copy, Debug, PartialEq, Eq, Structural)]
pub enum TokenKind {
    EOF,
    Name,
    Number,
    OpenParenthesis,
    CloseParenthesis,
    Plus,
    Minus,
    Multiply,
    Divide,
    Equal,
}

pub enum TokenData {
    Empty,
    String(String),
    Number(Rational),
}

pub struct Token {
    pub kind: TokenKind,
    pub data: TokenData,
    pub span: SourceSpan,
}

pub enum LexerError {
    UnexpectedCharacter { span: SourceSpan, character: char },
}

/// The token kind of a one-character token, `'\0'` standing for the end of input.
pub open spec fn single_char_kind(c: char) -> Option<TokenKind> {
    if c == '\0' {
        Some(TokenKind::EOF)
    } else if c == '(' {
        Some(TokenKind::OpenParenthesis)
    } else if c == ')' {
        Some(TokenKind::CloseParenthesis)
    } else if c == '+' {
        Some(TokenKind::Plus)
    } else if c == '-' {
        Some(TokenKind::Minus)
    } else if c == '*' {
        Some(TokenKind::Multiply)
    } else if c == '/' {
        Some(TokenKind::Divide)
    } else if c == '=' {
        Some(TokenKind::Equal)
    } else {
        None
    }
}

fn single_char_token(c: char) -> (r: Option<TokenKind>)
    ensures
        r == single_char_kind(c),
{
    if c == '\0' {
        Some(TokenKind::EOF)
    } else if c == '(' {
        Some(TokenKind::OpenParenthesis)
    } else if c == ')' {
        Some(TokenKind::CloseParenthesis)
    } else if c == '+' {
        Some(TokenKind::Plus)
    } else if c == '-' {
        Some(TokenKind::Minus)
    } else if c == '*' {
        Some(TokenKind::Multiply)
    } else if c == '/' {
        Some(TokenKind::Divide)
    } else if c == '=' {
        Some(TokenKind::Equal)
    } else {
        None
    }
}

/// The Unicode White_Space property.
pub open spec fn white(c: char) -> bool {
    let u = c as u32;
    (0x9 <= u <= 0xd) || u == 0x20 || u == 0x85 || u == 0xa0 || u == 0x1680 || (0x2000 <= u <= 0x200a)
        || u == 0x2028 || u == 0x2029 || u == 0x202f || u == 0x205f || u == 0x3000
}

pub uninterp spec fn alphanumeric(c: char) -> bool;

fn is_white(c: char) -> (r: bool)
    ensures
        r == white(c),
{
    let u = c as u32;
    (0x9 <= u && u <= 0xd) || u == 0x20 || u == 0x85 || u == 0xa0 || u == 0x1680 || (0x2000 <= u && u
        <= 0x200a) || u == 0x2028 || u == 0x2029 || u == 0x202f || u == 0x205f || u == 0x3000
}

/// Relies on `char::is_alphanumeric`: whether `c` is alphabetic or numeric in Unicode.
#[verifier::external_body]
fn is_alphanumeric(c: char) -> (r: bool)
    ensures
        r == alphanumeric(c),
{
    c.is_alphanumeric()
}

/// Relies on `str::chars`: the characters of `s`, in order.
#[verifier::external_body]
pub(crate) fn chars_of(s: &str) -> (r: Vec<char>)
    ensures
        r@ == s@,
{
    s.chars().collect()
}

/// Relies on `String`'s `FromIterator<char>`: the string of the characters of `v`.
#[verifier::external_body]
pub(crate) fn string_of(v: &Vec<char>) -> (r: String)
    ensures
        r@ == v@,
{
    v.iter().collect()
}

pub open spec fn digit(c: char) -> bool {
    '0' <= c <= '9'
}

fn is_digit(c: char) -> (r: bool)
    ensures
        r == digit(c),
{
    '0' <= c && c <= '9'
}

/// Where the next token starts: the first position at or after `p` that holds no
/// whitespace (a `'\0'` counts as none).
pub open spec fn skip_white(s: Seq<char>, p: int) -> int
    decreases s.len() - p,
{
    if p < 0 || p >= s.len() || s[p] == '\0' || !white(s[p]) {
        p
    } else {
        skip_white(s, p + 1)
    }
}

/// The character at `p`, or `'\0'` past the end.
pub open spec fn char_at(s: Seq<char>, p: int) -> char {
    if 0 <= p < s.len() { s[p] } else { '\0' }
}

/// The kind of token that starts with `c`, if any.
pub open spec fn token_kind_of(c: char) -> Option<TokenKind> {
    if digit(c) {
        Some(TokenKind::Number)
    } else if c != '\0' && alphanumeric(c) {
        Some(TokenKind::Name)
    } else {
        single_char_kind(c)
    }
}

/// The location after reading character `c` at `l`.
pub open spec fn step(l: SourceLocation, c: char) -> SourceLocation {
    if c == '\n' {
        SourceLocation { line: (l.line + 1) as usize, column: 1 }
    } else {
        SourceLocation { line: l.line, column: (l.column + 1) as usize }
    }
}

/// The location after reading `s[from..to]` from location `l`.
pub open spec fn walk(l: SourceLocation, s: Seq<char>, from: int, to: int) -> SourceLocation
    decreases to - from,
{
    if to <= from {
        l
    } else {
        step(walk(l, s, from, to - 1), s[to - 1])
    }
}

/// The end of the run of decimal digits that starts at `p`.
pub open spec fn digit_end(s: Seq<char>, p: int) -> int
    decreases s.len() - p,
{
    if p < 0 || p >= s.len() || !digit(s[p]) { p } else { digit_end(s, p + 1) }
}

/// The end of the run of alphanumeric characters that starts at `p`.
pub open spec fn name_end(s: Seq<char>, p: int) -> int
    decreases s.len() - p,
{
    if p < 0 || p >= s.len() || s[p] == '\0' || !alphanumeric(s[p]) { p } else { name_end(s, p + 1) }
}

/// The integer that the digits `s[lo..hi]` spell.
pub open spec fn digits_value(s: Seq<char>, lo: int, hi: int) -> int
    decreases hi - lo,
{
    if hi <= lo {
        0
    } else {
        digits_value(s, lo, hi - 1) * 10 + ((s[hi - 1] as u32) as int - 48)
    }
}

pub open spec fn pow10(k: nat) -> int
    decreases k,
{
    if k == 0 { 1 } else { 10 * pow10((k - 1) as nat) }
}

/// The end of the number that starts at `p`: digits, then optionally `.` and digits.
pub open spec fn number_end(s: Seq<char>, p: int) -> int {
    let i = digit_end(s, p);
    if char_at(s, i) == '.' { digit_end(s, i + 1) } else { i }
}

/// The exact value of the number that starts at `p`.
pub open spec fn number_value(s: Seq<char>, p: int) -> (int, int) {
    let i = digit_end(s, p);
    if char_at(s, i) == '.' {
        let j = digit_end(s, i + 1);
        let scale = pow10((j - i - 1) as nat);
        reduce(digits_value(s, p, i) * scale + digits_value(s, i + 1, j), scale)
    } else {
        (digits_value(s, p, i), 1)
    }
}

/// The end of the token that starts at `p`.
pub open spec fn token_end(s: Seq<char>, p: int) -> int {
    let c = char_at(s, p);
    if digit(c) {
        number_end(s, p)
    } else if c != '\0' && alphanumeric(c) {
        name_end(s, p)
    } else if c == '\0' {
        p
    } else {
        p + 1
    }
}

/// `r` is what lexing from the state `l` gives: the token (or bad character) that
/// starts after the whitespace, with its kind, value or text, and span.
pub open spec fn lexed(l: Lexer, r: Result<Token, LexerError>) -> bool {
    let s = l.source();
    let p0 = skip_white(s, l.position() as int);
    let c = char_at(s, p0);
    let e = token_end(s, p0);
    let start = walk(l.location(), s, l.position() as int, p0);
    let end = walk(l.location(), s, l.position() as int, e);
    match r {
        Ok(t) => {
            &&& token_kind_of(c) == Some(t.kind)
            &&& t.span.filepath@ == l.filepath()
            &&& t.span.start == start
            &&& t.span.end == end
            &&& match t.data {
                TokenData::Number(v) => t.kind == TokenKind::Number && v@ == number_value(s, p0),
                TokenData::String(n) => t.kind == TokenKind::Name && n@ == s.subrange(p0, e),
                TokenData::Empty => t.kind != TokenKind::Number && t.kind != TokenKind::Name,
            }
        },
        Err(LexerError::UnexpectedCharacter { span, character }) => {
            &&& token_kind_of(c) is None
            &&& character == c
            &&& span.filepath@ == l.filepath()
            &&& span.start == start
            &&& span.end == end
        },
    }
}

/// Turns source text into tokens.
pub struct Lexer {
    filepath: String,
    source: Vec<char>,
    position: usize,
    location: SourceLocation,
}

impl Lexer {
    /// The lexer is in a consistent state: its position is within the source and the
    /// line and column counters cannot overflow.
    pub closed spec fn wf(&self) -> bool {
        &&& self.position <= self.source.len()
        &&& self.source.len() < usize::MAX
        &&& 1 <= self.location.line <= self.position + 1
        &&& 1 <= self.location.column <= self.position + 1
    }

    pub closed spec fn filepath(&self) -> Seq<char> {
        self.filepath@
    }

    pub closed spec fn source(&self) -> Seq<char> {
        self.source@
    }

    pub closed spec fn position(&self) -> nat {
        self.position as nat
    }

    pub closed spec fn location(&self) -> SourceLocation {
        self.location
    }

    pub fn new(filepath: &str, source: &str) -> (r: Lexer)
        requires
            source@.len() < usize::MAX,
        ensures
            r.wf(),
            r.position() <= r.source().len(),
            r.filepath() == filepath@,
            r.source() == source@,
            r.position() == 0,
            r.location() == (SourceLocation { line: 1, column: 1 }),
    {
        Lexer {
            filepath: filepath.to_owned(),
            source: chars_of(source),
            position: 0,
            location: SourceLocation { line: 1, column: 1 },
        }
    }

    pub fn copy(&self) -> (r: Lexer)
        ensures
            r.wf() == self.wf(),
            r.filepath() == self.filepath(),
            r.source() == self.source(),
            r.position() == self.position(),
            r.location() == self.location(),
    {
        let source = self.source.clone();
        assert(source@ =~= self.source@);
        Lexer {
            filepath: self.filepath.clone(),
            source,
            position: self.position,
            location: self.location,
        }
    }

    /// The character at the current position, or `'\0'` at the end.
    pub fn peek_char(&self) -> (r: char)
        requires
            self.wf(),
        ensures
            r == (if self.position() < self.source().len() {
                self.source()[self.position() as int]
            } else {
                '\0'
            }),
    {
        if self.position < self.source.len() {
            self.source[self.position]
        } else {
            '\0'
        }
    }

    /// Consumes the current character, unless it is `'\0'`, and keeps the line and
    /// column of the position.
    pub fn next_char(&mut self) -> (r: char)
        requires
            old(self).wf(),
        ensures
            final(self).wf(),
            final(self).source() == old(self).source(),
            final(self).filepath() == old(self).filepath(),
            r == (if old(self).position() < old(self).source().len() {
                old(self).source()[old(self).position() as int]
            } else {
                '\0'
            }),
            final(self).position() == (if r != '\0' { old(self).position() + 1 } else { old(self).position() }),
            r != '\0' ==> final(self).location() == step(old(self).location(), r),
            r == '\0' ==> final(self).location() == old(self).location(),
    {
        let current = self.peek_char();
        if current != '\0' {
            self.position = self.position + 1;
            self.location.column = self.location.column + 1;
            if current == '\n' {
                self.location.line = self.location.line + 1;
                self.location.column = 1;
            }
        }
        current
    }

    /// Skips whitespace before a token.
    pub fn skip_whitespace(&mut self)
        requires
            old(self).wf(),
        ensures
            final(self).wf(),
            final(self).source() == old(self).source(),
            final(self).filepath() == old(self).filepath(),
            final(self).position() >= old(self).position(),
            final(self).position() == skip_white(old(self).source(), old(self).position() as int),
            final(self).location() == walk(
                old(self).location(),
                old(self).source(),
                old(self).position() as int,
                final(self).position() as int,
            ),
    {
        while self.position < self.source.len() && self.source[self.position] != '\0' && is_white(
            self.source[self.position],
        )
            invariant
                self.wf(),
                self.source() == old(self).source(),
                self.position() >= old(self).position(),
                self.filepath() == old(self).filepath(),
                self.location() == walk(old(self).location(), self.source(), old(self).position() as int, self.position() as int),
                skip_white(old(self).source(), old(self).position() as int) == skip_white(
                    self.source(),
                    self.position() as int,
                ),
            decreases self.source().len() - self.position(),
        {
            self.next_char();
        }
    }

    /// The token that `next_token` would return, without consuming it.
    pub fn peek_token(&self) -> (r: Result<Token, LexerError>)
        requires
            self.wf(),
        ensures
            lexed(*self, r),
    {
        let mut l = self.copy();
        l.next_token()
    }

    fn span_from(&self, start: SourceLocation) -> (r: SourceSpan)
        ensures
            r.filepath@ == self.filepath(),
            r.start == start,
            r.end == self.location(),
    {
        SourceSpan { filepath: self.filepath.clone(), start, end: self.location }
    }

    /// Reads the next token: a number, a name, or one of the one-character tokens.
    pub fn next_token(&mut self) -> (r: Result<Token, LexerError>)
        requires
            old(self).wf(),
        ensures
            final(self).wf(),
            final(self).source() == old(self).source(),
            final(self).filepath() == old(self).filepath(),
            final(self).position() >= old(self).position(),
            final(self).position() <= final(self).source().len(),
            final(self).position() == token_end(
                old(self).source(),
                skip_white(old(self).source(), old(self).position() as int),
            ),
            final(self).location() == walk(
                old(self).location(),
                old(self).source(),
                old(self).position() as int,
                final(self).position() as int,
            ),
            match r {
                Ok(t) => t.kind != TokenKind::EOF ==> final(self).position() > old(self).position(),
                Err(_) => final(self).position() > old(self).position(),
            },
            lexed(*old(self), r),
    {
        let ghost s = self.source();
        let ghost pos0 = self.position() as int;
        let ghost loc0 = self.location();
        self.skip_whitespace();
        let ghost p0 = self.position() as int;
        let start = self.location;
        let c = self.peek_char();
        if is_digit(c) {
            let ten = Rational::from_int(10);
            let mut value = Rational::from_int(0);
            let mut denominator = Rational::from_int(1);
            while self.position < self.source.len() && is_digit(self.source[self.position])
                invariant
                    self.wf(),
                    self.source() == s,
                    self.filepath() == old(self).filepath(),
                    p0 <= self.position(),
                    p0 >= pos0,
                    pos0 == old(self).position(),
                    self.position() == p0 ==> p0 < s.len() && digit(s[p0]),
                    digit_end(s, p0) == digit_end(s, self.position() as int),
                    self.location() == walk(loc0, s, pos0, self.position() as int),
                    value@ == (digits_value(s, p0, self.position() as int), 1int),
                    ten@ == (10int, 1int),
                decreases self.source().len() - self.position(),
            {
                let ghost p = self.position() as int;
                let d = self.next_char();
                let dv = Rational::from_int((d as u32 - '0' as u32) as i64);
                proof {
                    assert('0' as u32 == 48);
                    assert(d == s[p]);
                    assert(48 <= (d as u32) <= 57);
                    assert(dv@.0 == (s[p] as u32) as int - 48);
                    assert((value@.0 * 10) * 1 == value@.0 * 10 && dv@.0 * 1 == dv@.0 && value@.0 * 10 == value@.0 * 10 * 1);
                    lemma_reduce_integer(value@.0 * 10);
                    lemma_reduce_integer(value@.0 * 10 + dv@.0);
                    assert(digits_value(s, p0, p + 1) == digits_value(s, p0, p) * 10 + ((s[p] as u32) as int - 48));
                }
                let m = value.mul(&ten);
                proof {
                    lemma_reduce_integer(value@.0 * 10);
                    assert(value@.1 == 1);
                    assert(ten@.1 == 1);
                    assert(value@.1 * ten@.1 == 1);
                    assert(value@.0 * ten@.0 == value@.0 * 10);
                    assert(product(value@, ten@) == reduce(value@.0 * 10, 1));
                }
                assert(m@ == (value@.0 * 10, 1int));
                let n = m.add(&dv);
                proof {
                    assert(m@.0 * dv@.1 + dv@.0 * m@.1 == value@.0 * 10 + dv@.0);
                    assert(m@.1 * dv@.1 == 1);
                }
                assert(n@ == (value@.0 * 10 + dv@.0, 1int));
                value = n;
            }
            let ghost i = self.position() as int;
            if self.position < self.source.len() && self.source[self.position] == '.' {
                self.next_char();
                proof {
                    assert(value@.0 * pow10(0) + digits_value(s, i + 1, i + 1) == value@.0);
                }
                while self.position < self.source.len() && is_digit(self.source[self.position])
                    invariant
                        self.wf(),
                        self.source() == s,
                        self.filepath() == old(self).filepath(),
                        p0 < i < self.position(),
                        p0 >= pos0,
                        pos0 == old(self).position(),
                        i == digit_end(s, p0),
                        char_at(s, i) == '.',
                        digit_end(s, i + 1) == digit_end(s, self.position() as int),
                        self.location() == walk(loc0, s, pos0, self.position() as int),
                        value@ == (digits_value(s, p0, i) * pow10((self.position() - i - 1) as nat)
                            + digits_value(s, i + 1, self.position() as int), 1int),
                        denominator@ == (pow10((self.position() - i - 1) as nat), 1int),
                        ten@ == (10int, 1int),
                    decreases self.source().len() - self.position(),
                {
                    let ghost p = self.position() as int;
                    let d = self.next_char();
                    let dv = Rational::from_int((d as u32 - '0' as u32) as i64);
                    proof {
                        assert('0' as u32 == 48);
                        assert(d == s[p]);
                        assert(48 <= (d as u32) <= 57);
                        assert(dv@.0 == (s[p] as u32) as int - 48);
                        assert((value@.0 * 10) * 1 == value@.0 * 10 && dv@.0 * 1 == dv@.0);
                        let k = (p - i - 1) as nat;
                        let a = digits_value(s, p0, i);
                        let b = digits_value(s, i + 1, p);
                        let q = pow10(k);
                        assert(pow10((k + 1) as nat) == 10 * q);
                        assert((a * q + b) * 10 + dv@.0 == a * (10 * q) + (b * 10 + dv@.0)) by (nonlinear_arith);
                        assert(digits_value(s, i + 1, p + 1) == b * 10 + ((s[p] as u32) as int - 48));
                        lemma_reduce_integer(q * 10);
                        lemma_reduce_integer(value@.0 * 10);
                        lemma_reduce_integer(value@.0 * 10 + dv@.0);
                        assert(q * 10 == 10 * q);
                    }
                    denominator = denominator.mul(&ten);
                    let m = value.mul(&ten);
                    proof {
                        lemma_reduce_integer(value@.0 * 10);
                        assert(value@.1 * ten@.1 == 1);
                        assert(value@.0 * ten@.0 == value@.0 * 10);
                        assert(product(value@, ten@) == reduce(value@.0 * 10, 1));
                    }
                    assert(m@ == (value@.0 * 10, 1int));
                    let n = m.add(&dv);
                    proof {
                        assert(m@.0 * dv@.1 + dv@.0 * m@.1 == value@.0 * 10 + dv@.0);
                        assert(m@.1 * dv@.1 == 1);
                    }
                    assert(n@ == (value@.0 * 10 + dv@.0, 1int));
                    value = n;
                }
                proof {
                    let q = pow10((self.position() - i - 1) as nat);
                    lemma_pow10_positive((self.position() - i - 1) as nat);
                    assert(value@.0 * 1 == value@.0 && 1 * q == q);
                }
            } else {
                proof {
                    lemma_reduce_integer(value@.0);
                    assert(pow10(0) == 1);
                    assert(value@.0 * 1 == value@.0 && 1int * 1 == 1);
                }
            }
            let number = value.div(&denominator);
            Ok(Token {
                kind: TokenKind::Number,
                data: TokenData::Number(number),
                span: self.span_from(start),
            })
        } else if c != '\0' && is_alphanumeric(c) {
            let mut name: Vec<char> = Vec::new();
            while self.position < self.source.len() && self.source[self.position] != '\0'
                && is_alphanumeric(self.source[self.position])
                invariant
                    self.wf(),
                    self.source() == s,
                    self.filepath() == old(self).filepath(),
                    p0 <= self.position(),
                    p0 >= pos0,
                    pos0 == old(self).position(),
                    self.position() == p0 ==> p0 < s.len() && c == s[p0] && alphanumeric(c),
                    name_end(s, p0) == name_end(s, self.position() as int),
                    self.location() == walk(loc0, s, pos0, self.position() as int),
                    name@ == s.subrange(p0, self.position() as int),
                decreases self.source().len() - self.position(),
            {
                let ch = self.next_char();
                name.push(ch);
                assert(name@ =~= s.subrange(p0, self.position() as int));
            }
            Ok(Token {
                kind: TokenKind::Name,
                data: TokenData::String(string_of(&name)),
                span: self.span_from(start),
            })
        } else {
            let chr = self.next_char();
            match single_char_token(chr) {
                Some(kind) => Ok(Token { kind, data: TokenData::Empty, span: self.span_from(start) }),
                None => Err(LexerError::UnexpectedCharacter { span: self.span_from(start), character: chr }),
            }
        }
    }
}

proof fn lemma_pow10_positive(k: nat)
    ensures
        pow10(k) >= 1,
    decreases k,
{
    if k > 0 {
        lemma_pow10_positive((k - 1) as nat);
    }
}

} // verus!
