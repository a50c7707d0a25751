mod equation;
mod eval;
mod lexer;
mod order;
mod grammar;
mod parsing;
mod rational;
mod render;
mod simplify;
mod solve;

pub use equation::{Atom, AtomV, Equation, Expression, Term};
pub use eval::{EvalError, eval_atom, eval_expression, eval_term};
pub use rational::Rational;
pub use simplify::{simplify_atom, simplify_expression};
pub use solve::{MAX_PASSES, SolveError, simplify, simplify_equation};
pub use lexer::{Lexer, LexerError, SourceLocation, SourceSpan, Token, TokenData, TokenKind};
pub use parsing::{ParsingError, parse_equation, parse_term};
pub use render::{MAX_DECIMALS, decimal_text_of};
