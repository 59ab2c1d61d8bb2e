use vstd::prelude::*;

verus! {

/// A lexical unit of an expression.
#[derive(Debug, Clone, Copy, PartialEq, Eq, Structural)]
pub enum Token {
    Plus,
    Minus,
    Star,
    Slash,
    Number(usize),
}

/// The binding level of a token: the operators rank `+` = 1, `-` = 2,
/// `*` = 3, `/` = 4; a literal has level 0.
///
/// This ladder is not the usual one: `-` ranks above `+` and `/` above `*`,
/// so `1 - 2 + 3` is `(1 - 2) + 3` but `8 - 2 - 3` is `8 - (2 - 3)`.
pub open spec fn priority(t: Token) -> int {
    match t {
        Token::Plus => 1,
        Token::Minus => 2,
        Token::Star => 3,
        Token::Slash => 4,
        Token::Number(_) => 0,
    }
}

} // verus!
