use crate::lexer::{
    digits_value, is_digit, lemma_lex_concat, lemma_lex_digits, lex, CharPolicy,
};
use crate::parser::{
    build, decimal, digit_char, evaluate, first_index, lemma_first_index_props,
    lemma_split_level_found, operator_of, render, split_level, symbol_of, Node, Operator,
};
use crate::token::Token;
use vstd::prelude::*;

verus! {

/// The token that writes an operator.
pub open spec fn token_of(op: Operator) -> Token {
    match op {
        Operator::Add => Token::Plus,
        Operator::Sub => Token::Minus,
        Operator::Multi => Token::Star,
        Operator::Div => Token::Slash,
    }
}

/// The tokens of a tree, read left to right.
pub open spec fn flatten(n: Node) -> Seq<Token>
    decreases n,
{
    match n {
        Node::Number(v) => seq![Token::Number(v)],
        Node::BinaryExpr { op, left, right } => flatten(*left) + seq![token_of(op)] + flatten(
            *right,
        ),
    }
}

/// The decimal form of a number is a non-empty run of digits that denotes it.
pub proof fn lemma_decimal(v: nat)
    ensures
        decimal(v).len() > 0,
        forall|j: int| 0 <= j < decimal(v).len() ==> is_digit(#[trigger] decimal(v)[j]),
        digits_value(decimal(v)) == v,
    decreases v,
{
    let digits = seq!['0', '1', '2', '3', '4', '5', '6', '7', '8', '9'];
    assert(digits[0] == '0' && digits[1] == '1' && digits[2] == '2' && digits[3] == '3'
        && digits[4] == '4' && digits[5] == '5' && digits[6] == '6' && digits[7] == '7'
        && digits[8] == '8' && digits[9] == '9');
    let d = v % 10;
    assert(is_digit(digit_char(d)) && crate::lexer::digit_value(digit_char(d)) == d);
    if v < 10 {
        assert(decimal(v).drop_last() =~= Seq::<char>::empty());
        reveal_with_fuel(digits_value, 2);
    } else {
        lemma_decimal(v / 10);
        let head = decimal(v / 10);
        assert(decimal(v).drop_last() =~= head);
        assert(decimal(v).last() == digit_char(d));
        assert forall|j: int| 0 <= j < decimal(v).len() implies is_digit(#[trigger] decimal(v)[j]) by {
            if j < head.len() {
                assert(decimal(v)[j] == head[j]);
            }
        }
    }
}

/// The decimal form of a `usize`, alone, is one literal holding it.
pub proof fn lemma_lex_decimal(v: usize, policy: CharPolicy)
    ensures
        lex(decimal(v as nat), policy) == Some(seq![Token::Number(v)]),
{
    lemma_decimal(v as nat);
    lemma_lex_digits(decimal(v as nat), policy);
}

/// Tokenizing two literals joined by `+` gives the first literal, `Plus`
/// and the second literal, with or without spaces around the operator.
pub proof fn lemma_lex_sum(a: usize, b: usize, policy: CharPolicy)
    ensures
        lex(decimal(a as nat) + seq![' ', '+', ' '] + decimal(b as nat), policy) == Some(
            seq![Token::Number(a), Token::Plus, Token::Number(b)],
        ),
        lex(decimal(a as nat) + seq!['+'] + decimal(b as nat), policy) == Some(
            seq![Token::Number(a), Token::Plus, Token::Number(b)],
        ),
{
    let da = decimal(a as nat);
    let db = decimal(b as nat);
    lemma_lex_decimal(a, policy);
    lemma_lex_decimal(b, policy);
    let expected = seq![Token::Number(a), Token::Plus, Token::Number(b)];

    let spaced = seq![' ', '+', ' '];
    assert(spaced.drop_first() =~= seq!['+', ' ']);
    assert(seq!['+', ' '].drop_first() =~= seq![' ']);
    assert(seq![' '].drop_first() =~= Seq::<char>::empty());
    assert(lex(Seq::<char>::empty(), policy) == Some(Seq::<Token>::empty()));
    assert(!is_digit(' ') && !is_digit('+'));
    assert(lex(seq![' '], policy) == Some(Seq::<Token>::empty()));
    assert(seq![Token::Plus] + Seq::<Token>::empty() =~= seq![Token::Plus]);
    assert(lex(seq!['+', ' '], policy) == Some(seq![Token::Plus]));
    assert(lex(spaced, policy) == Some(seq![Token::Plus]));
    lemma_lex_concat(da, spaced, policy);
    lemma_lex_concat(da + spaced, db, policy);
    assert(seq![Token::Number(a)] + seq![Token::Plus] + seq![Token::Number(b)] =~= expected);

    let plain = seq!['+'];
    assert(plain.drop_first() =~= Seq::<char>::empty());
    assert(lex(plain, policy) == Some(seq![Token::Plus]));
    lemma_lex_concat(da, plain, policy);
    lemma_lex_concat(da + plain, db, policy);
}

/// A built tree holds exactly the tokens it was built from, in order.
pub proof fn lemma_build_flatten(s: Seq<Token>, start: int)
    ensures
        build(s, start) matches Some(t) ==> flatten(t) == s,
    decreases s.len(),
{
    if let Some(p) = split_level(s, start, 0) {
        lemma_split_level_found(s, start, 0);
        lemma_first_index_props(s, p);
        let i = first_index(s, p) as int;
        lemma_build_flatten(s.take(i), p);
        lemma_build_flatten(s.skip(i + 1), p);
        if let Some(op) = operator_of(s[i]) {
            assert(token_of(op) == s[i]);
            assert(s.take(i) + seq![s[i]] + s.skip(i + 1) =~= s);
        }
    } else if s.len() == 1 {
        assert(seq![s[0]] =~= s);
    }
}

/// Tokenizing a rendered tree, dropping the parentheses, gives back the
/// tree's tokens.
pub proof fn lemma_lex_render(t: Node)
    ensures
        lex(render(t), CharPolicy::Skip) == Some(flatten(t)),
    decreases t,
{
    let policy = CharPolicy::Skip;
    match t {
        Node::Number(v) => {
            lemma_lex_decimal(v, policy);
        },
        Node::BinaryExpr { op, left, right } => {
            lemma_lex_render(*left);
            lemma_lex_render(*right);
            let open = seq!['('];
            let close = seq![')'];
            let mid = seq![' ', symbol_of(op), ' '];
            assert(open.drop_first() =~= Seq::<char>::empty());
            assert(lex(Seq::<char>::empty(), policy) == Some(Seq::<Token>::empty()));
            assert(!is_digit('(') && !is_digit(')') && !is_digit(' '));
            assert(!is_digit(symbol_of(op)));
            assert(close.drop_first() =~= Seq::<char>::empty());
            assert(lex(open, policy) == Some(Seq::<Token>::empty()));
            assert(lex(close, policy) == Some(Seq::<Token>::empty()));
            assert(mid.drop_first() =~= seq![symbol_of(op), ' ']);
            assert(seq![symbol_of(op), ' '].drop_first() =~= seq![' ']);
            assert(seq![' '].drop_first() =~= Seq::<char>::empty());
            assert(lex(seq![' '], policy) == Some(Seq::<Token>::empty()));
            assert(seq![token_of(op)] + Seq::<Token>::empty() =~= seq![token_of(op)]);
            assert(lex(seq![symbol_of(op), ' '], policy) == Some(seq![token_of(op)]));
            assert(lex(mid, policy) == Some(seq![token_of(op)]));
            let rl = render(*left);
            let rr = render(*right);
            lemma_lex_concat(open, rl, policy);
            lemma_lex_concat(open + rl, mid, policy);
            lemma_lex_concat(open + rl + mid, rr, policy);
            lemma_lex_concat(open + rl + mid + rr, close, policy);
            assert(render(t) == open + rl + mid + rr + close);
            assert(Seq::<Token>::empty() + flatten(*left) + seq![token_of(op)] + flatten(*right)
                + Seq::<Token>::empty() =~= flatten(t));
        },
    }
}

/// Writing a built tree out with every operation in parentheses and
/// evaluating that text (parentheses dropped) gives the same result as
/// evaluating the text the tree was built from.
pub proof fn lemma_round_trip(s: Seq<char>, policy: CharPolicy)
    requires
        lex(s, policy) matches Some(ts) && build(ts, 1) is Some,
    ensures
        evaluate(render(build(lex(s, policy)->0, 1)->0), CharPolicy::Skip) == evaluate(s, policy),
{
    let ts = lex(s, policy)->0;
    let t = build(ts, 1)->0;
    lemma_build_flatten(ts, 1);
    lemma_lex_render(t);
}

} // verus!
