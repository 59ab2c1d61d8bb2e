use crate::error::EvaluationError;
use crate::lexer::{lex, CharPolicy, Lexer};
use crate::token::{priority, Token};
use vstd::prelude::*;

verus! {

/// A binary arithmetic operator.
#[derive(Debug, Clone, Copy, PartialEq, Eq, Structural)]
pub enum Operator {
    Add,
    Sub,
    Multi,
    Div,
}

/// The operator that a token stands for, if it is one.
pub open spec fn operator_of(t: Token) -> Option<Operator> {
    match t {
        Token::Plus => Some(Operator::Add),
        Token::Minus => Some(Operator::Sub),
        Token::Star => Some(Operator::Multi),
        Token::Slash => Some(Operator::Div),
        Token::Number(_) => None,
    }
}

impl Operator {
    pub fn from_token(t: Token) -> (r: Option<Operator>)
        ensures
            r == operator_of(t),
    {
        match t {
            Token::Plus => Some(Operator::Add),
            Token::Minus => Some(Operator::Sub),
            Token::Star => Some(Operator::Multi),
            Token::Slash => Some(Operator::Div),
            Token::Number(_) => None,
        }
    }
}

/// An expression tree: a literal, or an operator over two subtrees.
#[derive(Debug, PartialEq, Eq)]
pub enum Node {
    Number(usize),
    BinaryExpr { op: Operator, left: Box<Node>, right: Box<Node> },
}

/// The precedence level tried in round `k` (0 to 3) of a scan that starts at
/// level `start` and wraps from 4 back to 1.
pub open spec fn level_order(start: int, k: int) -> int {
    if start + k > 4 {
        start + k - 4
    } else {
        start + k
    }
}

/// The index of the first token of level `p` in `s`, or `s.len()` if none.
pub open spec fn first_index(s: Seq<Token>, p: int) -> nat
    decreases s.len(),
{
    if s.len() == 0 {
        0
    } else if priority(s[0]) == p {
        0
    } else {
        1 + first_index(s.drop_first(), p)
    }
}

/// The first level, in the wrapping order from `start` (rounds `k` to 3),
/// at which `s` holds an operator.
pub open spec fn split_level(s: Seq<Token>, start: int, k: int) -> Option<int>
    decreases 4 - k,
{
    if k >= 4 {
        None
    } else if first_index(s, level_order(start, k)) < s.len() {
        Some(level_order(start, k))
    } else {
        split_level(s, start, k + 1)
    }
}

/// The level a scan starts at: the given one when it is 1 to 4, else 1.
pub open spec fn start_level(p: Option<i64>) -> int {
    match p {
        Some(v) => if 1 <= v <= 4 {
            v as int
        } else {
            1
        },
        None => 1,
    }
}

/// The tree of `s`: split at the first operator of the first level (from
/// `start`, wrapping) that occurs, and build both sides from that level; a
/// lone literal is a leaf; anything else has no tree.
pub open spec fn build(s: Seq<Token>, start: int) -> Option<Node>
    decreases s.len(),
{
    match split_level(s, start, 0) {
        Some(p) => {
            proof {
                lemma_split_level_found(s, start, 0);
                lemma_first_index_props(s, p);
            }
            let i = first_index(s, p) as int;
            match (operator_of(s[i]), build(s.take(i), p), build(s.skip(i + 1), p)) {
                (Some(op), Some(l), Some(r)) => Some(
                    Node::BinaryExpr { op, left: Box::new(l), right: Box::new(r) },
                ),
                _ => None,
            }
        },
        None => if s.len() == 1 && s[0] is Number {
            Some(Node::Number(s[0]->0))
        } else {
            None
        },
    }
}

pub proof fn lemma_first_index_props(s: Seq<Token>, p: int)
    ensures
        first_index(s, p) <= s.len(),
        forall|j: int| 0 <= j < first_index(s, p) ==> priority(#[trigger] s[j]) != p,
        first_index(s, p) < s.len() ==> priority(s[first_index(s, p) as int]) == p,
    decreases s.len(),
{
    if s.len() > 0 && priority(s[0]) != p {
        let t = s.drop_first();
        lemma_first_index_props(t, p);
        assert forall|j: int| 0 <= j < first_index(s, p) implies priority(#[trigger] s[j]) != p by {
            if j > 0 {
                assert(s[j] == t[j - 1]);
            }
        }
        if first_index(s, p) < s.len() {
            assert(s[first_index(s, p) as int] == t[first_index(t, p) as int]);
        }
    }
}

pub proof fn lemma_split_level_found(s: Seq<Token>, start: int, k: int)
    ensures
        split_level(s, start, k) matches Some(p) ==> first_index(s, p) < s.len(),
    decreases 4 - k,
{
    if k < 4 && first_index(s, level_order(start, k)) >= s.len() {
        lemma_split_level_found(s, start, k + 1);
    }
}

/// 64-bit range.
pub open spec fn in_i64(x: int) -> bool {
    i64::MIN <= x <= i64::MAX
}

/// Integer division rounding toward zero.
pub open spec fn trunc_div(a: int, b: int) -> int {
    let q: int = (vstd::math::abs(a) / vstd::math::abs(b)) as int;
    if (a < 0) == (b < 0) {
        q
    } else {
        -q
    }
}

/// One operator applied under 64-bit arithmetic: `None` on a zero divisor
/// or a result outside `i64`.
pub open spec fn apply(op: Operator, a: int, b: int) -> Option<int> {
    let v = match op {
        Operator::Add => a + b,
        Operator::Sub => a - b,
        Operator::Multi => a * b,
        Operator::Div => if b == 0 {
            0
        } else {
            trunc_div(a, b)
        },
    };
    if (op == Operator::Div && b == 0) || !in_i64(v) {
        None
    } else {
        Some(v)
    }
}

/// The value of a tree under 64-bit arithmetic: `None` when a literal or
/// an intermediate result lies outside `i64`, or a divisor is zero.
pub open spec fn value(n: Node) -> Option<int>
    decreases n,
{
    match n {
        Node::Number(v) => if v <= i64::MAX {
            Some(v as int)
        } else {
            None
        },
        Node::BinaryExpr { op, left, right } => match (value(*left), value(*right)) {
            (Some(a), Some(b)) => apply(op, a, b),
            _ => None,
        },
    }
}

/// The result of evaluating `s`: its tokens, their tree from level 1, and
/// the tree's value, each stage with its own error.
pub open spec fn evaluate(s: Seq<char>, policy: CharPolicy) -> Result<int, EvaluationError> {
    match lex(s, policy) {
        None => Err(EvaluationError::LexicalError),
        Some(ts) => match build(ts, 1) {
            None => Err(EvaluationError::StructuralError),
            Some(t) => match value(t) {
                Some(v) => Ok(v),
                None => Err(EvaluationError::ArithmeticError),
            },
        },
    }
}

/// The decimal digit character of `d` (0 to 9).
pub open spec fn digit_char(d: nat) -> char {
    seq!['0', '1', '2', '3', '4', '5', '6', '7', '8', '9'][d as int]
}

/// The decimal form of `v`, without leading zeros.
pub open spec fn decimal(v: nat) -> Seq<char>
    decreases v,
{
    if v < 10 {
        seq![digit_char(v)]
    } else {
        decimal(v / 10) + seq![digit_char(v % 10)]
    }
}

/// The character that writes an operator.
pub open spec fn symbol_of(op: Operator) -> char {
    match op {
        Operator::Add => '+',
        Operator::Sub => '-',
        Operator::Multi => '*',
        Operator::Div => '/',
    }
}

/// A tree written out with every operation in parentheses:
/// `(left op right)`, literals in decimal.
pub open spec fn render(n: Node) -> Seq<char>
    decreases n,
{
    match n {
        Node::Number(v) => decimal(v as nat),
        Node::BinaryExpr { op, left, right } => seq!['('] + render(*left) + seq![
            ' ',
            symbol_of(op),
            ' ',
        ] + render(*right) + seq![')'],
    }
}

/// Evaluates expressions over `+ - * /` and non-negative literals.
pub struct MathParser {}

impl MathParser {
    /// The value of `input`, dropping characters outside the alphabet.
    pub fn parse(input: &str) -> (r: Result<i64, EvaluationError>)
        ensures
            match r {
                Ok(v) => evaluate(input@, CharPolicy::Skip) == Ok::<int, EvaluationError>(v as int),
                Err(e) => evaluate(input@, CharPolicy::Skip) == Err::<int, EvaluationError>(e),
            },
    {
        Self::parse_with_policy(input, CharPolicy::Skip)
    }

    /// The value of `input` under the given policy for unknown characters.
    pub fn parse_with_policy(input: &str, policy: CharPolicy) -> (r: Result<i64, EvaluationError>)
        ensures
            match r {
                Ok(v) => evaluate(input@, policy) == Ok::<int, EvaluationError>(v as int),
                Err(e) => evaluate(input@, policy) == Err::<int, EvaluationError>(e),
            },
    {
        let tokens = match Lexer::tokenize(input, policy) {
            Ok(ts) => ts,
            Err(e) => {
                return Err(e);
            },
        };
        let ast = match Self::build_ast(tokens, None) {
            Ok(t) => t,
            Err(e) => {
                return Err(e);
            },
        };
        Self::eval(&ast)
    }

    /// The precedence level of a token (0 for a literal).
    pub fn token_priority(token: &Token) -> (r: i64)
        ensures
            r == priority(*token),
    {
        match token {
            Token::Plus => 1,
            Token::Minus => 2,
            Token::Star => 3,
            Token::Slash => 4,
            Token::Number(_) => 0,
        }
    }

    /// The tree written out with every operation in parentheses.
    pub fn ast_to_source_with_params(ast: &Node) -> (r: String)
        ensures
            r@ == render(*ast),
    {
        let mut out = String::new();
        render_into(&mut out, ast);
        proof {
            assert(out@ =~= render(*ast));
        }
        out
    }

    /// The tree of `tokens`, scanning levels from `priority` (1 when absent
    /// or outside 1 to 4).
    pub fn build_ast(tokens: Vec<Token>, priority: Option<i64>) -> (r: Result<Node, EvaluationError>)
        ensures
            match r {
                Ok(n) => build(tokens@, start_level(priority)) == Some(n),
                Err(e) => e == EvaluationError::StructuralError && build(
                    tokens@,
                    start_level(priority),
                ) is None,
            },
    {
        let start: i64 = match priority {
            Some(v) => if 1 <= v && v <= 4 {
                v
            } else {
                1
            },
            None => 1,
        };
        proof {
            assert(tokens@.subrange(0, tokens@.len() as int) =~= tokens@);
        }
        match build_range(&tokens, 0, tokens.len(), start) {
            Some(n) => Ok(n),
            None => Err(EvaluationError::StructuralError),
        }
    }

    /// The value of a tree under 64-bit arithmetic.
    pub fn eval(node: &Node) -> (r: Result<i64, EvaluationError>)
        ensures
            match r {
                Ok(v) => value(*node) == Some(v as int),
                Err(e) => e == EvaluationError::ArithmeticError && value(*node) is None,
            },
        decreases node,
    {
        match node {
            Node::Number(v) => {
                let w = *v as u64;
                if w <= i64::MAX as u64 {
                    Ok(w as i64)
                } else {
                    Err(EvaluationError::ArithmeticError)
                }
            },
            Node::BinaryExpr { op, left, right } => {
                let a = match Self::eval(left) {
                    Ok(a) => a,
                    Err(e) => {
                        return Err(e);
                    },
                };
                let b = match Self::eval(right) {
                    Ok(b) => b,
                    Err(e) => {
                        return Err(e);
                    },
                };
                let v = match op {
                    Operator::Add => a.checked_add(b),
                    Operator::Sub => a.checked_sub(b),
                    Operator::Multi => a.checked_mul(b),
                    Operator::Div => if b == 0 {
                        None
                    } else {
                        a.checked_div(b)
                    },
                };
                match v {
                    Some(v) => Ok(v),
                    None => Err(EvaluationError::ArithmeticError),
                }
            },
        }
    }
}

fn digit_str(d: usize) -> (r: &'static str)
    requires
        d < 10,
    ensures
        r@ == seq![digit_char(d as nat)],
{
    proof {
        reveal_strlit("0");
        reveal_strlit("1");
        reveal_strlit("2");
        reveal_strlit("3");
        reveal_strlit("4");
        reveal_strlit("5");
        reveal_strlit("6");
        reveal_strlit("7");
        reveal_strlit("8");
        reveal_strlit("9");
    }
    let r = if d == 0 {
        "0"
    } else if d == 1 {
        "1"
    } else if d == 2 {
        "2"
    } else if d == 3 {
        "3"
    } else if d == 4 {
        "4"
    } else if d == 5 {
        "5"
    } else if d == 6 {
        "6"
    } else if d == 7 {
        "7"
    } else if d == 8 {
        "8"
    } else {
        "9"
    };
    proof {
        assert(r@ =~= seq![digit_char(d as nat)]);
    }
    r
}

fn symbol_str(op: Operator) -> (r: &'static str)
    ensures
        r@ == seq![' ', symbol_of(op), ' '],
{
    proof {
        reveal_strlit(" + ");
        reveal_strlit(" - ");
        reveal_strlit(" * ");
        reveal_strlit(" / ");
    }
    let r = match op {
        Operator::Add => " + ",
        Operator::Sub => " - ",
        Operator::Multi => " * ",
        Operator::Div => " / ",
    };
    proof {
        assert(r@ =~= seq![' ', symbol_of(op), ' ']);
    }
    r
}

fn push_decimal(out: &mut String, v: usize)
    ensures
        final(out)@ == old(out)@ + decimal(v as nat),
    decreases v,
{
    if v >= 10 {
        push_decimal(out, v / 10);
    }
    out.append(digit_str(v % 10));
    proof {
        assert(out@ =~= old(out)@ + decimal(v as nat));
    }
}

fn render_into(out: &mut String, ast: &Node)
    ensures
        final(out)@ == old(out)@ + render(*ast),
    decreases ast,
{
    match ast {
        Node::Number(v) => push_decimal(out, *v),
        Node::BinaryExpr { op, left, right } => {
            proof {
                reveal_strlit("(");
                reveal_strlit(")");
            }
            out.append("(");
            render_into(out, left);
            out.append(symbol_str(*op));
            render_into(out, right);
            out.append(")");
            proof {
                assert(out@ =~= old(out)@ + render(*ast));
            }
        },
    }
}

/// The first index in `lo..hi` holding a token of level `p`, or `hi`.
fn find_first(tokens: &Vec<Token>, lo: usize, hi: usize, p: i64) -> (r: usize)
    requires
        lo <= hi <= tokens.len(),
    ensures
        r - lo == first_index(tokens@.subrange(lo as int, hi as int), p as int),
{
    let mut i = lo;
    while i < hi && MathParser::token_priority(&tokens[i]) != p
        invariant
            lo <= i <= hi <= tokens.len(),
            first_index(tokens@.subrange(lo as int, hi as int), p as int) == (i - lo)
                + first_index(tokens@.subrange(i as int, hi as int), p as int),
        decreases hi - i,
    {
        proof {
            assert(tokens@.subrange(i as int, hi as int).drop_first() =~= tokens@.subrange(
                i + 1,
                hi as int,
            ));
        }
        i = i + 1;
    }
    i
}

/// The tree of `tokens[lo..hi]`, scanning levels from `start`.
fn build_range(tokens: &Vec<Token>, lo: usize, hi: usize, start: i64) -> (r: Option<Node>)
    requires
        lo <= hi <= tokens.len(),
        1 <= start <= 4,
    ensures
        r == build(tokens@.subrange(lo as int, hi as int), start as int),
    decreases hi - lo,
{
    let ghost s = tokens@.subrange(lo as int, hi as int);
    let mut k: i64 = 0;
    while k < 4
        invariant
            0 <= k <= 4,
            1 <= start <= 4,
            lo <= hi <= tokens.len(),
            s == tokens@.subrange(lo as int, hi as int),
            split_level(s, start as int, 0) == split_level(s, start as int, k as int),
        decreases 4 - k,
    {
        let level: i64 = if start + k > 4 {
            start + k - 4
        } else {
            start + k
        };
        let i = find_first(tokens, lo, hi, level);
        if i < hi {
            proof {
                lemma_first_index_props(s, level as int);
                assert(s[i - lo] == tokens@[i as int]);
                assert(s.take(i - lo) =~= tokens@.subrange(lo as int, i as int));
                assert(s.skip(i - lo + 1) =~= tokens@.subrange(i + 1, hi as int));
            }
            let op = Operator::from_token(tokens[i]);
            let left = build_range(tokens, lo, i, level);
            let right = build_range(tokens, i + 1, hi, level);
            return match (op, left, right) {
                (Some(op), Some(l), Some(r)) => Some(
                    Node::BinaryExpr { op, left: Box::new(l), right: Box::new(r) },
                ),
                _ => None,
            };
        }
        k = k + 1;
    }
    if hi - lo == 1 {
        match tokens[lo] {
            Token::Number(n) => {
                return Some(Node::Number(n));
            },
            _ => {},
        }
    }
    None
}

} // verus!
