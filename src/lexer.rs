use crate::error::EvaluationError;
use crate::token::Token;
use vstd::prelude::*;
use vstd::string::StrSliceExecFns;

verus! {

/// What the tokenizer does with a character outside the expression alphabet
/// (digits, `+ - * /` and whitespace).
#[derive(Debug, Clone, Copy, PartialEq, Eq, Structural)]
pub enum CharPolicy {
    /// Drop the character and go on.
    Skip,
    /// Stop with a lexical error.
    Reject,
}

pub open spec fn is_digit(c: char) -> bool {
    48 <= (c as u32) && (c as u32) <= 57
}

pub open spec fn is_space(c: char) -> bool {
    c == ' ' || c == '\t' || c == '\n' || c == '\r'
}

pub open spec fn digit_value(c: char) -> nat {
    ((c as u32) - 48) as nat
}

/// The operator token that a character stands for, if any.
pub open spec fn operator_token(c: char) -> Option<Token> {
    if c == '+' {
        Some(Token::Plus)
    } else if c == '-' {
        Some(Token::Minus)
    } else if c == '*' {
        Some(Token::Star)
    } else if c == '/' {
        Some(Token::Slash)
    } else {
        None
    }
}

/// The number that a sequence of decimal digits denotes.
pub open spec fn digits_value(s: Seq<char>) -> nat
    decreases s.len(),
{
    if s.len() == 0 {
        0
    } else {
        digits_value(s.drop_last()) * 10 + digit_value(s.last())
    }
}

/// The length of the run of digits at the start of `s`.
pub open spec fn run_len(s: Seq<char>) -> nat
    decreases s.len(),
{
    if s.len() > 0 && is_digit(s[0]) {
        1 + run_len(s.drop_first())
    } else {
        0
    }
}

pub open spec fn prepend(t: Token, rest: Option<Seq<Token>>) -> Option<Seq<Token>> {
    match rest {
        Some(ts) => Some(seq![t] + ts),
        None => None,
    }
}

/// The tokens of `s`, read left to right: whitespace is dropped, each
/// operator character gives its token, and a maximal run of digits gives one
/// literal. `None` when a literal exceeds `usize::MAX`, or when the policy
/// rejects a character outside the alphabet.
pub open spec fn lex(s: Seq<char>, policy: CharPolicy) -> Option<Seq<Token>>
    decreases s.len(),
{
    if s.len() == 0 {
        Some(seq![])
    } else if is_digit(s[0]) {
        proof {
            lemma_run_len_bounds(s);
        }
        let n = run_len(s) as int;
        let v = digits_value(s.take(n));
        if v > usize::MAX {
            None
        } else {
            prepend(Token::Number(v as usize), lex(s.skip(n), policy))
        }
    } else if operator_token(s[0]) is Some {
        prepend(operator_token(s[0])->0, lex(s.drop_first(), policy))
    } else if is_space(s[0]) || policy == CharPolicy::Skip {
        lex(s.drop_first(), policy)
    } else {
        None
    }
}

/// One step of the tokenizer on `s`: the token found (`None` when only
/// skipped characters remain) and how many characters it takes, the skipped
/// ones before it included. It looks no further than the end of that token.
/// `None` when the token is a literal that exceeds `usize::MAX`, or when the
/// policy rejects the first character that is not skipped.
pub open spec fn step(s: Seq<char>, policy: CharPolicy) -> Option<(Option<Token>, nat)>
    decreases s.len(),
{
    if s.len() == 0 {
        Some((None, 0))
    } else if is_digit(s[0]) {
        let n = run_len(s);
        let v = digits_value(s.take(n as int));
        if v > usize::MAX {
            None
        } else {
            Some((Some(Token::Number(v as usize)), n))
        }
    } else if operator_token(s[0]) is Some {
        Some((operator_token(s[0]), 1))
    } else if is_space(s[0]) || policy == CharPolicy::Skip {
        shift(step(s.drop_first(), policy), 1)
    } else {
        None
    }
}

/// A step outcome with `d` more characters taken.
pub open spec fn shift(o: Option<(Option<Token>, nat)>, d: nat) -> Option<(Option<Token>, nat)> {
    match o {
        Some((t, n)) => Some((t, n + d)),
        None => None,
    }
}

pub proof fn lemma_run_len_bounds(s: Seq<char>)
    ensures
        run_len(s) <= s.len(),
        s.len() > 0 && is_digit(s[0]) ==> run_len(s) >= 1,
        forall|j: int| 0 <= j < run_len(s) ==> is_digit(#[trigger] s[j]),
        run_len(s) < s.len() ==> !is_digit(s[run_len(s) as int]),
    decreases s.len(),
{
    if s.len() > 0 && is_digit(s[0]) {
        let t = s.drop_first();
        lemma_run_len_bounds(t);
        assert forall|j: int| 0 <= j < run_len(s) implies is_digit(#[trigger] s[j]) by {
            if j > 0 {
                assert(s[j] == t[j - 1]);
            }
        }
        if run_len(s) < s.len() {
            assert(s[run_len(s) as int] == t[run_len(t) as int]);
        }
    }
}

pub proof fn lemma_run_len_exact(s: Seq<char>, k: int)
    requires
        0 <= k <= s.len(),
        forall|j: int| 0 <= j < k ==> is_digit(#[trigger] s[j]),
        k == s.len() || !is_digit(s[k]),
    ensures
        run_len(s) == k,
    decreases k,
{
    if k > 0 {
        let t = s.drop_first();
        assert forall|j: int| 0 <= j < k - 1 implies is_digit(#[trigger] t[j]) by {
            assert(t[j] == s[j + 1]);
        }
        if k < s.len() {
            assert(t[k - 1] == s[k]);
        }
        lemma_run_len_exact(t, k - 1);
    }
}

pub proof fn lemma_run_len_at_least(s: Seq<char>, k: int)
    requires
        0 <= k <= s.len(),
        forall|j: int| 0 <= j < k ==> is_digit(#[trigger] s[j]),
    ensures
        run_len(s) >= k,
    decreases k,
{
    if k > 0 {
        let t = s.drop_first();
        assert forall|j: int| 0 <= j < k - 1 implies is_digit(#[trigger] t[j]) by {
            assert(t[j] == s[j + 1]);
        }
        lemma_run_len_at_least(t, k - 1);
    }
}

/// A longer prefix of a digit sequence never denotes a smaller number.
pub proof fn lemma_digits_prefix_le(s: Seq<char>, a: int, b: int)
    requires
        0 <= a <= b <= s.len(),
    ensures
        digits_value(s.take(a)) <= digits_value(s.take(b)),
    decreases b - a,
{
    if a < b {
        assert(s.take(b).drop_last() =~= s.take(b - 1));
        lemma_digits_prefix_le(s, a, b - 1);
    }
}

/// A tokenizer over the characters of one input, with a cursor into them.
#[derive(Debug, PartialEq)]
pub struct Lexer {
    pub cursor: usize,
    pub characters: Vec<char>,
}

impl Lexer {
    /// The characters that are still to be read.
    pub open spec fn remaining(&self) -> Seq<char> {
        if self.cursor <= self.characters.len() {
            self.characters@.skip(self.cursor as int)
        } else {
            seq![]
        }
    }

    /// The tokens of `input`, dropping characters outside the alphabet.
    pub fn from_str(input: &str) -> (r: Result<Vec<Token>, EvaluationError>)
        ensures
            match r {
                Ok(ts) => lex(input@, CharPolicy::Skip) == Some(ts@),
                Err(e) => e == EvaluationError::LexicalError && lex(input@, CharPolicy::Skip) is None,
            },
    {
        Self::tokenize(input, CharPolicy::Skip)
    }

    /// The tokens of `input` under the given policy for unknown characters.
    pub fn tokenize(input: &str, policy: CharPolicy) -> (r: Result<Vec<Token>, EvaluationError>)
        ensures
            match r {
                Ok(ts) => lex(input@, policy) == Some(ts@),
                Err(e) => e == EvaluationError::LexicalError && lex(input@, policy) is None,
            },
    {
        let mut lexer = Self::new(input);
        proof {
            assert(lexer.remaining() =~= input@);
        }
        lexer.extract_tokens_with_policy(policy)
    }

    pub fn new(input: &str) -> (r: Lexer)
        ensures
            r.cursor == 0,
            r.characters@ == input@,
    {
        let n = input.unicode_len();
        let mut characters: Vec<char> = Vec::new();
        let mut i: usize = 0;
        while i < n
            invariant
                n == input@.len(),
                i <= n,
                characters@ == input@.take(i as int),
            decreases n - i,
        {
            characters.push(input.get_char(i));
            i = i + 1;
            proof {
                assert(characters@ =~= input@.take(i as int));
            }
        }
        proof {
            assert(characters@ =~= input@);
        }
        Lexer { cursor: 0, characters }
    }

    /// The character under the cursor.
    pub fn peek(&self) -> (r: Option<char>)
        ensures
            r == (if self.cursor < self.characters.len() {
                Some(self.characters@[self.cursor as int])
            } else {
                None
            }),
    {
        if self.cursor < self.characters.len() {
            Some(self.characters[self.cursor])
        } else {
            None
        }
    }

    /// The character under the cursor, moving the cursor past it.
    pub fn next_char(&mut self) -> (r: Option<char>)
        ensures
            final(self).characters == old(self).characters,
            match r {
                Some(c) => {
                    &&& old(self).cursor < old(self).characters.len()
                    &&& c == old(self).characters@[old(self).cursor as int]
                    &&& final(self).cursor == old(self).cursor + 1
                },
                None => {
                    &&& old(self).cursor >= old(self).characters.len()
                    &&& final(self).cursor == old(self).cursor
                },
            },
    {
        match self.peek() {
            Some(c) => {
                self.cursor = self.cursor + 1;
                Some(c)
            },
            None => None,
        }
    }

    /// The next token, `Ok(None)` when the input is used up: one `step`
    /// on the remaining characters, moving the cursor past what it takes.
    pub fn next(&mut self, policy: CharPolicy) -> (r: Result<Option<Token>, EvaluationError>)
        ensures
            final(self).characters == old(self).characters,
            old(self).cursor <= final(self).cursor,
            old(self).cursor <= old(self).characters.len() ==> final(self).cursor
                <= final(self).characters.len(),
            match r {
                Ok(t) => step(old(self).remaining(), policy) == Some(
                    (t, (final(self).cursor - old(self).cursor) as nat),
                ),
                Err(e) => e == EvaluationError::LexicalError && step(
                    old(self).remaining(),
                    policy,
                ) is None,
            },
            match r {
                Ok(Some(t)) => {
                    &&& final(self).cursor > old(self).cursor
                    &&& lex(old(self).remaining(), policy) == prepend(
                        t,
                        lex(final(self).remaining(), policy),
                    )
                    &&& final(self).remaining().len() < old(self).remaining().len()
                },
                Ok(None) => lex(old(self).remaining(), policy) == Some(Seq::<Token>::empty())
                    && final(self).remaining().len() == 0,
                Err(e) => e == EvaluationError::LexicalError && lex(
                    old(self).remaining(),
                    policy,
                ) is None,
            },
    {
        loop
            invariant
                self.characters == old(self).characters,
                lex(old(self).remaining(), policy) == lex(self.remaining(), policy),
                self.remaining().len() <= old(self).remaining().len(),
                old(self).cursor <= self.cursor,
                old(self).cursor <= old(self).characters.len() ==> self.cursor
                    <= self.characters.len(),
                step(old(self).remaining(), policy) == shift(
                    step(self.remaining(), policy),
                    (self.cursor - old(self).cursor) as nat,
                ),
            decreases self.remaining().len(),
        {
            let ghost s = self.remaining();
            let start = self.cursor;
            let c = match self.next_char() {
                Some(c) => c,
                None => {
                    return Ok(None);
                },
            };
            proof {
                assert(s[0] == c);
                assert(s.drop_first() =~= self.remaining());
            }
            if c == '+' || c == '-' || c == '*' || c == '/' {
                let t = if c == '+' {
                    Token::Plus
                } else if c == '-' {
                    Token::Minus
                } else if c == '*' {
                    Token::Star
                } else {
                    Token::Slash
                };
                return Ok(Some(t));
            } else if 48 <= c as u32 && c as u32 <= 57 {
                let mut acc: usize = (c as u32 - 48) as usize;
                let ghost chars = self.characters@;
                proof {
                    let first = chars.subrange(start as int, start + 1);
                    assert(first.drop_last() =~= Seq::<char>::empty());
                    assert(first.last() == c);
                    reveal_with_fuel(digits_value, 2);
                    assert(digits_value(first) == digit_value(c));
                }
                while self.cursor < self.characters.len() && 48 <= self.characters[self.cursor] as u32
                    && self.characters[self.cursor] as u32 <= 57
                    invariant
                        self.characters@ == chars,
                        self.characters == old(self).characters,
                        start < self.cursor <= chars.len(),
                        s == chars.skip(start as int),
                        lex(old(self).remaining(), policy) == lex(s, policy),
                        old(self).cursor <= start,
                        step(old(self).remaining(), policy) == shift(
                            step(s, policy),
                            (start - old(self).cursor) as nat,
                        ),
                        forall|j: int| start <= j < self.cursor ==> is_digit(#[trigger] chars[j]),
                        acc == digits_value(chars.subrange(start as int, self.cursor as int)),
                    decreases chars.len() - self.cursor,
                {
                    let d = self.characters[self.cursor];
                    let ghost k = self.cursor - start + 1;
                    proof {
                        assert(chars.subrange(start as int, self.cursor + 1).drop_last()
                            =~= chars.subrange(start as int, self.cursor as int));
                        assert(s.take(k) =~= chars.subrange(start as int, self.cursor + 1));
                    }
                    let next = match acc.checked_mul(10) {
                        Some(m) => m.checked_add((d as u32 - 48) as usize),
                        None => None,
                    };
                    match next {
                        Some(v) => {
                            acc = v;
                            self.cursor = self.cursor + 1;
                        },
                        None => {
                            proof {
                                assert(chars.subrange(start as int, self.cursor + 1).last() == d);
                                assert(digits_value(s.take(k)) == acc * 10 + digit_value(d));
                                assert(s[0] == chars[start as int]);
                                assert forall|j: int| 0 <= j < k implies is_digit(#[trigger] s[j]) by {
                                    assert(s[j] == chars[start + j]);
                                }
                                lemma_run_len_at_least(s, k);
                                lemma_run_len_bounds(s);
                                lemma_digits_prefix_le(s, k, run_len(s) as int);
                                assert(is_digit(s[0]));
                            }
                            return Err(EvaluationError::LexicalError);
                        },
                    }
                }
                let ghost n = self.cursor - start;
                proof {
                    assert forall|j: int| 0 <= j < n implies is_digit(#[trigger] s[j]) by {
                        assert(s[j] == chars[start + j]);
                    }
                    if n < s.len() {
                        assert(s[n] == chars[self.cursor as int]);
                    }
                    lemma_run_len_exact(s, n);
                    assert(s.take(n) =~= chars.subrange(start as int, self.cursor as int));
                    assert(s.skip(n) =~= self.remaining());
                }
                return Ok(Some(Token::Number(acc)));
            } else if c == ' ' || c == '\t' || c == '\n' || c == '\r' {
            } else {
                match policy {
                    CharPolicy::Skip => {},
                    CharPolicy::Reject => {
                        return Err(EvaluationError::LexicalError);
                    },
                }
            }
        }
    }

    /// All remaining tokens, dropping characters outside the alphabet.
    pub fn extract_tokens(&mut self) -> (r: Result<Vec<Token>, EvaluationError>)
        ensures
            final(self).characters == old(self).characters,
            r is Ok && old(self).cursor <= old(self).characters.len() ==> final(self).cursor
                == final(self).characters.len(),
            match r {
                Ok(ts) => lex(old(self).remaining(), CharPolicy::Skip) == Some(ts@),
                Err(e) => e == EvaluationError::LexicalError && lex(
                    old(self).remaining(),
                    CharPolicy::Skip,
                ) is None,
            },
    {
        self.extract_tokens_with_policy(CharPolicy::Skip)
    }

    /// All remaining tokens under the given policy for unknown characters.
    pub fn extract_tokens_with_policy(&mut self, policy: CharPolicy) -> (r: Result<
        Vec<Token>,
        EvaluationError,
    >)
        ensures
            final(self).characters == old(self).characters,
            r is Ok && old(self).cursor <= old(self).characters.len() ==> final(self).cursor
                == final(self).characters.len(),
            match r {
                Ok(ts) => lex(old(self).remaining(), policy) == Some(ts@),
                Err(e) => e == EvaluationError::LexicalError && lex(
                    old(self).remaining(),
                    policy,
                ) is None,
            },
    {
        let mut tokens: Vec<Token> = Vec::new();
        loop
            invariant
                self.characters == old(self).characters,
                old(self).cursor <= old(self).characters.len() ==> self.cursor
                    <= self.characters.len(),
                lex(old(self).remaining(), policy) == match lex(self.remaining(), policy) {
                    Some(ts) => Some(tokens@ + ts),
                    None => None,
                },
            decreases self.remaining().len(),
        {
            match self.next(policy) {
                Ok(Some(t)) => {
                    proof {
                        if let Some(ts) = lex(self.remaining(), policy) {
                            assert(tokens@.push(t) + ts =~= tokens@ + (seq![t] + ts));
                        }
                    }
                    tokens.push(t);
                },
                Ok(None) => {
                    proof {
                        assert(tokens@ + Seq::<Token>::empty() =~= tokens@);
                    }
                    return Ok(tokens);
                },
                Err(e) => {
                    return Err(e);
                },
            }
        }
    }
}

/// Both token sequences, joined, or `None` if either is missing.
pub open spec fn join(a: Option<Seq<Token>>, b: Option<Seq<Token>>) -> Option<Seq<Token>> {
    match (a, b) {
        (Some(x), Some(y)) => Some(x + y),
        _ => None,
    }
}

/// Where two texts do not meet digit to digit, the tokens of their
/// concatenation are the tokens of the first followed by those of the
/// second.
pub proof fn lemma_lex_concat(a: Seq<char>, b: Seq<char>, policy: CharPolicy)
    requires
        a.len() == 0 || b.len() == 0 || !is_digit(a.last()) || !is_digit(b[0]),
    ensures
        lex(a + b, policy) == join(lex(a, policy), lex(b, policy)),
    decreases a.len(),
{
    let ab = a + b;
    if a.len() == 0 {
        assert(ab =~= b);
        if let Some(y) = lex(b, policy) {
            assert(Seq::<Token>::empty() + y =~= y);
        }
    } else if is_digit(a[0]) {
        lemma_run_len_bounds(a);
        let n = run_len(a) as int;
        assert forall|j: int| 0 <= j < n implies is_digit(#[trigger] ab[j]) by {
            assert(ab[j] == a[j]);
        }
        if n < a.len() {
            assert(ab[n] == a[n]);
        } else if b.len() > 0 {
            assert(a.last() == a[n - 1]);
            assert(ab[n] == b[0]);
        }
        lemma_run_len_exact(ab, n);
        assert(ab.take(n) =~= a.take(n));
        assert(ab.skip(n) =~= a.skip(n) + b);
        let rest = a.skip(n);
        if rest.len() > 0 {
            assert(rest.last() == a.last());
        }
        lemma_lex_concat(rest, b, policy);
        if let (Some(x), Some(y)) = (lex(rest, policy), lex(b, policy)) {
            let t = Token::Number(digits_value(a.take(n)) as usize);
            assert(seq![t] + (x + y) =~= (seq![t] + x) + y);
        }
    } else {
        assert(ab[0] == a[0]);
        assert(ab.drop_first() =~= a.drop_first() + b);
        let rest = a.drop_first();
        if rest.len() > 0 {
            assert(rest.last() == a.last());
        }
        lemma_lex_concat(rest, b, policy);
        if let (Some(x), Some(y)) = (lex(rest, policy), lex(b, policy)) {
            if let Some(t) = operator_token(a[0]) {
                assert(seq![t] + (x + y) =~= (seq![t] + x) + y);
            }
        }
    }
}

/// A non-empty run of digits, alone, is one literal holding the number the
/// digits denote, whatever the policy, as long as that number fits in
/// `usize`.
pub proof fn lemma_lex_digits(d: Seq<char>, policy: CharPolicy)
    requires
        d.len() > 0,
        forall|j: int| 0 <= j < d.len() ==> is_digit(#[trigger] d[j]),
        digits_value(d) <= usize::MAX,
    ensures
        lex(d, policy) == Some(seq![Token::Number(digits_value(d) as usize)]),
{
    lemma_run_len_exact(d, d.len() as int);
    assert(d.take(d.len() as int) =~= d);
    assert(d.skip(d.len() as int) =~= Seq::<char>::empty());
    assert(lex(Seq::<char>::empty(), policy) == Some(Seq::<Token>::empty()));
    assert(is_digit(d[0]));
    assert(seq![Token::Number(digits_value(d) as usize)] + Seq::<Token>::empty() =~= seq![
        Token::Number(digits_value(d) as usize),
    ]);
}

} // verus!
