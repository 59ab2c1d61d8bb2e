use math_parser::{CharPolicy, EvaluationError, Lexer, Token};
use math_parser::Token::{Minus, Number, Plus, Slash, Star};

#[test]
fn new_lexer() {
    assert_eq!(
        Lexer::new("1 + 2"),
        Lexer {
            cursor: 0,
            characters: vec!['1', ' ', '+', ' ', '2']
        }
    );
}

#[test]
fn lexer_sample_sum() {
    let tokens = Lexer::new("1 + 2").extract_tokens().unwrap();

    assert_eq!(
        tokens,
        vec![Token::Number(1), Token::Plus, Token::Number(2)]
    );
}

#[test]
fn full_sample() {
    let tokens = Lexer::new("1 + 2 / 3 * 4 - 1").extract_tokens().unwrap();


    assert_eq!(
        tokens,
        vec![
            Number(1),
            Plus,
            Number(2),
            Slash,
            Number(3),
            Star,
            Number(4),
            Minus,
            Number(1)
        ]
    );
}

#[test]
fn big_number() {
    let tokens = Lexer::new("1230 + 24").extract_tokens().unwrap();


    assert_eq!(tokens, vec![Number(1230), Plus, Number(24)]);
}

#[test]
fn no_whitespace() {
    let tokens = Lexer::new("1230+24+1").extract_tokens().unwrap();


    assert_eq!(
        tokens,
        vec![Number(1230), Plus, Number(24), Plus, Number(1)]
    );
}

#[test]
fn digits_alone_are_one_literal() {
    assert_eq!(Lexer::from_str("1230").unwrap(), vec![Token::Number(1230)]);
    assert_eq!(Lexer::from_str("0042").unwrap(), vec![Token::Number(42)]);
    assert_eq!(Lexer::from_str("0").unwrap(), vec![Token::Number(0)]);
}

#[test]
fn sum_with_and_without_spaces() {
    let expected = vec![Token::Number(12), Token::Plus, Token::Number(7)];
    assert_eq!(Lexer::from_str("12 + 7").unwrap(), expected);
    assert_eq!(Lexer::from_str("12+7").unwrap(), expected);
}

#[test]
fn empty_input_has_no_tokens() {
    assert_eq!(Lexer::from_str("").unwrap(), vec![]);
    assert_eq!(Lexer::from_str(" \t\n").unwrap(), vec![]);
}

#[test]
fn largest_literal_is_accepted() {
    let text = format!("{}", usize::MAX);
    assert_eq!(Lexer::from_str(&text).unwrap(), vec![Token::Number(usize::MAX)]);
}

#[test]
fn overflowing_literal_is_lexical_error() {
    let text = format!("{}0", usize::MAX);
    assert_eq!(Lexer::from_str(&text), Err(EvaluationError::LexicalError));
    assert_eq!(
        Lexer::from_str("1 + 99999999999999999999999"),
        Err(EvaluationError::LexicalError)
    );
}

#[test]
fn unknown_characters_follow_policy() {
    assert_eq!(
        Lexer::tokenize("1 + a2", CharPolicy::Skip).unwrap(),
        vec![Token::Number(1), Token::Plus, Token::Number(2)]
    );
    assert_eq!(
        Lexer::tokenize("1 + a2", CharPolicy::Reject),
        Err(EvaluationError::LexicalError)
    );
    assert_eq!(
        Lexer::tokenize("(1 + 2)", CharPolicy::Skip).unwrap(),
        vec![Token::Number(1), Token::Plus, Token::Number(2)]
    );
    assert_eq!(
        Lexer::tokenize("1 +\t2\n", CharPolicy::Reject).unwrap(),
        vec![Token::Number(1), Token::Plus, Token::Number(2)]
    );
}

#[test]
fn skipped_character_splits_digit_run() {
    assert_eq!(
        Lexer::from_str("12x3").unwrap(),
        vec![Token::Number(12), Token::Number(3)]
    );
}

#[test]
fn lexer_steps() {
    let mut lexer = Lexer::new(" 7-");
    assert_eq!(lexer.peek(), Some(' '));
    assert_eq!(lexer.next_char(), Some(' '));
    assert_eq!(lexer.cursor, 1);
    assert_eq!(lexer.next(CharPolicy::Reject), Ok(Some(Token::Number(7))));
    assert_eq!(lexer.cursor, 2);
    assert_eq!(lexer.next(CharPolicy::Reject), Ok(Some(Token::Minus)));
    assert_eq!(lexer.cursor, 3);
    assert_eq!(lexer.next(CharPolicy::Reject), Ok(None));
    assert_eq!(lexer.cursor, 3);
    assert_eq!(lexer.peek(), None);
    assert_eq!(lexer.next_char(), None);
}

#[test]
fn step_stops_at_end_of_token() {
    let mut lexer = Lexer::new("  + 12 9");
    assert_eq!(lexer.next(CharPolicy::Skip), Ok(Some(Token::Plus)));
    assert_eq!(lexer.cursor, 3);
    assert_eq!(lexer.next(CharPolicy::Skip), Ok(Some(Token::Number(12))));
    assert_eq!(lexer.cursor, 6);

    let mut lexer = Lexer::new("+ 99999999999999999999999");
    assert_eq!(lexer.next(CharPolicy::Reject), Ok(Some(Token::Plus)));
    assert_eq!(lexer.cursor, 1);
    assert_eq!(lexer.next(CharPolicy::Reject), Err(EvaluationError::LexicalError));
}

#[test]
fn extraction_leaves_cursor_at_end() {
    let mut lexer = Lexer::new("1 + 2 x");
    assert_eq!(
        lexer.extract_tokens().unwrap(),
        vec![Token::Number(1), Token::Plus, Token::Number(2)]
    );
    assert_eq!(lexer.cursor, lexer.characters.len());
    assert_eq!(lexer.characters.len(), 7);
}
