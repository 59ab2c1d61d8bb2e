use math_parser::{CharPolicy, EvaluationError, Lexer, MathParser, Node, Operator, Token};
use math_parser::Node::{BinaryExpr, Number};
use math_parser::Operator::{Add, Sub};

fn lit(v: usize) -> Box<Node> {
    Box::new(Node::Number(v))
}

#[test]
fn sample_ast() {
    let tokens = Lexer::from_str("1 + 2").unwrap();
    let ast = MathParser::build_ast(tokens, None);

    assert_eq!(
        ast.unwrap(),
        Node::BinaryExpr {
            op: Operator::Add,
            left: Box::new(Node::Number(1)),
            right: Box::new(Node::Number(2)),
        }
    );
}

#[test]
fn complexly_ast() {
    let tokens = Lexer::from_str("1 + 3 - 1 + 2").unwrap();
    let ast = MathParser::build_ast(tokens, None);

    assert_eq!(
        ast.unwrap(),
        BinaryExpr {
            op: Add,
            left: Box::new(Number(1)),
            right: Box::new(BinaryExpr {
                op: Add,
                left: Box::new(BinaryExpr {
                    op: Sub,
                    left: Box::new(Number(3)),
                    right: Box::new(Number(1))
                }),
                right: Box::new(Number(2))
            })
        }
    );
}

#[test]
fn parser_sample_sum() {
    let result = MathParser::parse("1 + 2").unwrap();

    assert_eq!(result, 3)
}

#[test]
fn big_sum() {
    assert_eq!(MathParser::parse("1230 + 24"), Ok(1254));
}

#[test]
fn division_by_zero_is_arithmetic_error() {
    assert_eq!(
        MathParser::parse("10 / 0"),
        Err(EvaluationError::ArithmeticError)
    );
}

#[test]
fn empty_expression_is_structural_error() {
    assert_eq!(MathParser::parse(""), Err(EvaluationError::StructuralError));
}

#[test]
fn precedence_tree_of_sum_and_product() {
    let tokens = Lexer::from_str("1 + 2 * 3").unwrap();
    let ast = MathParser::build_ast(tokens, None).unwrap();
    assert_eq!(
        ast,
        Node::BinaryExpr {
            op: Operator::Add,
            left: lit(1),
            right: Box::new(Node::BinaryExpr {
                op: Operator::Multi,
                left: lit(2),
                right: lit(3),
            }),
        }
    );
    assert_eq!(MathParser::eval(&ast), Ok(7));
    assert_eq!(MathParser::parse("1 + 2 * 3"), Ok(7));
}

#[test]
fn first_operator_of_a_level_splits() {
    // 8 - (2 - 3)
    assert_eq!(MathParser::parse("8 - 2 - 3"), Ok(9));
    // (1 - 2) + 3
    assert_eq!(MathParser::parse("1 - 2 + 3"), Ok(2));
    // 12 / (6 / 2)
    assert_eq!(MathParser::parse("12 / 6 / 2"), Ok(4));
    // (7 / 2) * 2
    assert_eq!(MathParser::parse("7 / 2 * 2"), Ok(6));
    assert_eq!(MathParser::parse("4 - 32 + 1 - 34 / 5 * 10 + 140"), Ok(53));
}

#[test]
fn build_from_a_higher_level_wraps_around() {
    let tokens = Lexer::from_str("1 + 2 * 3").unwrap();
    let ast = MathParser::build_ast(tokens, Some(3)).unwrap();
    assert_eq!(
        ast,
        Node::BinaryExpr {
            op: Operator::Multi,
            left: Box::new(Node::BinaryExpr {
                op: Operator::Add,
                left: lit(1),
                right: lit(2),
            }),
            right: lit(3),
        }
    );
    let tokens = Lexer::from_str("1 + 2").unwrap();
    assert_eq!(
        MathParser::build_ast(tokens.clone(), Some(9)),
        MathParser::build_ast(tokens, None)
    );
}

#[test]
fn malformed_sequences_are_structural_errors() {
    for text in ["1 +", "+ 1", "1 2", "1 + + 2", "*", "   "] {
        assert_eq!(
            MathParser::parse(text),
            Err(EvaluationError::StructuralError),
            "{}",
            text
        );
    }
    assert_eq!(
        MathParser::build_ast(vec![Token::Number(1), Token::Number(2)], None),
        Err(EvaluationError::StructuralError)
    );
}

#[test]
fn single_literal_is_a_leaf() {
    assert_eq!(
        MathParser::build_ast(vec![Token::Number(5)], None),
        Ok(Node::Number(5))
    );
    assert_eq!(MathParser::parse("42"), Ok(42));
}

#[test]
fn overflow_is_arithmetic_error() {
    assert_eq!(
        MathParser::parse("9223372036854775807 + 1"),
        Err(EvaluationError::ArithmeticError)
    );
    assert_eq!(
        MathParser::parse("9223372036854775808"),
        Err(EvaluationError::ArithmeticError)
    );
    assert_eq!(
        MathParser::parse("9223372036854775807"),
        Ok(i64::MAX)
    );
    assert_eq!(
        MathParser::parse("4294967296 * 4294967296"),
        Err(EvaluationError::ArithmeticError)
    );
}

#[test]
fn subtraction_and_truncating_division() {
    assert_eq!(MathParser::parse("3 - 10"), Ok(-7));
    assert_eq!(MathParser::parse("7 / 2"), Ok(3));
    assert_eq!(MathParser::parse("0 / 5"), Ok(0));
}

#[test]
fn evaluation_of_trees() {
    let tree = Node::BinaryExpr {
        op: Operator::Div,
        left: Box::new(Node::BinaryExpr {
            op: Operator::Sub,
            left: lit(1),
            right: lit(8),
        }),
        right: lit(2),
    };
    assert_eq!(MathParser::eval(&tree), Ok(-3));
    assert_eq!(
        MathParser::eval(&Node::Number(usize::MAX)),
        Err(EvaluationError::ArithmeticError)
    );
}

#[test]
fn strict_parsing_rejects_unknown_characters() {
    assert_eq!(
        MathParser::parse_with_policy("1 + x", CharPolicy::Reject),
        Err(EvaluationError::LexicalError)
    );
    assert_eq!(MathParser::parse_with_policy("1 + x", CharPolicy::Skip), Err(EvaluationError::StructuralError));
    assert_eq!(MathParser::parse_with_policy("2 * 21", CharPolicy::Reject), Ok(42));
}

#[test]
fn rendered_tree_parses_to_same_value() {
    let text = "4 - 32 + 1 - 34 / 5 * 10 + 140";
    let ast = MathParser::build_ast(Lexer::from_str(text).unwrap(), None).unwrap();
    let rendered = MathParser::ast_to_source_with_params(&ast);
    assert_eq!(rendered, "((4 - 32) + ((1 - ((34 / 5) * 10)) + 140))");
    assert_eq!(MathParser::parse(&rendered), MathParser::parse(text));

    let ast = MathParser::build_ast(Lexer::from_str("1 + 2 * 3").unwrap(), None).unwrap();
    let rendered = MathParser::ast_to_source_with_params(&ast);
    assert_eq!(rendered, "(1 + (2 * 3))");
    assert_eq!(MathParser::parse(&rendered), Ok(7));
    assert_eq!(MathParser::ast_to_source_with_params(&Node::Number(1230)), "1230");
}

#[test]
fn token_priorities_and_operators() {
    assert_eq!(MathParser::token_priority(&Token::Plus), 1);
    assert_eq!(MathParser::token_priority(&Token::Minus), 2);
    assert_eq!(MathParser::token_priority(&Token::Star), 3);
    assert_eq!(MathParser::token_priority(&Token::Slash), 4);
    assert_eq!(MathParser::token_priority(&Token::Number(9)), 0);
    assert_eq!(Operator::from_token(Token::Slash), Some(Operator::Div));
    assert_eq!(Operator::from_token(Token::Number(1)), None);
}
