use umpteen::lexer::{Lexer, Position, Token, TokenType};
use umpteen::parser::{AstParser, BinOp, Expr, ParseError, UnOp, MAX_NESTING};

fn parse(source: &str) -> Result<Expr<String>, ParseError> {
    let lexer = Lexer::new(source);
    let tokens = lexer.scan_tokens().unwrap();
    AstParser::new(tokens).parse()
}

fn num(text: &str) -> Expr<String> {
    Expr::Number(text.to_owned())
}

fn bin(op: BinOp, lhs: Expr<String>, rhs: Expr<String>) -> Expr<String> {
    Expr::BinOp { op, lhs: Box::new(lhs), rhs: Box::new(rhs) }
}

fn un(op: UnOp, expr: Expr<String>) -> Expr<String> {
    Expr::UnOp { op, expr: Box::new(expr) }
}

#[test]
fn a_number_alone() {
    assert_eq!(parse("42"), Ok(num("42")));
    assert_eq!(parse("3.14"), Ok(num("3.14")));
}

#[test]
fn multiplication_binds_tighter_than_addition() {
    assert_eq!(
        parse("1 + 2 * 3"),
        Ok(bin(BinOp::Add, num("1"), bin(BinOp::Mul, num("2"), num("3"))))
    );
    assert_eq!(
        parse("1 * 2 + 3"),
        Ok(bin(BinOp::Add, bin(BinOp::Mul, num("1"), num("2")), num("3")))
    );
}

#[test]
fn subtraction_folds_to_the_left() {
    assert_eq!(
        parse("1 - 2 - 3"),
        Ok(bin(BinOp::Sub, bin(BinOp::Sub, num("1"), num("2")), num("3")))
    );
}

#[test]
fn every_tier_folds_to_the_left() {
    assert_eq!(
        parse("8 / 4 % 3 * 2"),
        Ok(bin(
            BinOp::Mul,
            bin(BinOp::Mod, bin(BinOp::Div, num("8"), num("4")), num("3")),
            num("2")
        ))
    );
    assert_eq!(
        parse("1 < 2 >= 3 > 4 <= 5"),
        Ok(bin(
            BinOp::LessEqual,
            bin(
                BinOp::Greater,
                bin(BinOp::GreaterEqual, bin(BinOp::Less, num("1"), num("2")), num("3")),
                num("4")
            ),
            num("5")
        ))
    );
    assert_eq!(
        parse("1 == 2 != 3"),
        Ok(bin(BinOp::NotEqual, bin(BinOp::Equal, num("1"), num("2")), num("3")))
    );
}

#[test]
fn the_tiers_in_one_expression() {
    assert_eq!(
        parse("1 + 2 < 3 * 4 == 5"),
        Ok(bin(
            BinOp::Equal,
            bin(
                BinOp::Less,
                bin(BinOp::Add, num("1"), num("2")),
                bin(BinOp::Mul, num("3"), num("4"))
            ),
            num("5")
        ))
    );
}

#[test]
fn unary_operators_nest_to_the_right() {
    assert_eq!(parse("-1"), Ok(un(UnOp::Negate, num("1"))));
    assert_eq!(parse("!-1"), Ok(un(UnOp::Not, un(UnOp::Negate, num("1")))));
    assert_eq!(
        parse("1 - -2"),
        Ok(bin(BinOp::Sub, num("1"), un(UnOp::Negate, num("2"))))
    );
    assert_eq!(
        parse("-1 * 2"),
        Ok(bin(BinOp::Mul, un(UnOp::Negate, num("1")), num("2")))
    );
}

#[test]
fn parentheses_group() {
    assert_eq!(
        parse("(1 + 2) * 3"),
        Ok(bin(BinOp::Mul, bin(BinOp::Add, num("1"), num("2")), num("3")))
    );
    assert_eq!(parse("((7))"), Ok(num("7")));
    assert_eq!(
        parse("-(1 == 2)"),
        Ok(un(UnOp::Negate, bin(BinOp::Equal, num("1"), num("2"))))
    );
}

#[test]
fn a_token_behind_the_expression_is_unexpected() {
    assert_eq!(
        parse("1 2"),
        Err(ParseError::UnexpectedToken(TokenType::Number, Position(1, 3)))
    );
    assert_eq!(
        parse("1 + 2 )"),
        Err(ParseError::UnexpectedToken(TokenType::ParClose, Position(1, 7)))
    );
    assert_eq!(
        parse("1 += 2"),
        Err(ParseError::UnexpectedToken(TokenType::PlusEqual, Position(1, 3)))
    );
}

#[test]
fn a_token_that_starts_no_expression_is_unexpected() {
    assert_eq!(
        parse(""),
        Err(ParseError::UnexpectedToken(TokenType::Eof, Position(2, 1)))
    );
    assert_eq!(
        parse("* 1"),
        Err(ParseError::UnexpectedToken(TokenType::Star, Position(1, 1)))
    );
    assert_eq!(
        parse("1 +"),
        Err(ParseError::UnexpectedToken(TokenType::Eof, Position(2, 1)))
    );
    assert_eq!(
        parse("1 +\n  if"),
        Err(ParseError::UnexpectedToken(TokenType::If, Position(2, 3)))
    );
    assert_eq!(
        parse("x"),
        Err(ParseError::UnexpectedToken(TokenType::Ident, Position(1, 1)))
    );
    assert_eq!(
        parse("\"s\""),
        Err(ParseError::UnexpectedToken(TokenType::String, Position(1, 1)))
    );
}

#[test]
fn an_open_parenthesis_needs_its_close() {
    assert_eq!(
        parse("(1"),
        Err(ParseError::UnexpectedToken(TokenType::Eof, Position(2, 1)))
    );
    assert_eq!(
        parse("(1 2)"),
        Err(ParseError::UnexpectedToken(TokenType::Number, Position(1, 4)))
    );
    assert_eq!(
        parse("()"),
        Err(ParseError::UnexpectedToken(TokenType::ParClose, Position(1, 2)))
    );
}

#[test]
fn the_number_holds_the_lexeme_as_it_stands() {
    let tokens = vec![
        Token::new(TokenType::Number, "007.50", Position(1, 1)),
        Token::new(TokenType::Eof, "<EOF>", Position(2, 1)),
    ];
    assert_eq!(AstParser::new(tokens).parse(), Ok(num("007.50")));
}

#[test]
fn tokens_that_run_out_read_as_eof_at_zero() {
    assert_eq!(
        AstParser::new(vec![]).parse(),
        Err(ParseError::UnexpectedToken(TokenType::Eof, Position(0, 0)))
    );
    let number_alone = vec![Token::new(TokenType::Number, "1", Position(1, 1))];
    assert_eq!(AstParser::new(number_alone).parse(), Ok(num("1")));
    let open = vec![
        Token::new(TokenType::ParOpen, "(", Position(1, 1)),
        Token::new(TokenType::Number, "1", Position(1, 2)),
    ];
    assert_eq!(
        AstParser::new(open).parse(),
        Err(ParseError::UnexpectedToken(TokenType::Eof, Position(0, 0)))
    );
    let dangling = vec![
        Token::new(TokenType::Number, "1", Position(1, 1)),
        Token::new(TokenType::Minus, "-", Position(1, 3)),
    ];
    assert_eq!(
        AstParser::new(dangling).parse(),
        Err(ParseError::UnexpectedToken(TokenType::Eof, Position(0, 0)))
    );
}

#[test]
fn parsing_stops_at_the_first_eof() {
    let tokens = vec![
        Token::new(TokenType::Number, "1", Position(1, 1)),
        Token::new(TokenType::Eof, "<EOF>", Position(2, 1)),
        Token::new(TokenType::Star, "*", Position(3, 1)),
    ];
    assert_eq!(AstParser::new(tokens).parse(), Ok(num("1")));
}

#[test]
fn nesting_up_to_the_limit_parses() {
    let depth = MAX_NESTING;
    let source = format!("{}1{}", "(".repeat(depth), ")".repeat(depth));
    assert_eq!(parse(&source), Ok(num("1")));
    let minus = format!("{}1", "-".repeat(depth));
    let mut expected = num("1");
    for _ in 0..depth {
        expected = un(UnOp::Negate, expected);
    }
    assert_eq!(parse(&minus), Ok(expected));
    let mixed = format!("{}1{}", "-(".repeat(depth / 2), ")".repeat(depth / 2));
    assert!(parse(&mixed).is_ok());
}

#[test]
fn nesting_beyond_the_limit_is_turned_away_where_it_opens() {
    let depth = MAX_NESTING + 1;
    let source = format!("{}1{}", "(".repeat(depth), ")".repeat(depth));
    assert_eq!(
        parse(&source),
        Err(ParseError::UnexpectedToken(TokenType::ParOpen, Position(1, depth)))
    );
    let minus = format!("{}1", "!".repeat(depth));
    assert_eq!(
        parse(&minus),
        Err(ParseError::UnexpectedToken(TokenType::Bang, Position(1, depth)))
    );
    let behind = format!("1 + {}1{}", "(".repeat(depth), ")".repeat(depth));
    assert_eq!(
        parse(&behind),
        Err(ParseError::UnexpectedToken(TokenType::ParOpen, Position(1, depth + 4)))
    );
}

#[test]
fn the_limit_is_on_nesting_and_not_on_length() {
    let mut source = String::from("1");
    for _ in 0..5000 {
        source.push_str(" + (2) * -3");
    }
    assert!(parse(&source).is_ok());
}

#[test]
fn very_deep_nesting_fails_and_does_not_exhaust_the_stack() {
    let source = "(".repeat(200_000);
    assert_eq!(
        parse(&source),
        Err(ParseError::UnexpectedToken(
            TokenType::ParOpen,
            Position(1, MAX_NESTING + 1)
        ))
    );
    let minus = "-".repeat(200_000);
    assert_eq!(
        parse(&minus),
        Err(ParseError::UnexpectedToken(TokenType::Minus, Position(1, MAX_NESTING + 1)))
    );
}
