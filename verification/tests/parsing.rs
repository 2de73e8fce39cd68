use calculator::parser::{Ast, BinOp, ParseError, Parser};
use calculator::tokenize::Token;

fn num(n: i32) -> Ast {
    Ast::Number(n)
}

fn bin(left: Ast, op: BinOp, right: Ast) -> Ast {
    Ast::BinOp(Box::new(left), op, Box::new(right))
}

fn parse(tokens: Vec<Token>) -> Result<Ast, ParseError> {
    Parser::new(tokens).parse()
}

#[test]
fn a_number_is_a_leaf() {
    assert_eq!(parse(vec![Token::Number(42)]), Ok(num(42)));
}

#[test]
fn subtraction_associates_to_the_left() {
    let tokens = vec![
        Token::Number(10),
        Token::Minus,
        Token::Number(2),
        Token::Minus,
        Token::Number(3),
    ];
    assert_eq!(
        parse(tokens),
        Ok(bin(bin(num(10), BinOp::Sub, num(2)), BinOp::Sub, num(3)))
    );
}

#[test]
fn division_associates_to_the_left() {
    let tokens = vec![
        Token::Number(8),
        Token::Slash,
        Token::Number(4),
        Token::Asterisk,
        Token::Number(2),
    ];
    assert_eq!(
        parse(tokens),
        Ok(bin(bin(num(8), BinOp::Div, num(4)), BinOp::Mul, num(2)))
    );
}

#[test]
fn power_associates_to_the_right() {
    let tokens = vec![
        Token::Number(2),
        Token::Power,
        Token::Number(3),
        Token::Power,
        Token::Number(2),
    ];
    assert_eq!(
        parse(tokens),
        Ok(bin(num(2), BinOp::Power, bin(num(3), BinOp::Power, num(2))))
    );
}

#[test]
fn multiplication_binds_tighter_than_addition() {
    let tokens = vec![
        Token::Number(1),
        Token::Plus,
        Token::Number(2),
        Token::Asterisk,
        Token::Number(3),
    ];
    assert_eq!(
        parse(tokens),
        Ok(bin(num(1), BinOp::Add, bin(num(2), BinOp::Mul, num(3))))
    );
}

#[test]
fn power_binds_tighter_than_multiplication() {
    let tokens = vec![
        Token::Number(2),
        Token::Asterisk,
        Token::Number(3),
        Token::Power,
        Token::Number(4),
    ];
    assert_eq!(
        parse(tokens),
        Ok(bin(num(2), BinOp::Mul, bin(num(3), BinOp::Power, num(4))))
    );
}

#[test]
fn parentheses_group_and_leave_no_node() {
    let tokens = vec![
        Token::LParen,
        Token::Number(1),
        Token::Plus,
        Token::Number(2),
        Token::RParen,
        Token::Asterisk,
        Token::Number(3),
    ];
    assert_eq!(
        parse(tokens),
        Ok(bin(bin(num(1), BinOp::Add, num(2)), BinOp::Mul, num(3)))
    );
    let nested = vec![
        Token::LParen,
        Token::LParen,
        Token::Number(3),
        Token::RParen,
        Token::RParen,
    ];
    assert_eq!(parse(nested), Ok(num(3)));
}

#[test]
fn no_tokens_is_an_unexpected_end() {
    assert_eq!(parse(vec![]), Err(ParseError::UnexpectedEndOfInput));
}

#[test]
fn a_missing_operand_is_an_unexpected_end() {
    assert_eq!(
        parse(vec![Token::Number(1), Token::Plus]),
        Err(ParseError::UnexpectedEndOfInput)
    );
    assert_eq!(
        parse(vec![Token::Number(1), Token::Power]),
        Err(ParseError::UnexpectedEndOfInput)
    );
    assert_eq!(parse(vec![Token::LParen]), Err(ParseError::UnexpectedEndOfInput));
}

#[test]
fn an_operator_in_place_of_an_operand_is_unexpected() {
    assert_eq!(
        parse(vec![Token::RParen]),
        Err(ParseError::UnexpectedToken { position: 0, found: Token::RParen })
    );
    assert_eq!(
        parse(vec![Token::Number(1), Token::Plus, Token::Asterisk, Token::Number(2)]),
        Err(ParseError::UnexpectedToken { position: 2, found: Token::Asterisk })
    );
    assert_eq!(
        parse(vec![Token::Minus, Token::Number(1)]),
        Err(ParseError::UnexpectedToken { position: 0, found: Token::Minus })
    );
}

#[test]
fn an_unclosed_parenthesis_is_reported_where_it_should_close() {
    assert_eq!(
        parse(vec![Token::LParen, Token::Number(1), Token::Plus, Token::Number(2)]),
        Err(ParseError::ExpectedCloseParen { position: 4 })
    );
    assert_eq!(
        parse(vec![Token::LParen, Token::Number(1), Token::Number(2), Token::RParen]),
        Err(ParseError::ExpectedCloseParen { position: 2 })
    );
}

#[test]
fn tokens_behind_the_expression_are_left_unread() {
    let tokens = vec![
        Token::Number(3),
        Token::Plus,
        Token::Number(2),
        Token::RParen,
        Token::RParen,
    ];
    let mut parser = Parser::new(tokens);
    assert_eq!(parser.position(), 0);
    assert_eq!(parser.parse(), Ok(bin(num(3), BinOp::Add, num(2))));
    assert_eq!(parser.position(), 3);
    assert!(!parser.at_end());
    assert_eq!(parser.peek(), Some(Token::RParen));
}

#[test]
fn a_whole_expression_leaves_the_cursor_at_the_end() {
    let mut parser = Parser::new(vec![Token::Number(3), Token::Slash, Token::Number(2)]);
    assert_eq!(parser.parse(), Ok(bin(num(3), BinOp::Div, num(2))));
    assert_eq!(parser.position(), 3);
    assert!(parser.at_end());
    assert_eq!(parser.peek(), None);
}

#[test]
fn consume_takes_only_the_token_it_is_asked_for() {
    let mut parser = Parser::new(vec![Token::Number(1), Token::Plus]);
    assert!(!parser.consume(Token::Plus));
    assert!(!parser.consume(Token::Number(2)));
    assert_eq!(parser.position(), 0);
    assert!(parser.consume(Token::Number(1)));
    assert_eq!(parser.position(), 1);
    assert_eq!(parser.peek(), Some(Token::Plus));
    assert!(parser.consume(Token::Plus));
    assert_eq!(parser.position(), 2);
    assert!(!parser.consume(Token::Plus));
    assert_eq!(parser.position(), 2);
}

#[test]
fn each_rule_parses_its_own_level() {
    let tokens = vec![
        Token::Number(1),
        Token::Plus,
        Token::Number(2),
        Token::Asterisk,
        Token::Number(3),
        Token::Power,
        Token::Number(4),
    ];
    let mut parser = Parser::new(tokens.clone());
    assert_eq!(parser.factor(), Ok(num(1)));
    assert_eq!(parser.position(), 1);
    let mut parser = Parser::new(tokens.clone());
    assert_eq!(parser.term(), Ok(num(1)));
    assert_eq!(parser.position(), 1);
    assert!(parser.consume(Token::Plus));
    assert_eq!(parser.factor(), Ok(num(2)));
    assert!(parser.consume(Token::Asterisk));
    assert_eq!(parser.power(), Ok(bin(num(3), BinOp::Power, num(4))));
    assert!(parser.at_end());
    let mut parser = Parser::new(tokens);
    assert_eq!(
        parser.expr(),
        Ok(bin(
            num(1),
            BinOp::Add,
            bin(num(2), BinOp::Mul, bin(num(3), BinOp::Power, num(4)))
        ))
    );
}
