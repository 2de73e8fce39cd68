use calculator::calculate;
use calculator::eval::eval;
use calculator::parser::{Ast, BinOp, Parser};
use calculator::tokenize::{tokenize, Token};

#[test]
fn test_tokenize() {
    let expression = "3 * 2 + 1 + 5 ";

    let tokens = tokenize(expression.to_string()).unwrap();

    assert_eq!(
        tokens,
        vec![
            Token::Number(3),
            Token::Asterisk,
            Token::Number(2),
            Token::Plus,
            Token::Number(1),
            Token::Plus,
            Token::Number(5),
        ]
    );
}

#[test]
fn test_tokenize1() {
    let expression = "3 * 2 + 1 + 5 ";

    let tokens = tokenize(expression.to_string()).unwrap();

    assert_eq!(
        tokens,
        vec![
            Token::Number(3),
            Token::Asterisk,
            Token::Number(2),
            Token::Plus,
            Token::Number(1),
            Token::Plus,
            Token::Number(5),
        ]
    );
}

#[test]
fn test_tokenize2() {
    let expression = "3 * (2 ** 3) + 1 + 5 ";

    let tokens = tokenize(expression.to_string()).unwrap();

    assert_eq!(
        tokens,
        vec![
            Token::Number(3),
            Token::Asterisk,
            Token::LParen,
            Token::Number(2),
            Token::Power,
            Token::Number(3),
            Token::RParen,
            Token::Plus,
            Token::Number(1),
            Token::Plus,
            Token::Number(5),
        ]
    );
}

#[test]
fn parser_test_parser() {
    let expression = "1 + 2";
    let tokens = tokenize(expression.to_string()).unwrap();
    let mut parser = Parser::new(tokens);
    let ast = parser.parse().unwrap();

    assert_eq!(
        ast,
        Ast::BinOp(
            Box::new(Ast::Number(1)),
            BinOp::Add,
            Box::new(Ast::Number(2)),
        )
    );
}

#[test]
fn test_parser2() {
    let expression = "3 * 2 + 1 + 5 ";

    let tokens = tokenize(expression.to_string()).unwrap();

    let mut parser = Parser::new(tokens);

    let ast = parser.parse().unwrap();

    assert_eq!(
        ast,
        Ast::BinOp(
            Box::new(Ast::BinOp(
                Box::new(Ast::BinOp(
                    Box::new(Ast::Number(3)),
                    BinOp::Mul,
                    Box::new(Ast::Number(2)),
                )),
                BinOp::Add,
                Box::new(Ast::Number(1)),
            )),
            BinOp::Add,
            Box::new(Ast::Number(5)),
        )
    );
}

#[test]
fn main_test_parser() {
    let expression = "3 * 2 + 1 + 5 ";

    let tokens = tokenize(expression.to_string()).unwrap();

    let mut parser = Parser::new(tokens);

    let ast = parser.parse().unwrap();

    assert_eq!(
        ast,
        Ast::BinOp(
            Box::new(Ast::BinOp(
                Box::new(Ast::BinOp(
                    Box::new(Ast::Number(3)),
                    BinOp::Mul,
                    Box::new(Ast::Number(2)),
                )),
                BinOp::Add,
                Box::new(Ast::Number(1)),
            )),
            BinOp::Add,
            Box::new(Ast::Number(5)),
        )
    );
}

#[test]
fn eval_test_eval() {
    let expression = "3 + 2 / 2 + 1 + 5 * 2 ";

    let tokens = tokenize(expression.to_string()).unwrap();

    let mut parser = Parser::new(tokens);

    let ast = parser.parse().unwrap();

    let val = eval(ast).unwrap();

    assert_eq!(val, 15);
}

#[test]
fn main_test_eval() {
    let expression = "3 + 2 / 2 + 1 + 5 * 2 ";

    let tokens = tokenize(expression.to_string()).unwrap();

    let mut parser = Parser::new(tokens);

    let ast = parser.parse().unwrap();

    let val = eval(ast).unwrap();

    assert_eq!(val, 15);
}

#[test]
fn test_calculate1() {
    let expression = "3 + 2 / 2 + 1 + 5 * 2 ";

    let val = calculate(expression.to_string()).unwrap();

    assert_eq!(val, 15);
}

#[test]
fn test_power() {
    let expression = "3 ** 4 ";
    let val = calculate(expression.to_string()).unwrap();
    assert_eq!(val, 81);

    let expression = "3 ** 4 ** 2 ";
    let val = calculate(expression.to_string()).unwrap();
    assert_eq!(val, 3i32.pow(4i32.pow(2) as u32));
}

#[test]
fn test_calculate2() {
    let expression = " (4 + 5)";
    let val = calculate(expression.to_string()).unwrap();

    assert_eq!(val, 9);

    let expression = " 3 * (4 + 5) / 2 ";

    let val = calculate(expression.to_string()).unwrap();
    assert_eq!(val, 13);

    let expression = "(((3)))";
    let val = calculate(expression.to_string()).unwrap();

    assert_eq!(val, 3);
}
