use calculator::tokenize::{tokenize, LexError, Token};

fn lex(text: &str) -> Result<Vec<Token>, LexError> {
    tokenize(text.to_string())
}

#[test]
fn empty_text_has_no_tokens() {
    assert_eq!(lex(""), Ok(vec![]));
    assert_eq!(lex("    "), Ok(vec![]));
}

#[test]
fn every_punctuation_character_has_its_token() {
    assert_eq!(
        lex("+-*/()"),
        Ok(vec![
            Token::Plus,
            Token::Minus,
            Token::Asterisk,
            Token::Slash,
            Token::LParen,
            Token::RParen,
        ])
    );
}

#[test]
fn digits_fold_in_base_ten() {
    assert_eq!(lex("0"), Ok(vec![Token::Number(0)]));
    assert_eq!(lex("007"), Ok(vec![Token::Number(7)]));
    assert_eq!(lex("1234567890"), Ok(vec![Token::Number(1234567890)]));
    assert_eq!(lex("2147483647"), Ok(vec![Token::Number(i32::MAX)]));
}

#[test]
fn literals_wrap_at_32_bits() {
    assert_eq!(lex("2147483648"), Ok(vec![Token::Number(i32::MIN)]));
    assert_eq!(lex("4294967296"), Ok(vec![Token::Number(0)]));
    assert_eq!(lex("4294967297"), Ok(vec![Token::Number(1)]));
    assert_eq!(lex("10000000000"), Ok(vec![Token::Number(1410065408)]));
    assert_eq!(lex("99999999999"), Ok(vec![Token::Number(1215752191)]));
}

#[test]
fn a_space_does_not_close_a_literal() {
    assert_eq!(lex("1 2"), Ok(vec![Token::Number(12)]));
    assert_eq!(lex(" 4 0 + 2 "), Ok(vec![Token::Number(40), Token::Plus, Token::Number(2)]));
}

#[test]
fn an_opening_parenthesis_drops_the_pending_literal() {
    assert_eq!(
        lex("2(3)"),
        Ok(vec![Token::LParen, Token::Number(3), Token::RParen])
    );
}

#[test]
fn an_operator_closes_the_pending_literal() {
    assert_eq!(lex("12+"), Ok(vec![Token::Number(12), Token::Plus]));
    assert_eq!(lex("12-"), Ok(vec![Token::Number(12), Token::Minus]));
    assert_eq!(lex("12/"), Ok(vec![Token::Number(12), Token::Slash]));
    assert_eq!(lex("12)"), Ok(vec![Token::Number(12), Token::RParen]));
    assert_eq!(lex("12*"), Ok(vec![Token::Number(12), Token::Asterisk]));
    assert_eq!(lex("12**"), Ok(vec![Token::Number(12), Token::Power]));
}

#[test]
fn two_adjacent_asterisks_are_one_power() {
    assert_eq!(lex("**"), Ok(vec![Token::Power]));
    assert_eq!(lex("***"), Ok(vec![Token::Power, Token::Asterisk]));
    assert_eq!(lex("****"), Ok(vec![Token::Power, Token::Power]));
    assert_eq!(lex("* *"), Ok(vec![Token::Asterisk, Token::Asterisk]));
    assert_eq!(
        lex("2**3*4"),
        Ok(vec![
            Token::Number(2),
            Token::Power,
            Token::Number(3),
            Token::Asterisk,
            Token::Number(4),
        ])
    );
}

#[test]
fn the_character_behind_a_single_asterisk_is_read() {
    assert_eq!(lex("*7"), Ok(vec![Token::Asterisk, Token::Number(7)]));
    assert_eq!(lex("*("), Ok(vec![Token::Asterisk, Token::LParen]));
    assert_eq!(lex("*x"), Err(LexError { character: 'x' }));
}

#[test]
fn the_first_unaccepted_character_is_reported() {
    assert_eq!(lex("1 + a"), Err(LexError { character: 'a' }));
    assert_eq!(lex("1 ? 2 !"), Err(LexError { character: '?' }));
    assert_eq!(lex("x"), Err(LexError { character: 'x' }));
    assert_eq!(lex("12 ** y ** z"), Err(LexError { character: 'y' }));
}

#[test]
fn tabs_and_newlines_are_not_accepted() {
    assert_eq!(lex("1\t+ 2"), Err(LexError { character: '\t' }));
    assert_eq!(lex("1 +\n2"), Err(LexError { character: '\n' }));
}

#[test]
fn characters_outside_ascii_are_not_accepted() {
    assert_eq!(lex("1 × 2"), Err(LexError { character: '×' }));
    assert_eq!(lex("３"), Err(LexError { character: '３' }));
}

#[test]
fn the_same_text_gives_the_same_tokens() {
    let text = "3 * (2 ** 3) + 1 + 5 ";
    assert_eq!(lex(text), lex(text));
}

#[test]
fn a_long_text_gives_one_token_per_lexeme() {
    let mut text = String::new();
    for _ in 0..50000 {
        text.push_str("12 ** (3) ");
    }
    let tokens = lex(&text).unwrap();
    assert_eq!(tokens.len(), 250000);
    assert_eq!(tokens[0], Token::Number(12));
    assert_eq!(tokens[1], Token::Power);
    assert_eq!(tokens[249999], Token::RParen);
}
