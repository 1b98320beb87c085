use thegrep::tokenizer::{Token, Tokenizer};

#[test]
fn empty() {
    let mut tokens = Tokenizer::new("");
    assert_eq!(tokens.next(), None);
    assert_eq!(tokens.next(), None);
}

#[test]
fn tokenizer_lparen() {
    let mut tokens = Tokenizer::new("(");
    assert_eq!(tokens.next(), Some(Token::LParen));
    assert_eq!(tokens.next(), None);

    let mut token = Tokenizer::new("(");
    assert_eq!(token.lex_lparen(), Token::LParen);
}

#[test]
fn tokenizer_rparen() {
    let mut tokens = Tokenizer::new(")");
    assert_eq!(tokens.next(), Some(Token::RParen));
    assert_eq!(tokens.next(), None);

    let mut token = Tokenizer::new(")");
    assert_eq!(token.lex_rparen(), Token::RParen);
}

#[test]
fn tokenizer_unionbar() {
    let mut tokens = Tokenizer::new("|");
    assert_eq!(tokens.next(), Some(Token::UnionBar));
    assert_eq!(tokens.next(), None);

    let mut token = Tokenizer::new("|");
    assert_eq!(token.lex_unionbar(), Token::UnionBar);
}

#[test]
fn tokenizer_kleenestar() {
    let mut tokens = Tokenizer::new("*");
    assert_eq!(tokens.next(), Some(Token::KleeneStar));
    assert_eq!(tokens.next(), None);

    let mut token = Tokenizer::new("*");
    assert_eq!(token.lex_kleenestar(), Token::KleeneStar);
}

#[test]
fn tokenizer_anychar() {
    let mut tokens = Tokenizer::new(".");
    assert_eq!(tokens.next(), Some(Token::AnyChar));
    assert_eq!(tokens.next(), None);

    let mut token = Tokenizer::new(".");
    assert_eq!(token.lex_anychar(), Token::AnyChar);
}

#[test]
fn tokenizer_char() {
    let mut tokens = Tokenizer::new("m");
    assert_eq!(tokens.next(), Some(Token::Char('m')));
    assert_eq!(tokens.next(), None);

    let mut token = Tokenizer::new("a");
    assert_eq!(token.lex_char(), Token::Char('a'));
}

#[test]
fn tokenizer_kleeneplus() {
    let mut tokens = Tokenizer::new("+");
    assert_eq!(tokens.next(), Some(Token::KleenePlus));
    assert_eq!(tokens.next(), None);

    let mut token = Tokenizer::new("+");
    assert_eq!(token.lex_kleeneplus(), Token::KleenePlus);
}

#[test]
fn lex_phrase() {
    let mut tokens = Tokenizer::new("(2.\n*a)\n|b+");
    assert_eq!(tokens.next(), Some(Token::LParen));
    assert_eq!(tokens.next(), Some(Token::Char('2')));
    assert_eq!(tokens.next(), Some(Token::AnyChar));
    assert_eq!(tokens.next(), Some(Token::Char('\n')));
    assert_eq!(tokens.next(), Some(Token::KleeneStar));
    assert_eq!(tokens.next(), Some(Token::Char('a')));
    assert_eq!(tokens.next(), Some(Token::RParen));
    assert_eq!(tokens.next(), Some(Token::Char('\n')));
    assert_eq!(tokens.next(), Some(Token::UnionBar));
    assert_eq!(tokens.next(), Some(Token::Char('b')));
    assert_eq!(tokens.next(), Some(Token::KleenePlus));
    assert_eq!(tokens.next(), None);
}

#[test]
fn tabs_and_newlines_are_literals_and_end_is_sticky() {
    let mut tokens = Tokenizer::new("\ta\n");
    assert_eq!(tokens.next(), Some(Token::Char('\t')));
    assert_eq!(tokens.next(), Some(Token::Char('a')));
    assert_eq!(tokens.next(), Some(Token::Char('\n')));
    assert_eq!(tokens.next(), None);
    assert_eq!(tokens.next(), None);
    let mut tokens = Tokenizer::new(" ");
    assert_eq!(tokens.next(), Some(Token::Char(' ')));
}

#[test]
fn token_descriptions() {
    assert_eq!(Token::RParen.describe(), "RParen");
    assert_eq!(Token::Char('a').describe(), "Char('a')");
    assert_eq!(Token::Char('\n').describe(), "Char('\\n')");
    assert_eq!(Token::Char('\'').describe(), "Char('\\'')");
    assert_eq!(Token::Char('a').describe(), format!("{:?}", Token::Char('a')));
    assert_eq!(Token::Char('\t').describe(), format!("{:?}", Token::Char('\t')));
}
