#![allow(non_snake_case)]
use thegrep::parser::{
    create_alternation, create_any_char, create_catenation, create_char, create_closure,
    create_one_or_more, Parser,
};
use thegrep::tokenizer::Tokenizer;

#[test]
fn parse_char() {
    let parsed = Parser::parse(Tokenizer::new("a")).unwrap();
    assert_eq!(parsed, create_char('a'));
}

#[test]
fn parse_catenation() {
    let parsed = Parser::parse(Tokenizer::new("ab")).unwrap();
    assert_eq!(
        parsed,
        create_catenation(create_char('a'), create_char('b'))
    );
}

#[test]
fn parse_closure() {
    let parsed = Parser::parse(Tokenizer::new("a.*")).unwrap();
    assert_eq!(
        parsed,
        create_catenation(create_char('a'), create_closure(create_any_char()))
    );
}

#[test]
fn parse_alternation() {
    let parsed = Parser::parse(Tokenizer::new("a|b")).unwrap();
    assert_eq!(
        parsed,
        create_alternation(create_char('a'), create_char('b'))
    );
}

#[test]
fn parse_any_char() {
    let parsed = Parser::parse(Tokenizer::new(".")).unwrap();
    assert_eq!(parsed, create_any_char());
}

#[test]
fn parse_oneOrMore() {
    let parsed = Parser::parse(Tokenizer::new("a+")).unwrap();
    assert_eq!(parsed, create_one_or_more(create_char('a')));
}

#[test]
fn parse_all() {
    let parsed = Parser::parse(Tokenizer::new("ab|c+d*(e.)")).unwrap();
    assert_eq!(
        parsed,
        create_alternation(
            create_catenation(create_char('a'), create_char('b')),
            create_catenation(
                create_one_or_more(create_char('c')),
                create_catenation(
                    create_closure(create_char('d')),
                    create_catenation(create_char('e'), create_any_char())
                )
            )
        )
    );
}

#[test]
fn reg_expr() {
    assert_eq!(Parser::from("a").reg_expr().unwrap(), create_char('a'));
}

#[test]
fn union_bar_fail() {
    assert_eq!(
        Parser::from("a|").reg_expr(),
        Err(format!("Unexpected end of input"))
    );
}

#[test]
fn closure() {
    assert_eq!(
        Parser::from("a*").closure().unwrap(),
        create_closure(create_char('a'))
    );
}

#[test]
fn one_more() {
    assert_eq!(
        Parser::from("a+").closure().unwrap(),
        create_one_or_more(create_char('a'))
    );
}

#[test]
fn no_closure() {
    assert_eq!(Parser::from("a").closure().unwrap(), create_char('a'));
}

#[test]
fn atom() {
    assert_eq!(
        Parser::from("(ab)").atom().unwrap(),
        create_catenation(create_char('a'), create_char('b'))
    );
    assert_eq!(Parser::from(".").atom().unwrap(), create_any_char());
    assert_eq!(Parser::from("a").atom().unwrap(), create_char('a'));
}

#[test]
fn catenation() {
    assert_eq!(
        Parser::from("a*cb").catenation().unwrap(),
        create_catenation(
            create_closure(create_char('a')),
            create_catenation(create_char('c'), create_char('b'))
        )
    )
}

#[test]
fn rparen_fail() {
    assert_eq!(
        Parser::from("(a").atom(),
        Err(format!("Unexpected end of input"))
    );
}

#[test]
fn parse_rejects_bad_patterns() {
    assert!(Parser::parse(Tokenizer::new("")).is_err());
    assert!(Parser::parse(Tokenizer::new("a)")).is_err());
    assert!(Parser::parse(Tokenizer::new("*a")).is_err());
    assert!(Parser::parse(Tokenizer::new("a**")).is_err());
    assert!(Parser::parse(Tokenizer::new("(a|b")).is_err());
}

#[test]
fn parse_nested_groups() {
    let parsed = Parser::parse(Tokenizer::new("((a))*")).unwrap();
    assert_eq!(parsed, create_closure(create_char('a')));
}

#[test]
fn parse_error_messages() {
    assert_eq!(
        Parser::parse(Tokenizer::new("a)")),
        Err("Expected end of input, found RParen".to_string())
    );
    assert_eq!(
        Parser::parse(Tokenizer::new("")),
        Err("Unexpected end of input".to_string())
    );
    assert_eq!(
        Parser::parse(Tokenizer::new("(a")),
        Err("Unexpected end of input".to_string())
    );
    assert_eq!(
        Parser::parse(Tokenizer::new("a|")),
        Err("Unexpected end of input".to_string())
    );
    assert_eq!(
        Parser::parse(Tokenizer::new("*a")),
        Err("Unexpected atom encountered".to_string())
    );
}

#[test]
fn missing_right_paren_reports_found_token() {
    assert_eq!(
        Parser::from("(ab|c").atom(),
        Err("Unexpected end of input".to_string())
    );
    let mut p = Parser::from("(a)");
    assert_eq!(p.atom(), Ok(create_char('a')));
}
