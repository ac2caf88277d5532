use regex_engine::engine::parser::{parse, Ast, ParseError};

#[test]
fn test_parse() {
    let expr = "a|b|c";
    let ast = parse(expr).unwrap();
    assert_eq!(
        ast,
        Ast::Or(
            Box::new(Ast::Or(Box::new(Ast::Char('a')), Box::new(Ast::Char('b')))),
            Box::new(Ast::Char('c'))
        )
    );

    let expr = "a|b|c|";
    let ast = parse(expr);
    assert!(ast.is_err());

    let expr = "a|b|c|d";
    let ast = parse(expr).unwrap();
    assert_eq!(
        ast,
        Ast::Or(
            Box::new(Ast::Or(
                Box::new(Ast::Or(Box::new(Ast::Char('a')), Box::new(Ast::Char('b')))),
                Box::new(Ast::Char('c'))
            )),
            Box::new(Ast::Char('d'))
        )
    );

    let expr = "a|b|c|d|";
    let ast = parse(expr);
    assert!(ast.is_err());

    let expr = "a|b|c|d|e";
    let ast = parse(expr).unwrap();
    assert_eq!(
        ast,
        Ast::Or(
            Box::new(Ast::Or(
                Box::new(Ast::Or(
                    Box::new(Ast::Or(Box::new(Ast::Char('a')), Box::new(Ast::Char('b')))),
                    Box::new(Ast::Char('c'))
                )),
                Box::new(Ast::Char('d')),
            )),
            Box::new(Ast::Char('e')),
        )
    );

    let expr = "a|b|c|d|e|";
    let ast = parse(expr);
    assert!(ast.is_err());
}

#[test]
fn test_trailing_alternation_reports_no_operand() {
    assert_eq!(parse("a|b|c|"), Err(ParseError::NoOperand(6)));
    assert_eq!(parse("a|b|c|d|"), Err(ParseError::NoOperand(8)));
    assert_eq!(parse("a|b|c|d|e|"), Err(ParseError::NoOperand(10)));
}

#[test]
fn test_invalid_escape_carries_position_and_character() {
    assert_eq!(parse("ab\\cd"), Err(ParseError::InvalidEscape(3, 'c')));
    assert_eq!(parse("\\x"), Err(ParseError::InvalidEscape(1, 'x')));
}

#[test]
fn test_escape_of_metacharacters() {
    let ast = parse("a\\+b").unwrap();
    assert_eq!(
        ast,
        Ast::Concat(vec![Ast::Char('a'), Ast::Char('+'), Ast::Char('b')])
    );
    assert_eq!(parse("\\\\").unwrap(), Ast::Char('\\'));
}

#[test]
fn test_unclosed_group_is_rejected() {
    assert_eq!(parse("(ab"), Err(ParseError::NoRightParen));
    assert_eq!(parse("a(b(c)"), Err(ParseError::NoRightParen));
}

#[test]
fn test_empty_pattern_is_rejected() {
    assert_eq!(parse(""), Err(ParseError::Empty));
    assert_eq!(parse(")"), Err(ParseError::Empty));
}

#[test]
fn test_quantifier_without_operand_is_rejected() {
    assert_eq!(parse("+"), Err(ParseError::NoOperand(0)));
    assert_eq!(parse("a|*"), Err(ParseError::NoOperand(2)));
    assert_eq!(parse("(?)"), Err(ParseError::NoOperand(1)));
}

#[test]
fn test_unmatched_right_paren_is_tolerated() {
    let ast = parse("a)b").unwrap();
    assert_eq!(ast, Ast::Concat(vec![Ast::Char('a'), Ast::Char('b')]));
}

#[test]
fn test_empty_group() {
    assert_eq!(parse("()").unwrap(), Ast::Concat(vec![]));
    assert_eq!(parse("a|()"), Err(ParseError::NoOperand(4)));
}

#[test]
fn test_group_structure() {
    let ast = parse("(ab)*").unwrap();
    assert_eq!(
        ast,
        Ast::Star(Box::new(Ast::Concat(vec![
            Ast::Char('a'),
            Ast::Char('b')
        ])))
    );
}
