use expr_ast::ast::{AstParser, Expression};
use expr_ast::common::{ParseError, ScanError, UToken, UTokenType};
use expr_ast::scanner::ExprScanner;

fn tokens(s: &str) -> Vec<UToken> {
    let sc = ExprScanner {};
    sc.parse(s.to_string()).expect("scan")
}

fn parse_str(s: &str) -> Result<Expression, ParseError> {
    let mut p = AstParser::new();
    p.parse_fun(tokens(s))
}

fn literal(e: &Expression) -> String {
    match e {
        Expression::NumberLiteral { token } => token._val.clone().expect("payload"),
        _ => panic!("not a literal"),
    }
}

fn binary(e: &Expression) -> (&Expression, UTokenType, &Expression) {
    match e {
        Expression::BinaryExpression { left, right, token } => (left, token._type, right),
        _ => panic!("not a binary node"),
    }
}

fn inner(e: &Expression) -> &Expression {
    match e {
        Expression::GroupingExpression { expression } => expression,
        _ => panic!("not a grouping"),
    }
}

/// Renders a tree fully parenthesised, groups as `[..]`.
fn render(e: &Expression) -> String {
    match e {
        Expression::NumberLiteral { token } => token._val.clone().unwrap(),
        Expression::BinaryExpression { left, right, token } => {
            format!("({}{}{})", render(left), token._type.text(), render(right))
        }
        Expression::GroupingExpression { expression } => format!("[{}]", render(expression)),
    }
}

#[test]
fn single_digit_run_is_one_number() {
    let t = tokens("12345");
    assert_eq!(t.len(), 1);
    assert_eq!(t[0]._type, UTokenType::Number);
    assert_eq!(t[0]._val, Some("12345".to_string()));
    let e = parse_str("12345").unwrap();
    assert_eq!(literal(&e), "12345");
}

#[test]
fn scanner_keeps_whole_digit_runs() {
    let t = tokens("12+(305)");
    let kinds: Vec<UTokenType> = t.iter().map(|x| x._type).collect();
    assert_eq!(
        kinds,
        vec![UTokenType::Number, UTokenType::Plus, UTokenType::Left, UTokenType::Number, UTokenType::Right]
    );
    assert_eq!(t[0]._val, Some("12".to_string()));
    assert_eq!(t[3]._val, Some("305".to_string()));
    assert_eq!(t[1]._val, None);
}

#[test]
fn scanner_maps_every_operator() {
    let t = tokens("+-*/()^");
    let kinds: Vec<UTokenType> = t.iter().map(|x| x._type).collect();
    assert_eq!(
        kinds,
        vec![
            UTokenType::Plus,
            UTokenType::Minus,
            UTokenType::Star,
            UTokenType::Div,
            UTokenType::Left,
            UTokenType::Right,
            UTokenType::Pow
        ]
    );
}

#[test]
fn largest_number_is_accepted() {
    let t = tokens("2147483647");
    assert_eq!(t[0]._val, Some("2147483647".to_string()));
}

#[test]
fn long_digit_runs_are_single_numbers() {
    let t = tokens("2147483648");
    assert_eq!(t.len(), 1);
    assert_eq!(t[0]._type, UTokenType::Number);
    assert_eq!(t[0]._val, Some("2147483648".to_string()));
    let u = tokens("1+99999999999999999999");
    assert_eq!(u.len(), 3);
    assert_eq!(u[2]._val, Some("99999999999999999999".to_string()));
    assert_eq!(literal(&parse_str("2147483648").unwrap()), "2147483648");
}

#[test]
fn multibyte_character_is_unrecognized() {
    let sc = ExprScanner {};
    assert_eq!(sc.parse("1+\u{e9}".to_string()).unwrap_err(), ScanError::UnrecognizedCharacter);
    assert_eq!(sc.parse("12345678901234567890\u{20ac}".to_string()).unwrap_err(), ScanError::UnrecognizedCharacter);
}

#[test]
fn leftover_tokens_are_rejected() {
    assert_eq!(parse_str("(1+2)3").unwrap_err(), ParseError::UnexpectedToken);
    assert_eq!(parse_str("1)").unwrap_err(), ParseError::UnexpectedToken);
}

#[test]
fn parenthesised_expression_is_a_grouping() {
    let e = parse_str("(1+2)").unwrap();
    let (l, op, r) = binary(inner(&e));
    assert_eq!(op, UTokenType::Plus);
    assert_eq!(literal(l), "1");
    assert_eq!(literal(r), "2");
}

#[test]
fn unbalanced_parentheses_fail() {
    assert_eq!(parse_str("(1+2").unwrap_err(), ParseError::UnexpectedToken);
    assert_eq!(parse_str("1+2)").unwrap_err(), ParseError::UnexpectedToken);
}

#[test]
fn subtraction_is_left_associative() {
    let e = parse_str("1-2-3").unwrap();
    let (l, op, r) = binary(&e);
    assert_eq!(op, UTokenType::Minus);
    assert_eq!(literal(r), "3");
    let (ll, lop, lr) = binary(l);
    assert_eq!(lop, UTokenType::Minus);
    assert_eq!(literal(ll), "1");
    assert_eq!(literal(lr), "2");
}

#[test]
fn multiplication_binds_tighter_than_addition() {
    let e = parse_str("2+3*5").unwrap();
    let (l, op, r) = binary(&e);
    assert_eq!(op, UTokenType::Plus);
    assert_eq!(literal(l), "2");
    let (rl, rop, rr) = binary(r);
    assert_eq!(rop, UTokenType::Star);
    assert_eq!(literal(rl), "3");
    assert_eq!(literal(rr), "5");
}

#[test]
fn power_binds_tighter_than_multiplication() {
    let e = parse_str("2*3^2/4").unwrap();
    assert_eq!(render(&e), "((2*(3^2))/4)");
}

#[test]
fn empty_input() {
    let sc = ExprScanner {};
    assert!(sc.parse(String::new()).unwrap().is_empty());
    let mut p = AstParser::new();
    assert_eq!(p.parse_fun(vec![]).unwrap_err(), ParseError::UnexpectedToken);
}

#[test]
fn invalid_character() {
    let sc = ExprScanner {};
    assert_eq!(sc.parse("2&3".to_string()).unwrap_err(), ScanError::UnrecognizedCharacter);
    assert_eq!(sc.parse("1 + 2".to_string()).unwrap_err(), ScanError::UnrecognizedCharacter);
}

#[test]
fn full_example_parses() {
    let e = parse_str("((4+5))*1+7*3+2^3").unwrap();
    assert_eq!(render(&e), "((([[(4+5)]]*1)+(7*3))+(2^3))");
}

#[test]
fn operator_without_operand_fails() {
    assert_eq!(parse_str("1+").unwrap_err(), ParseError::UnexpectedToken);
    assert_eq!(parse_str("*2").unwrap_err(), ParseError::UnexpectedToken);
    assert_eq!(parse_str("()").unwrap_err(), ParseError::UnexpectedToken);
}

#[test]
fn nesting_past_limit_is_too_deep() {
    let mut p = AstParser::with_max_depth(1);
    assert!(p.parse_fun(tokens("(1)")).is_ok());
    let mut q = AstParser::with_max_depth(1);
    assert_eq!(q.parse_fun(tokens("((1))")).unwrap_err(), ParseError::TooDeep);
    let deep = format!("{}1{}", "(".repeat(300), ")".repeat(300));
    assert_eq!(parse_str(&deep).unwrap_err(), ParseError::TooDeep);
    let ok = format!("{}1{}", "(".repeat(100), ")".repeat(100));
    assert!(parse_str(&ok).is_ok());
}

#[test]
fn parser_is_reusable() {
    let mut p = AstParser::new();
    assert!(p.parse_fun(tokens("1+")).is_err());
    let e = p.parse_fun(tokens("7")).unwrap();
    assert_eq!(literal(&e), "7");
}

#[test]
fn node_descriptions() {
    let e = parse_str("(7)+8").unwrap();
    assert_eq!(e.get_desc(), "BinaryExpression: +");
    let l = e.get_left().unwrap();
    assert_eq!(l.get_desc(), "GroupingExpression");
    assert!(l.get_left().is_none());
    let li = l.get_right().unwrap();
    assert_eq!(li.get_desc(), "NumberLiteral:7");
    assert!(li.get_left().is_none() && li.get_right().is_none());
    assert_eq!(e.get_right().unwrap().get_desc(), "NumberLiteral:8");
}

#[test]
fn token_texts() {
    assert_eq!(UTokenType::Number.text(), "num");
    assert_eq!(UTokenType::Div.text(), "/");
    assert_eq!(UTokenType::Pow.text(), "^");
}

#[test]
fn token_constructors() {
    let t = UToken::new(UTokenType::Plus);
    assert_eq!(t._type, UTokenType::Plus);
    assert!(t._val.is_none());
    let n = UToken::number("42".to_string());
    let d = n.duplicate();
    assert_eq!(d._type, UTokenType::Number);
    assert_eq!(d._val, Some("42".to_string()));
}

#[test]
fn hand_built_tokens_parse() {
    let toks = vec![
        UToken::number("1".to_string()),
        UToken::new(UTokenType::Star),
        UToken::new(UTokenType::Left),
        UToken::number("2".to_string()),
        UToken::new(UTokenType::Minus),
        UToken::number("3".to_string()),
        UToken::new(UTokenType::Right),
    ];
    let mut p = AstParser::new();
    let e = p.parse_fun(toks).unwrap();
    assert_eq!(render(&e), "(1*[(2-3)])");
}

#[test]
fn parenthesised_text_adds_two_tokens() {
    let inner_toks = tokens("12+3");
    let outer = tokens("(12+3)");
    assert_eq!(outer.len(), inner_toks.len() + 2);
    assert_eq!(outer[0]._type, UTokenType::Left);
    assert_eq!(outer[outer.len() - 1]._type, UTokenType::Right);
    for (a, b) in inner_toks.iter().zip(outer[1..outer.len() - 1].iter()) {
        assert_eq!(a._type, b._type);
        assert_eq!(a._val, b._val);
    }
    let e = parse_str("(12+3)").unwrap();
    assert_eq!(render(inner(&e)), render(&parse_str("12+3").unwrap()));
}

#[test]
fn digit_run_followed_by_operator() {
    let t = tokens("123+4");
    assert_eq!(t.len(), 3);
    assert_eq!(t[0]._val, Some("123".to_string()));
    assert_eq!(t[1]._type, UTokenType::Plus);
    assert_eq!(t[2]._val, Some("4".to_string()));
}

#[test]
fn additive_chain_with_groups_groups_left() {
    let e = parse_str("(1*2)+3-4/5").unwrap();
    assert_eq!(render(&e), "(([(1*2)]+3)-(4/5))");
}
