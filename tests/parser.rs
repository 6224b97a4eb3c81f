use shuntingyard::ast::{AstNode, AstType};
use shuntingyard::error::{Expected, ParseError};
use shuntingyard::lexer::{Lexer, Token, TokenType};
use shuntingyard::ops::{assoc, has_greater_prec, is_binary, is_prefix, is_sentinel, prec, Assoc, Op};
use shuntingyard::shuntingyard::parse;

fn num(v: u64, pos: u32) -> AstNode {
    AstNode::new(AstType::Number(v), pos)
}

fn ident(name: &str, pos: u32) -> AstNode {
    AstNode::new(AstType::Ident(name.chars().collect()), pos)
}

fn bin(c: char, l: AstNode, r: AstNode, pos: u32) -> AstNode {
    AstNode::new(AstType::Binary(c, Box::new(l), Box::new(r)), pos)
}

fn neg(x: AstNode, pos: u32) -> AstNode {
    AstNode::new(AstType::Prefix('-', Box::new(x)), pos)
}

fn group(x: AstNode, pos: u32) -> AstNode {
    AstNode::new(AstType::Parens(Box::new(x)), pos)
}

fn tok(typ: TokenType, pos: u32) -> Token {
    Token { typ, pos }
}

#[test]
fn test() {
    let text = "(3*x+4)- 5*x+zy^2^3";
    println!("{}", text);
    println!("{:?}", parse(text).unwrap());
}

#[test]
fn mixed_expression_tree() {
    let t = parse("(3*x+4)- 5*x+zy^2^3").unwrap();
    let inner = bin('+', bin('*', num(3, 1), ident("x", 3), 2), num(4, 5), 4);
    let left = bin('-', group(inner, 0), bin('*', num(5, 9), ident("x", 11), 10), 7);
    let power = bin('^', ident("zy", 13), bin('^', num(2, 16), num(3, 18), 17), 15);
    assert_eq!(t, bin('+', left, power, 12));
}

#[test]
fn multiplication_binds_tighter_than_addition() {
    let t = parse("2+3*4").unwrap();
    assert_eq!(t, bin('+', num(2, 0), bin('*', num(3, 2), num(4, 4), 3), 1));
}

#[test]
fn multiplication_first_then_addition() {
    let t = parse("2*3+4").unwrap();
    assert_eq!(t, bin('+', bin('*', num(2, 0), num(3, 2), 1), num(4, 4), 3));
}

#[test]
fn subtraction_groups_from_the_left() {
    let t = parse("8-3-2").unwrap();
    assert_eq!(t, bin('-', bin('-', num(8, 0), num(3, 2), 1), num(2, 4), 3));
}

#[test]
fn division_and_multiplication_group_from_the_left() {
    let t = parse("8/4*2").unwrap();
    assert_eq!(t, bin('*', bin('/', num(8, 0), num(4, 2), 1), num(2, 4), 3));
}

#[test]
fn power_groups_from_the_right() {
    let t = parse("2^3^2").unwrap();
    assert_eq!(t, bin('^', num(2, 0), bin('^', num(3, 2), num(2, 4), 3), 1));
}

#[test]
fn prefix_minus_yields_to_power() {
    // prefix `-` has precedence 3, below `^` at 4
    let t = parse("-2^2").unwrap();
    assert_eq!(t, neg(bin('^', num(2, 1), num(2, 3), 2), 0));
}

#[test]
fn prefix_minus_binds_tighter_than_product() {
    let t = parse("-2*3").unwrap();
    assert_eq!(t, bin('*', neg(num(2, 1), 0), num(3, 3), 2));
}

#[test]
fn prefixes_nest_to_the_right() {
    let t = parse("--x").unwrap();
    assert_eq!(t, neg(neg(ident("x", 2), 1), 0));
}

#[test]
fn prefix_after_power() {
    let t = parse("2^-3").unwrap();
    assert_eq!(t, bin('^', num(2, 0), neg(num(3, 3), 2), 1));
}

#[test]
fn parentheses_override_precedence() {
    let t = parse("(3+4)*5").unwrap();
    let sum = bin('+', num(3, 1), num(4, 3), 2);
    assert_eq!(t, bin('*', group(sum, 0), num(5, 6), 5));
}

#[test]
fn nested_groups() {
    let t = parse("((x))").unwrap();
    assert_eq!(t, group(group(ident("x", 2), 1), 0));
}

#[test]
fn parsing_twice_gives_the_same_tree() {
    let text = "-(a+2)*b^3^c-4/d";
    assert_eq!(parse(text), parse(text));
    assert!(parse(text).is_ok());
}

#[test]
fn single_number_and_spaces() {
    assert_eq!(parse("  42 ").unwrap(), num(42, 2));
}

#[test]
fn unterminated_group_names_the_missing_paren() {
    assert_eq!(
        parse("(3+4"),
        Err(ParseError::Syntax(Expected::CloseParen, tok(TokenType::End, 4)))
    );
}

#[test]
fn missing_operand_expects_a_primary() {
    assert_eq!(parse("3+"), Err(ParseError::Syntax(Expected::Primary, tok(TokenType::End, 2))));
}

#[test]
fn empty_input_expects_a_primary() {
    assert_eq!(parse(""), Err(ParseError::Syntax(Expected::Primary, tok(TokenType::End, 0))));
}

#[test]
fn trailing_tokens_are_rejected() {
    assert_eq!(
        parse("3+4 5"),
        Err(ParseError::Syntax(Expected::End, tok(TokenType::Number(5), 4)))
    );
}

#[test]
fn trailing_close_paren_is_rejected() {
    assert_eq!(
        parse("3)"),
        Err(ParseError::Syntax(Expected::End, tok(TokenType::OpSingle(')'), 1)))
    );
}

#[test]
fn operator_that_is_not_prefix_is_rejected() {
    assert_eq!(
        parse("3+*4"),
        Err(ParseError::Syntax(Expected::UnaryOperator, tok(TokenType::OpSingle('*'), 2)))
    );
}

#[test]
fn unknown_character_is_a_lexical_error() {
    assert_eq!(parse("3 $"), Err(ParseError::Lex(2)));
    assert_eq!(parse("#"), Err(ParseError::Lex(0)));
}

#[test]
fn syntax_error_comes_before_a_later_lexical_error() {
    assert_eq!(
        parse("3 4 $"),
        Err(ParseError::Syntax(Expected::End, tok(TokenType::Number(4), 2)))
    );
}

#[test]
fn number_too_large_is_a_lexical_error() {
    assert_eq!(parse("1+99999999999999999999"), Err(ParseError::Lex(2)));
    assert_eq!(parse("18446744073709551615").unwrap(), num(u64::MAX, 0));
}

#[test]
fn lexer_splits_tokens() {
    let mut lexer = Lexer::new(" a1+ 23\t(_b)");
    assert_eq!(lexer.next_token(), Ok(tok(TokenType::Ident(vec!['a', '1']), 1)));
    assert_eq!(lexer.next_token(), Ok(tok(TokenType::OpSingle('+'), 3)));
    assert_eq!(lexer.next_token(), Ok(tok(TokenType::Number(23), 5)));
    assert_eq!(lexer.next_token(), Ok(tok(TokenType::OpSingle('('), 8)));
    assert_eq!(lexer.next_token(), Ok(tok(TokenType::Ident(vec!['_', 'b']), 9)));
    assert_eq!(lexer.next_token(), Ok(tok(TokenType::OpSingle(')'), 11)));
    assert_eq!(lexer.next_token(), Ok(tok(TokenType::End, 12)));
    assert_eq!(lexer.next_token(), Ok(tok(TokenType::End, 12)));
}

#[test]
fn precedence_table() {
    assert_eq!(prec(&Op::Sentinel(0)), 0);
    assert_eq!(prec(&Op::Binary('+', 0)), 1);
    assert_eq!(prec(&Op::Binary('-', 0)), 1);
    assert_eq!(prec(&Op::Binary('*', 0)), 2);
    assert_eq!(prec(&Op::Binary('/', 0)), 2);
    assert_eq!(prec(&Op::Prefix('-', 0)), 3);
    assert_eq!(prec(&Op::Binary('^', 0)), 4);
}

#[test]
fn associativity_table() {
    assert_eq!(assoc(&Op::Binary('+', 0)), Assoc::Left);
    assert_eq!(assoc(&Op::Binary('/', 0)), Assoc::Left);
    assert_eq!(assoc(&Op::Binary('^', 0)), Assoc::Right);
}

#[test]
fn reduction_rule() {
    let plus = Op::Binary('+', 0);
    let minus = Op::Binary('-', 0);
    let times = Op::Binary('*', 0);
    let pow = Op::Binary('^', 0);
    let neg = Op::Prefix('-', 0);
    let sentinel = Op::Sentinel(0);
    assert!(has_greater_prec(&times, &plus));
    assert!(!has_greater_prec(&plus, &times));
    assert!(has_greater_prec(&plus, &minus));
    assert!(!has_greater_prec(&pow, &pow));
    assert!(has_greater_prec(&neg, &times));
    assert!(!has_greater_prec(&neg, &pow));
    assert!(!has_greater_prec(&neg, &neg));
    assert!(!has_greater_prec(&sentinel, &plus));
}

#[test]
fn operator_characters() {
    for c in ['+', '-', '*', '/', '^'] {
        assert!(is_binary(c));
    }
    assert!(!is_binary('('));
    assert!(!is_binary('%'));
    assert!(is_prefix('-'));
    assert!(!is_prefix('+'));
    assert!(is_sentinel(&Some(&Op::Sentinel(3))));
    assert!(!is_sentinel(&Some(&Op::Prefix('-', 3))));
    assert!(!is_sentinel(&None));
}

#[test]
fn nesting_up_to_the_limit_parses() {
    let text = format!("{}1{}", "(".repeat(256), ")".repeat(256));
    assert!(parse(&text).is_ok());
    let text = format!("{}1", "-".repeat(256));
    assert!(parse(&text).is_ok());
}

#[test]
fn nesting_past_the_limit_fails_cleanly() {
    let text = format!("{}1{}", "(".repeat(300), ")".repeat(300));
    assert_eq!(parse(&text), Err(ParseError::TooDeep(256)));
    let text = format!("{}1", "-".repeat(300));
    assert_eq!(parse(&text), Err(ParseError::TooDeep(256)));
}
