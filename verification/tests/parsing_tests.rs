use regex_fa::parsing::{add_operator, precedence, tokens_to_postfix, ExprUnit, OpStkItem, RegexOp, SyntaxError};
use regex_fa::tokens::{RegexTokenizer, Token};
use regex_fa::get_debug_postexpr_string;

fn postfix_of(expr: &str) -> Result<Vec<ExprUnit>, SyntaxError> {
    let mut tokens = RegexTokenizer::from_string(expr);
    tokens_to_postfix(&mut tokens)
}

#[test]
fn tokenizer_maps_each_character() {
    let mut t = RegexTokenizer::from_string("a*|()\\b");
    assert_eq!(t.next(), Some(Token::Char('a')));
    assert_eq!(t.next(), Some(Token::Star));
    assert_eq!(t.next(), Some(Token::Pipe));
    assert_eq!(t.next(), Some(Token::OpenParens));
    assert_eq!(t.next(), Some(Token::CloseParens));
    assert_eq!(t.next(), Some(Token::Backslash));
    assert_eq!(t.next(), Some(Token::Char('b')));
    assert_eq!(t.next(), None);
    assert_eq!(t.next(), None);
}

#[test]
fn postfix_of_union() {
    let p = postfix_of("a|b").unwrap();
    assert_eq!(
        p,
        vec![
            ExprUnit::Char('a'),
            ExprUnit::Char('b'),
            ExprUnit::Op(RegexOp::Union)
        ]
    );
}

#[test]
fn postfix_of_concat_star() {
    let p = postfix_of("ab*").unwrap();
    assert_eq!(
        p,
        vec![
            ExprUnit::Char('a'),
            ExprUnit::Char('b'),
            ExprUnit::Op(RegexOp::Star),
            ExprUnit::Op(RegexOp::Concat)
        ]
    );
}

#[test]
fn postfix_respects_precedence() {
    let p = postfix_of("a|bc").unwrap();
    assert_eq!(
        p,
        vec![
            ExprUnit::Char('a'),
            ExprUnit::Char('b'),
            ExprUnit::Char('c'),
            ExprUnit::Op(RegexOp::Concat),
            ExprUnit::Op(RegexOp::Union)
        ]
    );
}

#[test]
fn postfix_respects_parentheses() {
    let p = postfix_of("(a|b)c").unwrap();
    assert_eq!(
        p,
        vec![
            ExprUnit::Char('a'),
            ExprUnit::Char('b'),
            ExprUnit::Op(RegexOp::Union),
            ExprUnit::Char('c'),
            ExprUnit::Op(RegexOp::Concat)
        ]
    );
}

#[test]
fn backslash_is_a_literal_backslash() {
    let p = postfix_of("a\\").unwrap();
    assert_eq!(
        p,
        vec![
            ExprUnit::Char('a'),
            ExprUnit::Char('\\'),
            ExprUnit::Op(RegexOp::Concat)
        ]
    );
}

#[test]
fn empty_input_gives_empty_postfix() {
    let p = postfix_of("").unwrap();
    assert_eq!(p, vec![]);
}

#[test]
fn star_without_operand_is_rejected() {
    assert_eq!(postfix_of("*ab"), Err(SyntaxError::StarAfterOperator));
}

#[test]
fn pipe_without_operand_is_rejected() {
    assert_eq!(postfix_of("|a"), Err(SyntaxError::PipeAfterOperator));
}

#[test]
fn unbalanced_open_is_rejected() {
    assert_eq!(postfix_of("(ab"), Err(SyntaxError::InbalancedOpenParens));
}

#[test]
fn unbalanced_close_is_rejected() {
    assert_eq!(postfix_of("ab)"), Err(SyntaxError::InbalancedCloseParens));
}

#[test]
fn close_after_operator_is_rejected() {
    assert_eq!(postfix_of("(a|)"), Err(SyntaxError::CloseParensIncomplete));
}

#[test]
fn error_messages_are_descriptive() {
    assert_eq!(
        SyntaxError::StarAfterOperator.message(),
        "Invalid expression: star after operator"
    );
    assert_eq!(
        SyntaxError::InbalancedOpenParens.message(),
        "Invalid expression: Inbalanced open parantheses"
    );
}

#[test]
fn debug_postexpr_string_formats_ok_case() {
    assert_eq!(
        get_debug_postexpr_string("a|b"),
        "Ok([Char('a'), Char('b'), Op(Union)])"
    );
    assert_eq!(get_debug_postexpr_string(""), "Ok([])");
}

#[test]
fn debug_postexpr_string_formats_err_case() {
    assert_eq!(
        get_debug_postexpr_string("*"),
        "Err(Invalid expression: star after operator)"
    );
}

#[test]
fn precedence_orders_the_operators() {
    assert!(precedence(&RegexOp::Union) < precedence(&RegexOp::Concat));
    assert!(precedence(&RegexOp::Concat) < precedence(&RegexOp::Star));
    assert_eq!(precedence(&RegexOp::Union), 1);
}

#[test]
fn add_operator_pops_higher_precedence() {
    let mut post: Vec<ExprUnit> = vec![ExprUnit::Char('a'), ExprUnit::Char('b')];
    let mut stk: Vec<OpStkItem> = vec![OpStkItem::Op(RegexOp::Concat)];
    add_operator(&mut post, &mut stk, RegexOp::Union);
    assert_eq!(
        post,
        vec![
            ExprUnit::Char('a'),
            ExprUnit::Char('b'),
            ExprUnit::Op(RegexOp::Concat)
        ]
    );
    assert_eq!(stk, vec![OpStkItem::Op(RegexOp::Union)]);
}
