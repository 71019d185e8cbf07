//! The postfix parser: an operator-precedence (shunting-yard) conversion
//! of the token stream into reverse Polish form.

use crate::tokens::{spec_token_of, RegexTokenizer, Token};
use vstd::prelude::*;

verus! {

/// An operator of the regular-expression language.
#[derive(Clone, Copy, Debug, PartialEq, Eq, Structural)]
pub enum RegexOp {
    Union,
    Star,
    Concat,
}

/// What the operator stack of the postfix parser holds: an operator, or the
/// marker left by an open parenthesis.
#[derive(Clone, Copy, Debug, PartialEq, Eq, Structural)]
pub enum OpStkItem {
    Op(RegexOp),
    Parens,
}

/// One element of a postfix (reverse Polish) expression: a literal character
/// or an operator.
#[derive(Clone, Copy, Debug, PartialEq, Eq, Structural)]
pub enum ExprUnit {
    Char(char),
    Op(RegexOp),
}

/// The reasons the postfix parser rejects an expression.
#[derive(Clone, Copy, Debug, PartialEq, Eq, Structural)]
pub enum SyntaxError {
    /// A `*` that does not follow a completed operand.
    StarAfterOperator,
    /// A `|` that does not follow a completed operand.
    PipeAfterOperator,
    /// A `)` that does not follow a completed operand.
    CloseParensIncomplete,
    /// A `)` with no matching `(`.
    InbalancedCloseParens,
    /// A `(` left unclosed at the end of the input.
    InbalancedOpenParens,
}

impl SyntaxError {
    /// The descriptive text carried by each failure reason.
    pub open spec fn spec_message(self) -> Seq<char> {
        match self {
            SyntaxError::StarAfterOperator => "Invalid expression: star after operator"@,
            SyntaxError::PipeAfterOperator => "Invalid expression: pipe after operator"@,
            SyntaxError::CloseParensIncomplete => "Invalid expression: Closed parentheses on incomplete expression"@,
            SyntaxError::InbalancedCloseParens => "Invalid expression: Inbalanced closed parentheses"@,
            SyntaxError::InbalancedOpenParens => "Invalid expression: Inbalanced open parantheses"@,
        }
    }

    /// Returns the descriptive text for this failure reason.
    pub fn message(&self) -> (r: &'static str)
        ensures
            r@ == self.spec_message(),
    {
        match self {
            SyntaxError::StarAfterOperator => "Invalid expression: star after operator",
            SyntaxError::PipeAfterOperator => "Invalid expression: pipe after operator",
            SyntaxError::CloseParensIncomplete => "Invalid expression: Closed parentheses on incomplete expression",
            SyntaxError::InbalancedCloseParens => "Invalid expression: Inbalanced closed parentheses",
            SyntaxError::InbalancedOpenParens => "Invalid expression: Inbalanced open parantheses",
        }
    }
}

/// Operator precedence: union binds loosest, star tightest.
pub open spec fn spec_precedence(op: RegexOp) -> int {
    match op {
        RegexOp::Union => 1,
        RegexOp::Concat => 2,
        RegexOp::Star => 3,
    }
}

/// Returns the precedence of `op`.
pub fn precedence(op: &RegexOp) -> (r: i32)
    ensures
        r as int == spec_precedence(*op),
{
    match op {
        RegexOp::Union => 1,
        RegexOp::Concat => 2,
        RegexOp::Star => 3,
    }
}

/// The effect of pushing operator `op` onto the operator stack: every
/// stacked operator of precedence not less than `op`'s is first popped and
/// emitted to the postfix output, then `op` is pushed.
pub open spec fn spec_add_operator(
    post: Seq<ExprUnit>,
    stk: Seq<OpStkItem>,
    op: RegexOp,
) -> (Seq<ExprUnit>, Seq<OpStkItem>)
    decreases stk.len(),
{
    if stk.len() > 0 {
        match stk.last() {
            OpStkItem::Op(top) => {
                if spec_precedence(top) >= spec_precedence(op) {
                    spec_add_operator(post.push(ExprUnit::Op(top)), stk.drop_last(), op)
                } else {
                    (post, stk.push(OpStkItem::Op(op)))
                }
            },
            OpStkItem::Parens => (post, stk.push(OpStkItem::Op(op))),
        }
    } else {
        (post, stk.push(OpStkItem::Op(op)))
    }
}

/// Pops and emits operator `op` as the shunting-yard algorithm does.
pub fn add_operator(post_expr: &mut Vec<ExprUnit>, op_stk: &mut Vec<OpStkItem>, op: RegexOp)
    ensures
        (final(post_expr)@, final(op_stk)@) == spec_add_operator(
            old(post_expr)@,
            old(op_stk)@,
            op,
        ),
        final(post_expr)@.len() + final(op_stk)@.len() == old(post_expr)@.len() + old(
            op_stk,
        )@.len() + 1,
{
    loop
        invariant
            post_expr@.len() + op_stk@.len() == old(post_expr)@.len() + old(op_stk)@.len(),
            spec_add_operator(post_expr@, op_stk@, op) == spec_add_operator(
                old(post_expr)@,
                old(op_stk)@,
                op,
            ),
        ensures
            post_expr@.len() + op_stk@.len() == old(post_expr)@.len() + old(op_stk)@.len(),
            spec_add_operator(post_expr@, op_stk@, op) == spec_add_operator(
                old(post_expr)@,
                old(op_stk)@,
                op,
            ),
            op_stk@.len() > 0 ==> match op_stk@.last() {
                OpStkItem::Op(t) => spec_precedence(t) < spec_precedence(op),
                OpStkItem::Parens => true,
            },
        decreases op_stk@.len(),
    {
        let l = op_stk.len();
        if l == 0 {
            break;
        }
        match op_stk[l - 1] {
            OpStkItem::Op(stk_op) => {
                if precedence(&stk_op) < precedence(&op) {
                    break;
                }
                op_stk.pop();
                post_expr.push(ExprUnit::Op(stk_op));
            },
            OpStkItem::Parens => {
                break;
            },
        }
    }
    op_stk.push(OpStkItem::Op(op));
}

/// Pops and emits every operator above the topmost parenthesis marker (or
/// the whole stack, if no marker is left).
pub open spec fn spec_drain_ops(
    post: Seq<ExprUnit>,
    stk: Seq<OpStkItem>,
) -> (Seq<ExprUnit>, Seq<OpStkItem>)
    decreases stk.len(),
{
    if stk.len() > 0 {
        match stk.last() {
            OpStkItem::Op(top) => spec_drain_ops(post.push(ExprUnit::Op(top)), stk.drop_last()),
            OpStkItem::Parens => (post, stk),
        }
    } else {
        (post, stk)
    }
}

fn drain_ops(post_expr: &mut Vec<ExprUnit>, op_stk: &mut Vec<OpStkItem>)
    ensures
        (final(post_expr)@, final(op_stk)@) == spec_drain_ops(old(post_expr)@, old(op_stk)@),
        final(op_stk)@.len() > 0 ==> final(op_stk)@.last() == OpStkItem::Parens,
        final(post_expr)@.len() + final(op_stk)@.len() == old(post_expr)@.len() + old(
            op_stk,
        )@.len(),
{
    loop
        invariant
            post_expr@.len() + op_stk@.len() == old(post_expr)@.len() + old(op_stk)@.len(),
            spec_drain_ops(post_expr@, op_stk@) == spec_drain_ops(old(post_expr)@, old(op_stk)@),
        ensures
            post_expr@.len() + op_stk@.len() == old(post_expr)@.len() + old(op_stk)@.len(),
            spec_drain_ops(post_expr@, op_stk@) == spec_drain_ops(old(post_expr)@, old(op_stk)@),
            op_stk@.len() > 0 ==> op_stk@.last() == OpStkItem::Parens,
        decreases op_stk@.len(),
    {
        let l = op_stk.len();
        if l == 0 {
            break;
        }
        match op_stk[l - 1] {
            OpStkItem::Op(stk_op) => {
                op_stk.pop();
                post_expr.push(ExprUnit::Op(stk_op));
            },
            OpStkItem::Parens => {
                break;
            },
        }
    }
}

/// The whole parse, specified as a function of the remaining characters and
/// the parser state: the postfix output so far, the operator stack, and
/// whether the previous token completed an operand. The result pairs the
/// parse outcome with the characters left unconsumed (everything after the
/// offending token on failure, nothing on success).
pub open spec fn spec_parse_from(
    chars: Seq<char>,
    post: Seq<ExprUnit>,
    stk: Seq<OpStkItem>,
    last: bool,
) -> (Result<Seq<ExprUnit>, SyntaxError>, Seq<char>)
    decreases chars.len(),
{
    if chars.len() == 0 {
        let (post2, stk2) = spec_drain_ops(post, stk);
        if stk2.len() == 0 {
            (Ok(post2), chars)
        } else {
            (Err(SyntaxError::InbalancedOpenParens), chars)
        }
    } else {
        let rest = chars.drop_first();
        match spec_token_of(chars[0]) {
            Token::Char(c) => {
                let (post2, stk2) = if last {
                    spec_add_operator(post, stk, RegexOp::Concat)
                } else {
                    (post, stk)
                };
                spec_parse_from(rest, post2.push(ExprUnit::Char(c)), stk2, true)
            },
            Token::Backslash => {
                let (post2, stk2) = if last {
                    spec_add_operator(post, stk, RegexOp::Concat)
                } else {
                    (post, stk)
                };
                spec_parse_from(rest, post2.push(ExprUnit::Char('\\')), stk2, true)
            },
            Token::Star => {
                if !last {
                    (Err(SyntaxError::StarAfterOperator), rest)
                } else {
                    let (post2, stk2) = spec_add_operator(post, stk, RegexOp::Star);
                    let (post3, stk3) = if stk2.len() > 0 {
                        match stk2.last() {
                            OpStkItem::Op(t) => (post2.push(ExprUnit::Op(t)), stk2.drop_last()),
                            OpStkItem::Parens => (post2, stk2.drop_last()),
                        }
                    } else {
                        (post2, stk2)
                    };
                    spec_parse_from(rest, post3, stk3, true)
                }
            },
            Token::Pipe => {
                if !last {
                    (Err(SyntaxError::PipeAfterOperator), rest)
                } else {
                    let (post2, stk2) = spec_add_operator(post, stk, RegexOp::Union);
                    spec_parse_from(rest, post2, stk2, false)
                }
            },
            Token::OpenParens => {
                let (post2, stk2) = if last {
                    spec_add_operator(post, stk, RegexOp::Concat)
                } else {
                    (post, stk)
                };
                spec_parse_from(rest, post2, stk2.push(OpStkItem::Parens), false)
            },
            Token::CloseParens => {
                if !last {
                    (Err(SyntaxError::CloseParensIncomplete), rest)
                } else {
                    let (post2, stk2) = spec_drain_ops(post, stk);
                    if stk2.len() > 0 && stk2.last() == OpStkItem::Parens {
                        spec_parse_from(rest, post2, stk2.drop_last(), true)
                    } else {
                        (Err(SyntaxError::InbalancedCloseParens), rest)
                    }
                }
            },
        }
    }
}

/// The parse of a whole character sequence, from the initial parser state.
pub open spec fn spec_parse(chars: Seq<char>) -> (Result<Seq<ExprUnit>, SyntaxError>, Seq<char>) {
    spec_parse_from(chars, Seq::empty(), Seq::empty(), false)
}

/// Consumes the token stream and produces the postfix form of the
/// expression, inserting implicit concatenation and enforcing operator and
/// parenthesis validity, by the operator-precedence (shunting-yard)
/// algorithm.
pub fn tokens_to_postfix(tokens: &mut RegexTokenizer) -> (r: Result<Vec<ExprUnit>, SyntaxError>)
    ensures
        (match spec_parse(old(tokens)@).0 {
            Ok(p) => r matches Ok(v) && v@ == p,
            Err(e) => r matches Err(e2) && e2 == e,
        }),
        final(tokens)@ == spec_parse(old(tokens)@).1,
        r matches Ok(v) ==> v@.len() <= 2 * old(tokens)@.len(),
{
    let mut post_expr: Vec<ExprUnit> = Vec::new();
    let mut op_stk: Vec<OpStkItem> = Vec::new();
    let mut last_token = false;

    loop
        invariant
            post_expr@.len() + op_stk@.len() + 2 * tokens@.len() <= 2 * old(tokens)@.len(),
            spec_parse_from(tokens@, post_expr@, op_stk@, last_token) == spec_parse(
                old(tokens)@,
            ),
        ensures
            tokens@.len() == 0,
            post_expr@.len() + op_stk@.len() <= 2 * old(tokens)@.len(),
            spec_parse_from(tokens@, post_expr@, op_stk@, last_token) == spec_parse(
                old(tokens)@,
            ),
        decreases tokens@.len(),
    {
        let t = match tokens.next() {
            None => {
                break;
            },
            Some(t) => t,
        };
        match t {
            Token::Char(c) => {
                if last_token {
                    add_operator(&mut post_expr, &mut op_stk, RegexOp::Concat);
                }
                post_expr.push(ExprUnit::Char(c));
                last_token = true;
            },
            Token::Star => {
                if !last_token {
                    return Err(SyntaxError::StarAfterOperator);
                }
                add_operator(&mut post_expr, &mut op_stk, RegexOp::Star);
                let l = op_stk.len();
                if l > 0 {
                    match op_stk[l - 1] {
                        OpStkItem::Op(stk_op) => {
                            op_stk.pop();
                            post_expr.push(ExprUnit::Op(stk_op));
                        },
                        OpStkItem::Parens => {
                            op_stk.pop();
                        },
                    }
                }
                last_token = true;
            },
            Token::Pipe => {
                if !last_token {
                    return Err(SyntaxError::PipeAfterOperator);
                }
                add_operator(&mut post_expr, &mut op_stk, RegexOp::Union);
                last_token = false;
            },
            Token::OpenParens => {
                if last_token {
                    add_operator(&mut post_expr, &mut op_stk, RegexOp::Concat);
                }
                op_stk.push(OpStkItem::Parens);
                last_token = false;
            },
            Token::CloseParens => {
                if !last_token {
                    return Err(SyntaxError::CloseParensIncomplete);
                }
                drain_ops(&mut post_expr, &mut op_stk);
                let l = op_stk.len();
                let mut matched = false;
                if l > 0 {
                    match op_stk[l - 1] {
                        OpStkItem::Parens => {
                            op_stk.pop();
                            matched = true;
                        },
                        OpStkItem::Op(_) => {},
                    }
                }
                if !matched {
                    return Err(SyntaxError::InbalancedCloseParens);
                }
                last_token = true;
            },
            Token::Backslash => {
                if last_token {
                    add_operator(&mut post_expr, &mut op_stk, RegexOp::Concat);
                }
                post_expr.push(ExprUnit::Char('\\'));
                last_token = true;
            },
        }
    }

    drain_ops(&mut post_expr, &mut op_stk);
    if !op_stk.is_empty() {
        return Err(SyntaxError::InbalancedOpenParens);
    }
    Ok(post_expr)
}

} // verus!
