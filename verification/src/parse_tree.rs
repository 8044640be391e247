//! From tokens to an expression tree, by recursive descent: terms of
//! factors, factors of unary expressions, unary expressions of primaries.

use vstd::prelude::*;
use crate::grammar::{is_term, lemma_grammar_is_parsed, lemma_parse_follows_grammar};
use crate::tokenize::{Side, Token, TokenType};

verus! {

/// An expression. A number is kept as the literal that was read.
#[derive(Debug, PartialEq)]
pub enum NodeAction {
    Number(String),
    Add(BinaryNode),
    Subtract(BinaryNode),
    Multiply(BinaryNode),
    Divide(BinaryNode),
    Negate(UnaryNode),
    Identifier(String),
}

#[derive(Debug, PartialEq)]
pub struct BinaryNode {
    pub left: Box<NodeAction>,
    pub right: Box<NodeAction>,
}

#[derive(Debug, PartialEq)]
pub struct UnaryNode {
    pub node: Box<NodeAction>,
}

/// Why a sequence of tokens is no expression.
#[derive(Debug, PartialEq, Eq, Clone, Copy)]
pub enum SyntaxReason {
    /// The tokens ended where a unary expression had to begin.
    ExpectedUnaryAfter,
    /// The tokens ended where a primary expression had to begin.
    ExpectedPrimaryAfter,
    /// A token that begins no primary expression.
    ExpectedPrimary,
    /// The tokens ended inside parentheses.
    ExpectedRightParenthesesGotEof,
    /// Another token where the parentheses had to close.
    ExpectedRightParentheses,
    /// A right parenthesis where an expression had to begin.
    UnexpectedRightParentheses,
    /// Tokens are left behind the expression.
    UnexpectedTrailingToken,
}

/// A syntax error: the reason, and the index of the token it points at.
/// The index is `None` only where there is no token at all.
#[derive(Debug, PartialEq, Eq, Clone, Copy)]
pub struct SyntaxError {
    pub reason: SyntaxReason,
    pub token: Option<usize>,
}

impl SyntaxReason {
    pub open spec fn text(self) -> Seq<char> {
        match self {
            SyntaxReason::ExpectedUnaryAfter => "Expected unary expression after"@,
            SyntaxReason::ExpectedPrimaryAfter => "Expected primary expession after"@,
            SyntaxReason::ExpectedPrimary => "Expected Primary Expression"@,
            SyntaxReason::ExpectedRightParenthesesGotEof => "Expected right parentheses, but got EOF"@,
            SyntaxReason::ExpectedRightParentheses => "Expected right parentheses"@,
            SyntaxReason::UnexpectedRightParentheses => "Unexpected right parentheses"@,
            SyntaxReason::UnexpectedTrailingToken => "Unexpected token after the expression"@,
        }
    }

    /// The reason in words.
    pub fn message(&self) -> (r: &'static str)
        ensures
            r@ == self.text(),
    {
        match self {
            SyntaxReason::ExpectedUnaryAfter => "Expected unary expression after",
            SyntaxReason::ExpectedPrimaryAfter => "Expected primary expession after",
            SyntaxReason::ExpectedPrimary => "Expected Primary Expression",
            SyntaxReason::ExpectedRightParenthesesGotEof => "Expected right parentheses, but got EOF",
            SyntaxReason::ExpectedRightParentheses => "Expected right parentheses",
            SyntaxReason::UnexpectedRightParentheses => "Unexpected right parentheses",
            SyntaxReason::UnexpectedTrailingToken => "Unexpected token after the expression",
        }
    }
}

/// The outcome of parsing from some position: the tree and the position
/// behind it, or the error.
pub type Parsed = Result<(NodeAction, int), SyntaxError>;

/// The index of the token before `pos`, where there is one.
pub open spec fn before(pos: int) -> Option<usize> {
    if pos > 0 {
        Some((pos - 1) as usize)
    } else {
        None
    }
}

pub open spec fn fail(reason: SyntaxReason, token: Option<usize>) -> Parsed {
    Err(SyntaxError { reason, token })
}

pub open spec fn binary(left: NodeAction, right: NodeAction) -> BinaryNode {
    BinaryNode { left: Box::new(left), right: Box::new(right) }
}

/// A parse from `pos` that ended at `end` has moved on and stayed inside.
pub open spec fn advanced(tokens: Seq<Token>, pos: int, end: int) -> bool {
    pos < end <= tokens.len()
}

/// A primary expression at `pos`: a number, an identifier, or an expression
/// in parentheses.
pub open spec fn primary(tokens: Seq<Token>, pos: int) -> Parsed
    decreases tokens.len() - pos, 0int,
{
    if pos < 0 || pos >= tokens.len() {
        fail(SyntaxReason::ExpectedPrimaryAfter, before(pos))
    } else {
        match tokens[pos].token_type {
            TokenType::Number(x) => Ok((NodeAction::Number(x), pos + 1)),
            TokenType::Identifier(x) => Ok((NodeAction::Identifier(x), pos + 1)),
            TokenType::Parenthisies(Side::Left) => match term(tokens, pos + 1) {
                Err(e) => Err(e),
                Ok((tree, end)) => if end < 0 || end >= tokens.len() {
                    fail(SyntaxReason::ExpectedRightParenthesesGotEof, before(end))
                } else if tokens[end].token_type == TokenType::Parenthisies(Side::Right) {
                    Ok((tree, end + 1))
                } else {
                    fail(SyntaxReason::ExpectedRightParentheses, Some(end as usize))
                },
            },
            TokenType::Parenthisies(Side::Right) => fail(
                SyntaxReason::UnexpectedRightParentheses,
                Some(pos as usize),
            ),
            _ => fail(SyntaxReason::ExpectedPrimary, Some(pos as usize)),
        }
    }
}

/// A unary expression at `pos`: any number of minus signs before a primary.
pub open spec fn unary(tokens: Seq<Token>, pos: int) -> Parsed
    decreases tokens.len() - pos, 1int,
{
    if pos < 0 || pos >= tokens.len() {
        fail(SyntaxReason::ExpectedUnaryAfter, before(pos))
    } else if tokens[pos].token_type == TokenType::Minus {
        match unary(tokens, pos + 1) {
            Err(e) => Err(e),
            Ok((tree, end)) => Ok((NodeAction::Negate(UnaryNode { node: Box::new(tree) }), end)),
        }
    } else {
        primary(tokens, pos)
    }
}

/// What follows a factor whose tree so far is `left`: while a `*` or `/`
/// stands at `pos`, one more unary expression, joined on from the left.
/// That the operand has `advanced` is asked only to let the definition come
/// to an end: it always has, by `lemma_parse_moves_on`.
pub open spec fn factor_rest(tokens: Seq<Token>, pos: int, left: NodeAction) -> Parsed
    decreases tokens.len() - pos, 2int,
{
    if pos < 0 || pos >= tokens.len() {
        Ok((left, pos))
    } else {
        let star = tokens[pos].token_type == TokenType::Star;
        if star || tokens[pos].token_type == TokenType::Divide {
            match unary(tokens, pos + 1) {
                Err(e) => Err(e),
                Ok((right, end)) => {
                    let tree = if star {
                        NodeAction::Multiply(binary(left, right))
                    } else {
                        NodeAction::Divide(binary(left, right))
                    };
                    if advanced(tokens, pos, end) {
                        factor_rest(tokens, end, tree)
                    } else {
                        Ok((tree, end))
                    }
                },
            }
        } else {
            Ok((left, pos))
        }
    }
}

/// A factor at `pos`: unary expressions joined by `*` and `/`.
pub open spec fn factor(tokens: Seq<Token>, pos: int) -> Parsed
    decreases tokens.len() - pos, 3int,
{
    match unary(tokens, pos) {
        Err(e) => Err(e),
        Ok((first, end)) => if advanced(tokens, pos, end) {
            factor_rest(tokens, end, first)
        } else {
            Ok((first, end))
        },
    }
}

/// What follows a term whose tree so far is `left`: while a `+` or `-`
/// stands at `pos`, one more factor, joined on from the left. As in
/// `factor_rest`, the operand always has `advanced`.
pub open spec fn term_rest(tokens: Seq<Token>, pos: int, left: NodeAction) -> Parsed
    decreases tokens.len() - pos, 4int,
{
    if pos < 0 || pos >= tokens.len() {
        Ok((left, pos))
    } else {
        let plus = tokens[pos].token_type == TokenType::Plus;
        if plus || tokens[pos].token_type == TokenType::Minus {
            match factor(tokens, pos + 1) {
                Err(e) => Err(e),
                Ok((right, end)) => {
                    let tree = if plus {
                        NodeAction::Add(binary(left, right))
                    } else {
                        NodeAction::Subtract(binary(left, right))
                    };
                    if advanced(tokens, pos, end) {
                        term_rest(tokens, end, tree)
                    } else {
                        Ok((tree, end))
                    }
                },
            }
        } else {
            Ok((left, pos))
        }
    }
}

/// A term at `pos`: factors joined by `+` and `-`. An expression is a term.
pub open spec fn term(tokens: Seq<Token>, pos: int) -> Parsed
    decreases tokens.len() - pos, 5int,
{
    match factor(tokens, pos) {
        Err(e) => Err(e),
        Ok((first, end)) => if advanced(tokens, pos, end) {
            term_rest(tokens, end, first)
        } else {
            Ok((first, end))
        },
    }
}

/// The tree of the whole sequence: an expression from the first token on
/// that leaves no token behind.
pub open spec fn parse(tokens: Seq<Token>) -> Result<NodeAction, SyntaxError> {
    match term(tokens, 0) {
        Err(e) => Err(e),
        Ok((tree, end)) => if end == tokens.len() {
            Ok(tree)
        } else {
            Err(SyntaxError { reason: SyntaxReason::UnexpectedTrailingToken, token: Some(end as usize) })
        },
    }
}

/// An exec result and the cursor behind it are the outcome `expected`; the
/// cursor is said only where a tree came out.
pub open spec fn agrees(
    r: Result<NodeAction, SyntaxError>,
    end: usize,
    expected: Parsed,
) -> bool {
    match expected {
        Ok((tree, e)) => r == Ok::<NodeAction, SyntaxError>(tree) && end == e,
        Err(e) => r == Err::<NodeAction, SyntaxError>(e),
    }
}

fn previous(pos: usize) -> (r: Option<usize>)
    ensures
        r == before(pos as int),
{
    if pos > 0 {
        Some(pos - 1)
    } else {
        None
    }
}

/// Parses the whole sequence of tokens into one tree. A tree comes out
/// exactly where the grammar reads the whole sequence as a term, and it is
/// the tree of that reading. Tokens left behind the expression are an error,
/// at the first of them.
pub fn run(tokens: &Vec<Token>) -> (r: Result<NodeAction, SyntaxError>)
    ensures
        r == parse(tokens@),
        forall|tree: NodeAction|
            r == Ok::<NodeAction, SyntaxError>(tree) <==> #[trigger] is_term(
                tokens@,
                0,
                tokens@.len() as int,
                tree,
            ),
{
    proof {
        assert forall|tree: NodeAction|
            parse(tokens@) == Ok::<NodeAction, SyntaxError>(tree) <==> #[trigger] is_term(
                tokens@,
                0,
                tokens@.len() as int,
                tree,
            ) by {
            if parse(tokens@) == Ok::<NodeAction, SyntaxError>(tree) {
                lemma_parse_follows_grammar(tokens@, tree);
            }
            if is_term(tokens@, 0, tokens@.len() as int, tree) {
                lemma_grammar_is_parsed(tokens@, tree);
            }
        }
    }
    let mut parse_point: usize = 0;
    match parse_expression(tokens, &mut parse_point) {
        Ok(tree) => {
            if parse_point == tokens.len() {
                Ok(tree)
            } else {
                Err(
                    SyntaxError {
                        reason: SyntaxReason::UnexpectedTrailingToken,
                        token: Some(parse_point),
                    },
                )
            }
        },
        Err(e) => Err(e),
    }
}

/// Parses an expression at the cursor, and moves the cursor behind it.
pub fn parse_expression(tokens: &Vec<Token>, parse_point: &mut usize) -> (r: Result<
    NodeAction,
    SyntaxError,
>)
    requires
        *old(parse_point) <= tokens@.len(),
    ensures
        agrees(r, *final(parse_point), term(tokens@, *old(parse_point) as int)),
        r is Ok ==> advanced(tokens@, *old(parse_point) as int, *final(parse_point) as int),
    decreases tokens@.len() - *old(parse_point), 6int,
{
    parse_term(tokens, parse_point)
}

/// Parses a term at the cursor: factors joined by `+` and `-`, from the left.
pub fn parse_term(tokens: &Vec<Token>, parse_point: &mut usize) -> (r: Result<NodeAction, SyntaxError>)
    requires
        *old(parse_point) <= tokens@.len(),
    ensures
        agrees(r, *final(parse_point), term(tokens@, *old(parse_point) as int)),
        r is Ok ==> advanced(tokens@, *old(parse_point) as int, *final(parse_point) as int),
    decreases tokens@.len() - *old(parse_point), 5int,
{
    let ghost start: int = *parse_point as int;
    let mut current: NodeAction = match parse_factor(tokens, parse_point) {
        Ok(tree) => tree,
        Err(e) => {
            return Err(e);
        },
    };
    loop
        invariant
            start == *old(parse_point),
            start < *parse_point <= tokens@.len(),
            term(tokens@, start) == term_rest(tokens@, *parse_point as int, current),
        decreases tokens@.len() - *parse_point,
    {
        let pos: usize = *parse_point;
        if pos >= tokens.len() {
            return Ok(current);
        }
        match &tokens[pos].token_type {
            TokenType::Minus => {
                *parse_point = pos + 1;
                match parse_factor(tokens, parse_point) {
                    Ok(next) => {
                        current = NodeAction::Subtract(
                            BinaryNode { left: Box::new(current), right: Box::new(next) },
                        );
                    },
                    Err(e) => {
                        return Err(e);
                    },
                }
            },
            TokenType::Plus => {
                *parse_point = pos + 1;
                match parse_factor(tokens, parse_point) {
                    Ok(next) => {
                        current = NodeAction::Add(
                            BinaryNode { left: Box::new(current), right: Box::new(next) },
                        );
                    },
                    Err(e) => {
                        return Err(e);
                    },
                }
            },
            _ => {
                return Ok(current);
            },
        }
    }
}

/// Parses a factor at the cursor: unary expressions joined by `*` and `/`,
/// from the left.
pub fn parse_factor(tokens: &Vec<Token>, parse_point: &mut usize) -> (r: Result<NodeAction, SyntaxError>)
    requires
        *old(parse_point) <= tokens@.len(),
    ensures
        agrees(r, *final(parse_point), factor(tokens@, *old(parse_point) as int)),
        r is Ok ==> advanced(tokens@, *old(parse_point) as int, *final(parse_point) as int),
    decreases tokens@.len() - *old(parse_point), 3int,
{
    let ghost start: int = *parse_point as int;
    let mut current: NodeAction = match parse_unary(tokens, parse_point) {
        Ok(tree) => tree,
        Err(e) => {
            return Err(e);
        },
    };
    loop
        invariant
            start == *old(parse_point),
            start < *parse_point <= tokens@.len(),
            factor(tokens@, start) == factor_rest(tokens@, *parse_point as int, current),
        decreases tokens@.len() - *parse_point,
    {
        let pos: usize = *parse_point;
        if pos >= tokens.len() {
            return Ok(current);
        }
        match &tokens[pos].token_type {
            TokenType::Star => {
                *parse_point = pos + 1;
                match parse_unary(tokens, parse_point) {
                    Ok(next) => {
                        current = NodeAction::Multiply(
                            BinaryNode { left: Box::new(current), right: Box::new(next) },
                        );
                    },
                    Err(e) => {
                        return Err(e);
                    },
                }
            },
            TokenType::Divide => {
                *parse_point = pos + 1;
                match parse_unary(tokens, parse_point) {
                    Ok(next) => {
                        current = NodeAction::Divide(
                            BinaryNode { left: Box::new(current), right: Box::new(next) },
                        );
                    },
                    Err(e) => {
                        return Err(e);
                    },
                }
            },
            _ => {
                return Ok(current);
            },
        }
    }
}

/// Parses a unary expression at the cursor: minus signs, then a primary.
pub fn parse_unary(tokens: &Vec<Token>, parse_point: &mut usize) -> (r: Result<
    NodeAction,
    SyntaxError,
>)
    requires
        *old(parse_point) <= tokens@.len(),
    ensures
        agrees(r, *final(parse_point), unary(tokens@, *old(parse_point) as int)),
        r is Ok ==> advanced(tokens@, *old(parse_point) as int, *final(parse_point) as int),
    decreases tokens@.len() - *old(parse_point), 1int,
{
    let pos: usize = *parse_point;
    if pos >= tokens.len() {
        return Err(SyntaxError { reason: SyntaxReason::ExpectedUnaryAfter, token: previous(pos) });
    }
    match &tokens[pos].token_type {
        TokenType::Minus => {
            *parse_point = pos + 1;
            match parse_unary(tokens, parse_point) {
                Ok(parsed) => Ok(NodeAction::Negate(UnaryNode { node: Box::new(parsed) })),
                Err(e) => Err(e),
            }
        },
        _ => parse_primary(tokens, parse_point),
    }
}

/// Parses a primary expression at the cursor: a number, an identifier, or
/// an expression in parentheses.
pub fn parse_primary(tokens: &Vec<Token>, parse_point: &mut usize) -> (r: Result<
    NodeAction,
    SyntaxError,
>)
    requires
        *old(parse_point) <= tokens@.len(),
    ensures
        agrees(r, *final(parse_point), primary(tokens@, *old(parse_point) as int)),
        r is Ok ==> advanced(tokens@, *old(parse_point) as int, *final(parse_point) as int),
    decreases tokens@.len() - *old(parse_point), 0int,
{
    let pos: usize = *parse_point;
    if pos >= tokens.len() {
        return Err(SyntaxError { reason: SyntaxReason::ExpectedPrimaryAfter, token: previous(pos) });
    }
    match &tokens[pos].token_type {
        TokenType::Number(x) => {
            *parse_point = pos + 1;
            Ok(NodeAction::Number(x.clone()))
        },
        TokenType::Identifier(x) => {
            *parse_point = pos + 1;
            Ok(NodeAction::Identifier(x.clone()))
        },
        TokenType::Parenthisies(Side::Left) => {
            *parse_point = pos + 1;
            match parse_expression(tokens, parse_point) {
                Err(e) => Err(e),
                Ok(tree) => {
                    let end: usize = *parse_point;
                    if end >= tokens.len() {
                        return Err(
                            SyntaxError {
                                reason: SyntaxReason::ExpectedRightParenthesesGotEof,
                                token: previous(end),
                            },
                        );
                    }
                    match &tokens[end].token_type {
                        TokenType::Parenthisies(Side::Right) => {
                            *parse_point = end + 1;
                            Ok(tree)
                        },
                        _ => Err(
                            SyntaxError {
                                reason: SyntaxReason::ExpectedRightParentheses,
                                token: Some(end),
                            },
                        ),
                    }
                },
            }
        },
        TokenType::Parenthisies(Side::Right) => Err(
            SyntaxError { reason: SyntaxReason::UnexpectedRightParentheses, token: Some(pos) },
        ),
        _ => Err(SyntaxError { reason: SyntaxReason::ExpectedPrimary, token: Some(pos) }),
    }
}

/// The outcome is an error, or a tree that ends behind `pos` and inside
/// the tokens.
pub open spec fn moves_on(tokens: Seq<Token>, pos: int, outcome: Parsed) -> bool {
    match outcome {
        Ok((_, end)) => advanced(tokens, pos, end),
        Err(_) => true,
    }
}

/// The outcome is an error, or a tree that ends at `pos` or behind it, and
/// inside the tokens.
pub open spec fn stays_inside(tokens: Seq<Token>, pos: int, outcome: Parsed) -> bool {
    match outcome {
        Ok((_, end)) => pos <= end <= tokens.len(),
        Err(_) => true,
    }
}

proof fn lemma_primary_moves_on(tokens: Seq<Token>, pos: int)
    requires
        0 <= pos <= tokens.len(),
    ensures
        moves_on(tokens, pos, primary(tokens, pos)),
    decreases tokens.len() - pos, 0int,
{
    if pos < tokens.len() {
        if tokens[pos].token_type == TokenType::Parenthisies(Side::Left) {
            lemma_term_moves_on(tokens, pos + 1);
        }
    }
}

proof fn lemma_unary_moves_on(tokens: Seq<Token>, pos: int)
    requires
        0 <= pos <= tokens.len(),
    ensures
        moves_on(tokens, pos, unary(tokens, pos)),
    decreases tokens.len() - pos, 1int,
{
    if pos < tokens.len() {
        if tokens[pos].token_type == TokenType::Minus {
            lemma_unary_moves_on(tokens, pos + 1);
        } else {
            lemma_primary_moves_on(tokens, pos);
        }
    }
}

proof fn lemma_factor_rest_stays_inside(tokens: Seq<Token>, pos: int, left: NodeAction)
    requires
        0 <= pos <= tokens.len(),
    ensures
        stays_inside(tokens, pos, factor_rest(tokens, pos, left)),
    decreases tokens.len() - pos, 2int,
{
    if pos < tokens.len() {
        let star = tokens[pos].token_type == TokenType::Star;
        if star || tokens[pos].token_type == TokenType::Divide {
            lemma_unary_moves_on(tokens, pos + 1);
            match unary(tokens, pos + 1) {
                Ok((right, end)) => {
                    let tree = if star {
                        NodeAction::Multiply(binary(left, right))
                    } else {
                        NodeAction::Divide(binary(left, right))
                    };
                    lemma_factor_rest_stays_inside(tokens, end, tree);
                },
                Err(_) => {},
            }
        }
    }
}

proof fn lemma_factor_moves_on(tokens: Seq<Token>, pos: int)
    requires
        0 <= pos <= tokens.len(),
    ensures
        moves_on(tokens, pos, factor(tokens, pos)),
    decreases tokens.len() - pos, 3int,
{
    lemma_unary_moves_on(tokens, pos);
    match unary(tokens, pos) {
        Ok((first, end)) => {
            lemma_factor_rest_stays_inside(tokens, end, first);
        },
        Err(_) => {},
    }
}

proof fn lemma_term_rest_stays_inside(tokens: Seq<Token>, pos: int, left: NodeAction)
    requires
        0 <= pos <= tokens.len(),
    ensures
        stays_inside(tokens, pos, term_rest(tokens, pos, left)),
    decreases tokens.len() - pos, 4int,
{
    if pos < tokens.len() {
        let plus = tokens[pos].token_type == TokenType::Plus;
        if plus || tokens[pos].token_type == TokenType::Minus {
            lemma_factor_moves_on(tokens, pos + 1);
            match factor(tokens, pos + 1) {
                Ok((right, end)) => {
                    let tree = if plus {
                        NodeAction::Add(binary(left, right))
                    } else {
                        NodeAction::Subtract(binary(left, right))
                    };
                    lemma_term_rest_stays_inside(tokens, end, tree);
                },
                Err(_) => {},
            }
        }
    }
}

proof fn lemma_term_moves_on(tokens: Seq<Token>, pos: int)
    requires
        0 <= pos <= tokens.len(),
    ensures
        moves_on(tokens, pos, term(tokens, pos)),
    decreases tokens.len() - pos, 5int,
{
    lemma_factor_moves_on(tokens, pos);
    match factor(tokens, pos) {
        Ok((first, end)) => {
            lemma_term_rest_stays_inside(tokens, end, first);
        },
        Err(_) => {},
    }
}

/// At every level, a parse that gives a tree has read at least one token
/// and none behind the last: the levels above always go on from a position
/// further on, so the descent comes to an end on every sequence of tokens.
pub proof fn lemma_parse_moves_on(tokens: Seq<Token>, pos: int)
    requires
        0 <= pos <= tokens.len(),
    ensures
        moves_on(tokens, pos, primary(tokens, pos)),
        moves_on(tokens, pos, unary(tokens, pos)),
        moves_on(tokens, pos, factor(tokens, pos)),
        moves_on(tokens, pos, term(tokens, pos)),
{
    lemma_primary_moves_on(tokens, pos);
    lemma_unary_moves_on(tokens, pos);
    lemma_factor_moves_on(tokens, pos);
    lemma_term_moves_on(tokens, pos);
}

} // verus!
