//! The grammar of expressions, stated over stretches of tokens, and the
//! proof that every tree the parser gives is a reading by this grammar.
//!
//! ```text
//! term    = factor  | term ("+" | "-") factor
//! factor  = unary   | factor ("*" | "/") unary
//! unary   = primary | "-" unary
//! primary = number  | identifier | "(" term ")"
//! ```

use vstd::prelude::*;
use crate::parse_tree::{
    binary, factor, factor_rest, lemma_parse_moves_on, parse, primary, term, term_rest, unary,
    NodeAction, SyntaxError,
};
use crate::evaluate::{after_steps, lemma_steps_leave_one_value};
use crate::tokenize::{Side, Token, TokenType};

verus! {

/// `tokens[lo..hi]` is a primary expression with this tree.
pub open spec fn is_primary(tokens: Seq<Token>, lo: int, hi: int, tree: NodeAction) -> bool
    decreases hi - lo, 0int,
{
    &&& 0 <= lo < hi <= tokens.len()
    &&& match tokens[lo].token_type {
        TokenType::Number(x) => hi == lo + 1 && tree == NodeAction::Number(x),
        TokenType::Identifier(x) => hi == lo + 1 && tree == NodeAction::Identifier(x),
        TokenType::Parenthisies(Side::Left) => {
            &&& lo + 1 < hi - 1
            &&& tokens[hi - 1].token_type == TokenType::Parenthisies(Side::Right)
            &&& is_term(tokens, lo + 1, hi - 1, tree)
        },
        _ => false,
    }
}

/// `tokens[lo..hi]` is a unary expression with this tree.
pub open spec fn is_unary(tokens: Seq<Token>, lo: int, hi: int, tree: NodeAction) -> bool
    decreases hi - lo, 1int,
{
    &&& 0 <= lo < hi <= tokens.len()
    &&& if tokens[lo].token_type == TokenType::Minus {
        match tree {
            NodeAction::Negate(inner) => is_unary(tokens, lo + 1, hi, *inner.node),
            _ => false,
        }
    } else {
        is_primary(tokens, lo, hi, tree)
    }
}

/// `tokens[lo..hi]` is a factor with this tree: a unary expression, or a
/// factor, `*` or `/` at `mid`, and a unary expression.
pub open spec fn is_factor(tokens: Seq<Token>, lo: int, hi: int, tree: NodeAction) -> bool
    decreases hi - lo, 2int,
{
    &&& 0 <= lo < hi <= tokens.len()
    &&& {
        ||| is_unary(tokens, lo, hi, tree)
        ||| exists|mid: int|
            #![trigger tokens[mid]]
            {
                &&& lo < mid < hi
                &&& match tree {
                    NodeAction::Multiply(sides) => {
                        &&& tokens[mid].token_type == TokenType::Star
                        &&& is_factor(tokens, lo, mid, *sides.left)
                        &&& is_unary(tokens, mid + 1, hi, *sides.right)
                    },
                    NodeAction::Divide(sides) => {
                        &&& tokens[mid].token_type == TokenType::Divide
                        &&& is_factor(tokens, lo, mid, *sides.left)
                        &&& is_unary(tokens, mid + 1, hi, *sides.right)
                    },
                    _ => false,
                }
            }
    }
}

/// `tokens[lo..hi]` is a term with this tree: a factor, or a term, `+` or
/// `-` at `mid`, and a factor.
pub open spec fn is_term(tokens: Seq<Token>, lo: int, hi: int, tree: NodeAction) -> bool
    decreases hi - lo, 3int,
{
    &&& 0 <= lo < hi <= tokens.len()
    &&& {
        ||| is_factor(tokens, lo, hi, tree)
        ||| exists|mid: int|
            #![trigger tokens[mid]]
            {
                &&& lo < mid < hi
                &&& match tree {
                    NodeAction::Add(sides) => {
                        &&& tokens[mid].token_type == TokenType::Plus
                        &&& is_term(tokens, lo, mid, *sides.left)
                        &&& is_factor(tokens, mid + 1, hi, *sides.right)
                    },
                    NodeAction::Subtract(sides) => {
                        &&& tokens[mid].token_type == TokenType::Minus
                        &&& is_term(tokens, lo, mid, *sides.left)
                        &&& is_factor(tokens, mid + 1, hi, *sides.right)
                    },
                    _ => false,
                }
            }
    }
}

proof fn lemma_primary_sound(tokens: Seq<Token>, pos: int)
    requires
        0 <= pos <= tokens.len(),
    ensures
        match primary(tokens, pos) {
            Ok((tree, end)) => is_primary(tokens, pos, end, tree),
            Err(_) => true,
        },
    decreases tokens.len() - pos, 0int,
{
    if pos < tokens.len() {
        if tokens[pos].token_type == TokenType::Parenthisies(Side::Left) {
            lemma_term_sound(tokens, pos + 1);
            lemma_parse_moves_on(tokens, pos + 1);
        }
    }
}

proof fn lemma_unary_sound(tokens: Seq<Token>, pos: int)
    requires
        0 <= pos <= tokens.len(),
    ensures
        match unary(tokens, pos) {
            Ok((tree, end)) => is_unary(tokens, pos, end, tree),
            Err(_) => true,
        },
    decreases tokens.len() - pos, 1int,
{
    lemma_parse_moves_on(tokens, pos);
    if pos < tokens.len() {
        if tokens[pos].token_type == TokenType::Minus {
            lemma_unary_sound(tokens, pos + 1);
            lemma_parse_moves_on(tokens, pos + 1);
        } else {
            lemma_primary_sound(tokens, pos);
        }
    }
}

proof fn lemma_factor_rest_sound(tokens: Seq<Token>, start: int, pos: int, left: NodeAction)
    requires
        0 <= start < pos <= tokens.len(),
        is_factor(tokens, start, pos, left),
    ensures
        match factor_rest(tokens, pos, left) {
            Ok((tree, end)) => is_factor(tokens, start, end, tree),
            Err(_) => true,
        },
    decreases tokens.len() - pos, 2int,
{
    if pos < tokens.len() {
        let star = tokens[pos].token_type == TokenType::Star;
        if star || tokens[pos].token_type == TokenType::Divide {
            lemma_unary_sound(tokens, pos + 1);
            lemma_parse_moves_on(tokens, pos + 1);
            match unary(tokens, pos + 1) {
                Ok((right, end)) => {
                    let tree = if star {
                        NodeAction::Multiply(binary(left, right))
                    } else {
                        NodeAction::Divide(binary(left, right))
                    };
                    assert(tokens[pos].token_type == tokens[pos].token_type);
                    assert(is_factor(tokens, start, end, tree));
                    lemma_factor_rest_sound(tokens, start, end, tree);
                },
                Err(_) => {},
            }
        }
    }
}

proof fn lemma_factor_sound(tokens: Seq<Token>, pos: int)
    requires
        0 <= pos <= tokens.len(),
    ensures
        match factor(tokens, pos) {
            Ok((tree, end)) => is_factor(tokens, pos, end, tree),
            Err(_) => true,
        },
    decreases tokens.len() - pos, 3int,
{
    lemma_unary_sound(tokens, pos);
    lemma_parse_moves_on(tokens, pos);
    match unary(tokens, pos) {
        Ok((first, end)) => {
            lemma_factor_rest_sound(tokens, pos, end, first);
        },
        Err(_) => {},
    }
}

proof fn lemma_term_rest_sound(tokens: Seq<Token>, start: int, pos: int, left: NodeAction)
    requires
        0 <= start < pos <= tokens.len(),
        is_term(tokens, start, pos, left),
    ensures
        match term_rest(tokens, pos, left) {
            Ok((tree, end)) => is_term(tokens, start, end, tree),
            Err(_) => true,
        },
    decreases tokens.len() - pos, 4int,
{
    if pos < tokens.len() {
        let plus = tokens[pos].token_type == TokenType::Plus;
        if plus || tokens[pos].token_type == TokenType::Minus {
            lemma_factor_sound(tokens, pos + 1);
            lemma_parse_moves_on(tokens, pos + 1);
            match factor(tokens, pos + 1) {
                Ok((right, end)) => {
                    let tree = if plus {
                        NodeAction::Add(binary(left, right))
                    } else {
                        NodeAction::Subtract(binary(left, right))
                    };
                    assert(tokens[pos].token_type == tokens[pos].token_type);
                    assert(is_term(tokens, start, end, tree));
                    lemma_term_rest_sound(tokens, start, end, tree);
                },
                Err(_) => {},
            }
        }
    }
}

proof fn lemma_term_sound(tokens: Seq<Token>, pos: int)
    requires
        0 <= pos <= tokens.len(),
    ensures
        match term(tokens, pos) {
            Ok((tree, end)) => is_term(tokens, pos, end, tree),
            Err(_) => true,
        },
    decreases tokens.len() - pos, 5int,
{
    lemma_factor_sound(tokens, pos);
    lemma_parse_moves_on(tokens, pos);
    match factor(tokens, pos) {
        Ok((first, end)) => {
            lemma_term_rest_sound(tokens, pos, end, first);
        },
        Err(_) => {},
    }
}

/// A tree that the parser gives for a sequence of tokens is a reading of
/// the whole sequence as a term: `*` and `/` bind tighter than `+` and `-`,
/// a minus sign tighter still, operators of one level join from the left,
/// and parentheses hold a term of their own.
pub proof fn lemma_parse_follows_grammar(tokens: Seq<Token>, tree: NodeAction)
    requires
        parse(tokens) == Ok::<NodeAction, SyntaxError>(tree),
    ensures
        is_term(tokens, 0, tokens.len() as int, tree),
{
    lemma_term_sound(tokens, 0);
}

/// No `*` and no `/` stands at `pos`: a factor that ends there goes no
/// further.
pub open spec fn factor_stops(tokens: Seq<Token>, pos: int) -> bool {
    pos >= tokens.len() || (tokens[pos].token_type != TokenType::Star && tokens[pos].token_type
        != TokenType::Divide)
}

/// No operator stands at `pos`: a term that ends there goes no further.
pub open spec fn term_stops(tokens: Seq<Token>, pos: int) -> bool {
    factor_stops(tokens, pos) && (pos >= tokens.len() || (tokens[pos].token_type
        != TokenType::Plus && tokens[pos].token_type != TokenType::Minus))
}

proof fn lemma_primary_found(tokens: Seq<Token>, lo: int, hi: int, tree: NodeAction)
    requires
        is_primary(tokens, lo, hi, tree),
    ensures
        primary(tokens, lo) == Ok::<(NodeAction, int), SyntaxError>((tree, hi)),
    decreases hi - lo, 0int,
{
    if tokens[lo].token_type == TokenType::Parenthisies(Side::Left) {
        lemma_term_found(tokens, lo + 1, hi - 1, tree);
    }
}

proof fn lemma_unary_found(tokens: Seq<Token>, lo: int, hi: int, tree: NodeAction)
    requires
        is_unary(tokens, lo, hi, tree),
    ensures
        unary(tokens, lo) == Ok::<(NodeAction, int), SyntaxError>((tree, hi)),
    decreases hi - lo, 1int,
{
    if tokens[lo].token_type == TokenType::Minus {
        match tree {
            NodeAction::Negate(inner) => {
                lemma_unary_found(tokens, lo + 1, hi, *inner.node);
            },
            _ => {},
        }
    } else {
        lemma_primary_found(tokens, lo, hi, tree);
    }
}

proof fn lemma_factor_found(tokens: Seq<Token>, lo: int, hi: int, tree: NodeAction)
    requires
        is_factor(tokens, lo, hi, tree),
    ensures
        factor(tokens, lo) == factor_rest(tokens, hi, tree),
    decreases hi - lo, 2int,
{
    if is_unary(tokens, lo, hi, tree) {
        lemma_unary_found(tokens, lo, hi, tree);
    } else {
        let mid = choose|mid: int|
            #![trigger tokens[mid]]
            {
                &&& lo < mid < hi
                &&& match tree {
                    NodeAction::Multiply(sides) => {
                        &&& tokens[mid].token_type == TokenType::Star
                        &&& is_factor(tokens, lo, mid, *sides.left)
                        &&& is_unary(tokens, mid + 1, hi, *sides.right)
                    },
                    NodeAction::Divide(sides) => {
                        &&& tokens[mid].token_type == TokenType::Divide
                        &&& is_factor(tokens, lo, mid, *sides.left)
                        &&& is_unary(tokens, mid + 1, hi, *sides.right)
                    },
                    _ => false,
                }
            };
        match tree {
            NodeAction::Multiply(sides) => {
                lemma_factor_found(tokens, lo, mid, *sides.left);
                lemma_unary_found(tokens, mid + 1, hi, *sides.right);
                assert(tree == NodeAction::Multiply(binary(*sides.left, *sides.right)));
            },
            NodeAction::Divide(sides) => {
                lemma_factor_found(tokens, lo, mid, *sides.left);
                lemma_unary_found(tokens, mid + 1, hi, *sides.right);
                assert(tree == NodeAction::Divide(binary(*sides.left, *sides.right)));
            },
            _ => {},
        }
    }
}

proof fn lemma_term_joined(tokens: Seq<Token>, lo: int, hi: int, tree: NodeAction)
    requires
        is_term(tokens, lo, hi, tree),
        factor_stops(tokens, hi),
    ensures
        term(tokens, lo) == term_rest(tokens, hi, tree),
    decreases hi - lo, 3int,
{
    if is_factor(tokens, lo, hi, tree) {
        lemma_factor_found(tokens, lo, hi, tree);
    } else {
        let mid = choose|mid: int|
            #![trigger tokens[mid]]
            {
                &&& lo < mid < hi
                &&& match tree {
                    NodeAction::Add(sides) => {
                        &&& tokens[mid].token_type == TokenType::Plus
                        &&& is_term(tokens, lo, mid, *sides.left)
                        &&& is_factor(tokens, mid + 1, hi, *sides.right)
                    },
                    NodeAction::Subtract(sides) => {
                        &&& tokens[mid].token_type == TokenType::Minus
                        &&& is_term(tokens, lo, mid, *sides.left)
                        &&& is_factor(tokens, mid + 1, hi, *sides.right)
                    },
                    _ => false,
                }
            };
        match tree {
            NodeAction::Add(sides) => {
                lemma_term_joined(tokens, lo, mid, *sides.left);
                lemma_factor_found(tokens, mid + 1, hi, *sides.right);
                assert(tree == NodeAction::Add(binary(*sides.left, *sides.right)));
            },
            NodeAction::Subtract(sides) => {
                lemma_term_joined(tokens, lo, mid, *sides.left);
                lemma_factor_found(tokens, mid + 1, hi, *sides.right);
                assert(tree == NodeAction::Subtract(binary(*sides.left, *sides.right)));
            },
            _ => {},
        }
    }
}

proof fn lemma_term_found(tokens: Seq<Token>, lo: int, hi: int, tree: NodeAction)
    requires
        is_term(tokens, lo, hi, tree),
        term_stops(tokens, hi),
    ensures
        term(tokens, lo) == Ok::<(NodeAction, int), SyntaxError>((tree, hi)),
    decreases hi - lo, 4int,
{
    lemma_term_joined(tokens, lo, hi, tree);
}

/// Every reading of a whole sequence of tokens as a term is found: the
/// parser gives its tree. With the law before, the parser gives a tree
/// exactly for the sequences that the grammar reads, and a sequence has at
/// most one reading.
pub proof fn lemma_grammar_is_parsed(tokens: Seq<Token>, tree: NodeAction)
    requires
        is_term(tokens, 0, tokens.len() as int, tree),
    ensures
        parse(tokens) == Ok::<NodeAction, SyntaxError>(tree),
{
    lemma_term_found(tokens, 0, tokens.len() as int, tree);
}

/// No token of `tokens[lo..hi]` is an identifier.
pub open spec fn no_identifier(tokens: Seq<Token>, lo: int, hi: int) -> bool {
    forall|i: int| lo <= i < hi ==> !((#[trigger] tokens[i]).token_type is Identifier)
}

proof fn lemma_primary_plain(tokens: Seq<Token>, lo: int, hi: int, tree: NodeAction)
    requires
        is_primary(tokens, lo, hi, tree),
        no_identifier(tokens, lo, hi),
    ensures
        tree.first_identifier() is None,
    decreases hi - lo, 0int,
{
    assert(!(tokens[lo].token_type is Identifier));
    if tokens[lo].token_type == TokenType::Parenthisies(Side::Left) {
        lemma_term_plain(tokens, lo + 1, hi - 1, tree);
    }
}

proof fn lemma_unary_plain(tokens: Seq<Token>, lo: int, hi: int, tree: NodeAction)
    requires
        is_unary(tokens, lo, hi, tree),
        no_identifier(tokens, lo, hi),
    ensures
        tree.first_identifier() is None,
    decreases hi - lo, 1int,
{
    if tokens[lo].token_type == TokenType::Minus {
        match tree {
            NodeAction::Negate(inner) => {
                lemma_unary_plain(tokens, lo + 1, hi, *inner.node);
            },
            _ => {},
        }
    } else {
        lemma_primary_plain(tokens, lo, hi, tree);
    }
}

proof fn lemma_factor_plain(tokens: Seq<Token>, lo: int, hi: int, tree: NodeAction)
    requires
        is_factor(tokens, lo, hi, tree),
        no_identifier(tokens, lo, hi),
    ensures
        tree.first_identifier() is None,
    decreases hi - lo, 2int,
{
    if is_unary(tokens, lo, hi, tree) {
        lemma_unary_plain(tokens, lo, hi, tree);
    } else {
        let mid = choose|mid: int|
            #![trigger tokens[mid]]
            {
                &&& lo < mid < hi
                &&& match tree {
                    NodeAction::Multiply(sides) => {
                        &&& tokens[mid].token_type == TokenType::Star
                        &&& is_factor(tokens, lo, mid, *sides.left)
                        &&& is_unary(tokens, mid + 1, hi, *sides.right)
                    },
                    NodeAction::Divide(sides) => {
                        &&& tokens[mid].token_type == TokenType::Divide
                        &&& is_factor(tokens, lo, mid, *sides.left)
                        &&& is_unary(tokens, mid + 1, hi, *sides.right)
                    },
                    _ => false,
                }
            };
        match tree {
            NodeAction::Multiply(sides) => {
                lemma_factor_plain(tokens, lo, mid, *sides.left);
                lemma_unary_plain(tokens, mid + 1, hi, *sides.right);
                assert(sides.first_identifier() is None);
            },
            NodeAction::Divide(sides) => {
                lemma_factor_plain(tokens, lo, mid, *sides.left);
                lemma_unary_plain(tokens, mid + 1, hi, *sides.right);
                assert(sides.first_identifier() is None);
            },
            _ => {},
        }
    }
}

proof fn lemma_term_plain(tokens: Seq<Token>, lo: int, hi: int, tree: NodeAction)
    requires
        is_term(tokens, lo, hi, tree),
        no_identifier(tokens, lo, hi),
    ensures
        tree.first_identifier() is None,
    decreases hi - lo, 3int,
{
    if is_factor(tokens, lo, hi, tree) {
        lemma_factor_plain(tokens, lo, hi, tree);
    } else {
        let mid = choose|mid: int|
            #![trigger tokens[mid]]
            {
                &&& lo < mid < hi
                &&& match tree {
                    NodeAction::Add(sides) => {
                        &&& tokens[mid].token_type == TokenType::Plus
                        &&& is_term(tokens, lo, mid, *sides.left)
                        &&& is_factor(tokens, mid + 1, hi, *sides.right)
                    },
                    NodeAction::Subtract(sides) => {
                        &&& tokens[mid].token_type == TokenType::Minus
                        &&& is_term(tokens, lo, mid, *sides.left)
                        &&& is_factor(tokens, mid + 1, hi, *sides.right)
                    },
                    _ => false,
                }
            };
        match tree {
            NodeAction::Add(sides) => {
                lemma_term_plain(tokens, lo, mid, *sides.left);
                lemma_factor_plain(tokens, mid + 1, hi, *sides.right);
                assert(sides.first_identifier() is None);
            },
            NodeAction::Subtract(sides) => {
                lemma_term_plain(tokens, lo, mid, *sides.left);
                lemma_factor_plain(tokens, mid + 1, hi, *sides.right);
                assert(sides.first_identifier() is None);
            },
            _ => {},
        }
    }
}

/// Tokens without an identifier that the grammar reads as a term can be
/// evaluated: the parser gives the tree, the tree holds no identifier, and
/// its steps, run on an empty stack, find their operands and leave one
/// value.
pub proof fn lemma_plain_term_has_a_value(tokens: Seq<Token>, tree: NodeAction)
    requires
        is_term(tokens, 0, tokens.len() as int, tree),
        no_identifier(tokens, 0, tokens.len() as int),
    ensures
        parse(tokens) == Ok::<NodeAction, SyntaxError>(tree),
        tree.first_identifier() is None,
        after_steps(tree.steps(), 0) == Some(1int),
{
    lemma_grammar_is_parsed(tokens, tree);
    lemma_term_plain(tokens, 0, tokens.len() as int, tree);
    lemma_steps_leave_one_value(tree, 0);
}

} // verus!
