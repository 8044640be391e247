use arith::evaluate::{EvalError, Step};
use arith::parse_tree::{
    parse_expression, parse_factor, parse_primary, parse_term, parse_unary, run, BinaryNode,
    NodeAction, SyntaxError, SyntaxReason, UnaryNode,
};
use arith::tokenize::{Token, TokenType};

fn tokens(text: &str) -> Vec<Token> {
    arith::tokenize::run(&text.to_string()).unwrap()
}

fn num(text: &str) -> NodeAction {
    NodeAction::Number(text.to_string())
}

fn both(left: NodeAction, right: NodeAction) -> BinaryNode {
    BinaryNode { left: Box::new(left), right: Box::new(right) }
}

fn neg(node: NodeAction) -> NodeAction {
    NodeAction::Negate(UnaryNode { node: Box::new(node) })
}

fn value(tree: &NodeAction) -> f64 {
    let mut stack: Vec<f64> = Vec::new();
    for step in tree.program().unwrap() {
        let top = match step {
            Step::Push(literal) => literal.parse::<f64>().unwrap(),
            Step::Negate => -stack.pop().unwrap(),
            binary => {
                let right = stack.pop().unwrap();
                let left = stack.pop().unwrap();
                match binary {
                    Step::Add => left + right,
                    Step::Subtract => left - right,
                    Step::Multiply => left * right,
                    _ => left / right,
                }
            }
        };
        stack.push(top);
    }
    assert_eq!(stack.len(), 1);
    stack[0]
}

fn error(text: &str) -> SyntaxError {
    run(&tokens(text)).unwrap_err()
}

#[test]
fn product_binds_tighter_than_sum() {
    let tree = run(&tokens("3+4*2")).unwrap();
    assert_eq!(tree, NodeAction::Add(both(num("3"), NodeAction::Multiply(both(num("4"), num("2"))))));
    assert_eq!(
        tree.program(),
        Ok(vec![
            Step::Push("3".to_string()),
            Step::Push("4".to_string()),
            Step::Push("2".to_string()),
            Step::Multiply,
            Step::Add,
        ])
    );
    assert_eq!(value(&tree), 11.0);
}

#[test]
fn parentheses_override_precedence() {
    let tree = run(&tokens("(1+2)*3")).unwrap();
    assert_eq!(tree, NodeAction::Multiply(both(NodeAction::Add(both(num("1"), num("2"))), num("3"))));
    assert_eq!(value(&tree), 9.0);
}

#[test]
fn minus_signs_chain() {
    let tree = run(&tokens("--5")).unwrap();
    assert_eq!(tree, neg(neg(num("5"))));
    assert_eq!(value(&tree), 5.0);
}

#[test]
fn division_by_zero_is_infinite() {
    let tree = run(&tokens("1/0")).unwrap();
    assert_eq!(tree, NodeAction::Divide(both(num("1"), num("0"))));
    assert_eq!(value(&tree), f64::INFINITY);
    let tree = run(&tokens("-1/0")).unwrap();
    assert_eq!(tree, NodeAction::Divide(both(neg(num("1")), num("0"))));
    assert_eq!(value(&tree), f64::NEG_INFINITY);
}

#[test]
fn binary_operators_join_from_the_left() {
    let tree = run(&tokens("8-3-2")).unwrap();
    assert_eq!(
        tree,
        NodeAction::Subtract(both(NodeAction::Subtract(both(num("8"), num("3"))), num("2")))
    );
    assert_eq!(value(&tree), 3.0);
    let tree = run(&tokens("8/4/2*3")).unwrap();
    assert_eq!(
        tree,
        NodeAction::Multiply(both(
            NodeAction::Divide(both(NodeAction::Divide(both(num("8"), num("4"))), num("2"))),
            num("3")
        ))
    );
    assert_eq!(value(&tree), 3.0);
}

#[test]
fn unary_minus_binds_tighter_than_product() {
    let tree = run(&tokens("2*-3+1")).unwrap();
    assert_eq!(
        tree,
        NodeAction::Add(both(NodeAction::Multiply(both(num("2"), neg(num("3")))), num("1")))
    );
    assert_eq!(value(&tree), -5.0);
}

#[test]
fn missing_right_parenthesis_points_at_last_token() {
    let list = tokens("(1+2");
    let e = run(&list).unwrap_err();
    assert_eq!(e.reason, SyntaxReason::ExpectedRightParenthesesGotEof);
    assert_eq!(e.reason.message(), "Expected right parentheses, but got EOF");
    assert_eq!(e.token, Some(3));
    let at = &list[e.token.unwrap()];
    assert_eq!(at.token_type, TokenType::Number("2".to_string()));
    assert_eq!(at.line_pos, (3, 4));
}

#[test]
fn lone_right_parenthesis_is_unexpected() {
    let list = tokens(")");
    let e = run(&list).unwrap_err();
    assert_eq!(e.reason.message(), "Unexpected right parentheses");
    assert_eq!(e.token, Some(0));
    assert_eq!(list[0].line, 0);
    assert_eq!(list[0].line_pos, (0, 1));
}

#[test]
fn wrong_token_where_parenthesis_closes() {
    let e = error("(1 2)");
    assert_eq!(e, SyntaxError { reason: SyntaxReason::ExpectedRightParentheses, token: Some(2) });
    assert_eq!(e.reason.message(), "Expected right parentheses");
}

#[test]
fn operator_at_the_end_expects_an_operand() {
    let e = error("1+");
    assert_eq!(e, SyntaxError { reason: SyntaxReason::ExpectedUnaryAfter, token: Some(1) });
    assert_eq!(e.reason.message(), "Expected unary expression after");
    let e = error("2*(");
    assert_eq!(e, SyntaxError { reason: SyntaxReason::ExpectedUnaryAfter, token: Some(2) });
}

#[test]
fn operator_where_an_operand_begins() {
    let e = error("1+*2");
    assert_eq!(e, SyntaxError { reason: SyntaxReason::ExpectedPrimary, token: Some(2) });
    assert_eq!(e.reason.message(), "Expected Primary Expression");
}

#[test]
fn primary_at_the_end_of_the_tokens() {
    let list = tokens("1+");
    let mut at = 2;
    let e = parse_primary(&list, &mut at).unwrap_err();
    assert_eq!(e, SyntaxError { reason: SyntaxReason::ExpectedPrimaryAfter, token: Some(1) });
    assert_eq!(e.reason.message(), "Expected primary expession after");
}

#[test]
fn no_tokens_are_no_expression() {
    let e = run(&Vec::new()).unwrap_err();
    assert_eq!(e, SyntaxError { reason: SyntaxReason::ExpectedUnaryAfter, token: None });
}

#[test]
fn tokens_behind_the_expression_are_an_error() {
    let e = error("1 2");
    assert_eq!(e, SyntaxError { reason: SyntaxReason::UnexpectedTrailingToken, token: Some(1) });
    let e = error("(1+2))");
    assert_eq!(e.reason, SyntaxReason::UnexpectedTrailingToken);
    assert_eq!(e.token, Some(5));
    assert_eq!(e.reason.message(), "Unexpected token after the expression");
}

#[test]
fn levels_move_the_cursor_behind_what_they_read() {
    let list = tokens("-a*2+3)");
    let mut at = 0;
    assert_eq!(parse_unary(&list, &mut at).unwrap(), neg(NodeAction::Identifier("a".to_string())));
    assert_eq!(at, 2);
    at = 0;
    assert_eq!(
        parse_factor(&list, &mut at).unwrap(),
        NodeAction::Multiply(both(neg(NodeAction::Identifier("a".to_string())), num("2")))
    );
    assert_eq!(at, 4);
    at = 0;
    let whole = NodeAction::Add(both(
        NodeAction::Multiply(both(neg(NodeAction::Identifier("a".to_string())), num("2"))),
        num("3"),
    ));
    assert_eq!(parse_term(&list, &mut at).unwrap(), whole);
    assert_eq!(at, 6);
    at = 0;
    assert_eq!(parse_expression(&list, &mut at).unwrap(), whole);
    assert_eq!(at, 6);
    at = 3;
    assert_eq!(parse_primary(&list, &mut at).unwrap(), num("2"));
    assert_eq!(at, 4);
}

#[test]
fn identifiers_have_no_value() {
    let tree = run(&tokens("1+(x*2)-y")).unwrap();
    assert_eq!(tree.program(), Err(EvalError::Identifier("x".to_string())));
    let tree = run(&tokens("-(2/b)")).unwrap();
    assert_eq!(tree.program(), Err(EvalError::Identifier("b".to_string())));
}

#[test]
fn steps_keep_the_order_of_the_operands() {
    let tree = run(&tokens("-(2/4)-1.5e1")).unwrap();
    assert_eq!(
        tree.program(),
        Ok(vec![
            Step::Push("2".to_string()),
            Step::Push("4".to_string()),
            Step::Divide,
            Step::Negate,
            Step::Push("1.5e1".to_string()),
            Step::Subtract,
        ])
    );
    assert_eq!(value(&tree), -15.5);
}

#[test]
fn arithmetic_follows_precedence_from_the_left() {
    assert_eq!(value(&run(&tokens("2+3*4-10/4")).unwrap()), 11.5);
    assert_eq!(value(&run(&tokens("2*(3+4)*-(1-3)")).unwrap()), 28.0);
    assert_eq!(value(&run(&tokens("100/10/5")).unwrap()), 2.0);
    assert_eq!(value(&run(&tokens("1 - 2 - 3 - 4")).unwrap()), -8.0);
    assert_eq!(value(&run(&tokens("((7))")).unwrap()), 7.0);
    assert!(value(&run(&tokens("0/0")).unwrap()).is_nan());
}
