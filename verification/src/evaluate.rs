//! Evaluation, as far as it is no arithmetic: a tree is laid out as the
//! steps of a stack machine, in the order in which its value is computed.

use vstd::prelude::*;
use crate::parse_tree::{BinaryNode, NodeAction};

verus! {

/// Why a tree has no value.
#[derive(Debug, PartialEq)]
pub enum EvalError {
    /// The tree holds this identifier, and identifiers have no value.
    Identifier(String),
}

/// One step of the evaluation. `Push` puts the value of a number literal on
/// the stack; `Negate` replaces the top; the others replace the two values
/// on top, the lower of which is the left operand.
#[derive(Debug, PartialEq)]
pub enum Step {
    Push(String),
    Add,
    Subtract,
    Multiply,
    Divide,
    Negate,
}

impl BinaryNode {
    /// The first identifier of the two sides, the left side first.
    pub open spec fn first_identifier(self) -> Option<String>
        decreases self,
    {
        match self.left.first_identifier() {
            Some(name) => Some(name),
            None => self.right.first_identifier(),
        }
    }

    /// The steps of the left side, then those of the right side.
    pub open spec fn steps(self) -> Seq<Step>
        decreases self,
    {
        self.left.steps() + self.right.steps()
    }

    fn emit(&self, out: &mut Vec<Step>) -> (r: Result<(), EvalError>)
        ensures
            emitted(self.first_identifier(), self.steps(), old(out)@, final(out)@, r),
        decreases self,
    {
        match self.left.emit(out) {
            Err(e) => {
                return Err(e);
            },
            Ok(()) => {},
        }
        let r = self.right.emit(out);
        proof {
            if r is Ok {
                assert(final(out)@ =~= old(out)@ + self.steps());
            }
        }
        r
    }
}

/// What emitting a tree does: with no identifier in it, its steps are
/// appended; else the error names the first identifier.
pub open spec fn emitted(
    identifier: Option<String>,
    steps: Seq<Step>,
    before: Seq<Step>,
    after: Seq<Step>,
    r: Result<(), EvalError>,
) -> bool {
    match identifier {
        Some(name) => r == Err::<(), EvalError>(EvalError::Identifier(name)),
        None => r is Ok && after == before + steps,
    }
}

impl NodeAction {
    /// The identifier that an evaluation from left to right meets first.
    pub open spec fn first_identifier(self) -> Option<String>
        decreases self,
    {
        match self {
            NodeAction::Number(_) => None,
            NodeAction::Identifier(name) => Some(name),
            NodeAction::Negate(inner) => inner.node.first_identifier(),
            NodeAction::Add(sides) => sides.first_identifier(),
            NodeAction::Subtract(sides) => sides.first_identifier(),
            NodeAction::Multiply(sides) => sides.first_identifier(),
            NodeAction::Divide(sides) => sides.first_identifier(),
        }
    }

    /// The steps that compute the value of the tree: those of the operands
    /// from left to right, then the operation. An identifier has none.
    pub open spec fn steps(self) -> Seq<Step>
        decreases self,
    {
        match self {
            NodeAction::Number(literal) => seq![Step::Push(literal)],
            NodeAction::Identifier(_) => Seq::empty(),
            NodeAction::Negate(inner) => inner.node.steps().push(Step::Negate),
            NodeAction::Add(sides) => sides.steps().push(Step::Add),
            NodeAction::Subtract(sides) => sides.steps().push(Step::Subtract),
            NodeAction::Multiply(sides) => sides.steps().push(Step::Multiply),
            NodeAction::Divide(sides) => sides.steps().push(Step::Divide),
        }
    }

    fn emit(&self, out: &mut Vec<Step>) -> (r: Result<(), EvalError>)
        ensures
            emitted(self.first_identifier(), self.steps(), old(out)@, final(out)@, r),
        decreases self,
    {
        let ghost before = out@;
        let (r, last): (Result<(), EvalError>, Step) = match self {
            NodeAction::Number(literal) => {
                out.push(Step::Push(literal.clone()));
                assert(out@ =~= before + self.steps());
                return Ok(());
            },
            NodeAction::Identifier(name) => {
                return Err(EvalError::Identifier(name.clone()));
            },
            NodeAction::Negate(inner) => (inner.node.emit(out), Step::Negate),
            NodeAction::Add(sides) => (sides.emit(out), Step::Add),
            NodeAction::Subtract(sides) => (sides.emit(out), Step::Subtract),
            NodeAction::Multiply(sides) => (sides.emit(out), Step::Multiply),
            NodeAction::Divide(sides) => (sides.emit(out), Step::Divide),
        };
        match r {
            Err(e) => Err(e),
            Ok(()) => {
                out.push(last);
                assert(out@ =~= before + self.steps());
                Ok(())
            },
        }
    }

    /// Lays the tree out for evaluation: its steps, or, where it holds an
    /// identifier, the error that names the first one.
    pub fn program(&self) -> (r: Result<Vec<Step>, EvalError>)
        ensures
            match self.first_identifier() {
                Some(name) => r == Err::<Vec<Step>, EvalError>(EvalError::Identifier(name)),
                None => r is Ok && r->Ok_0@ == self.steps(),
            },
    {
        let mut out: Vec<Step> = Vec::new();
        match self.emit(&mut out) {
            Err(e) => Err(e),
            Ok(()) => {
                assert(out@ =~= self.steps());
                Ok(out)
            },
        }
    }
}

/// The height of the stack after one step from height `depth`, where the
/// step finds the values it needs.
pub open spec fn after_step(step: Step, depth: int) -> Option<int> {
    match step {
        Step::Push(_) => Some(depth + 1),
        Step::Negate => if depth >= 1 {
            Some(depth)
        } else {
            None
        },
        _ => if depth >= 2 {
            Some(depth - 1)
        } else {
            None
        },
    }
}

/// The height of the stack after the steps from height `depth`, where every
/// step finds the values it needs.
pub open spec fn after_steps(steps: Seq<Step>, depth: int) -> Option<int>
    decreases steps.len(),
{
    if steps.len() == 0 {
        Some(depth)
    } else {
        match after_steps(steps.drop_last(), depth) {
            Some(d) => after_step(steps.last(), d),
            None => None,
        }
    }
}

proof fn lemma_after_both(a: Seq<Step>, b: Seq<Step>, depth: int)
    ensures
        after_steps(a + b, depth) == match after_steps(a, depth) {
            Some(d) => after_steps(b, d),
            None => None,
        },
    decreases b.len(),
{
    if b.len() == 0 {
        assert(a + b =~= a);
    } else {
        lemma_after_both(a, b.drop_last(), depth);
        assert((a + b).drop_last() =~= a + b.drop_last());
        assert((a + b).last() == b.last());
    }
}

proof fn lemma_sides_leave_two(sides: BinaryNode, depth: int)
    requires
        sides.first_identifier() is None,
        depth >= 0,
    ensures
        after_steps(sides.steps(), depth) == Some(depth + 2),
    decreases sides,
{
    lemma_steps_leave_one_value(*sides.left, depth);
    lemma_steps_leave_one_value(*sides.right, depth + 1);
    lemma_after_both(sides.left.steps(), sides.right.steps(), depth);
}

/// The steps of a tree without identifiers never find the stack too low,
/// and leave exactly one value more on it than they found.
pub proof fn lemma_steps_leave_one_value(tree: NodeAction, depth: int)
    requires
        tree.first_identifier() is None,
        depth >= 0,
    ensures
        after_steps(tree.steps(), depth) == Some(depth + 1),
    decreases tree,
{
    match tree {
        NodeAction::Number(literal) => {
            assert(tree.steps().drop_last() =~= Seq::empty());
            assert(after_steps(Seq::empty(), depth) == Some(depth));
            assert(tree.steps().last() == Step::Push(literal));
        },
        NodeAction::Identifier(_) => {},
        NodeAction::Negate(inner) => {
            lemma_steps_leave_one_value(*inner.node, depth);
            assert(tree.steps().drop_last() =~= inner.node.steps());
        },
        NodeAction::Add(sides) => {
            lemma_sides_leave_two(sides, depth);
            assert(tree.steps().drop_last() =~= sides.steps());
        },
        NodeAction::Subtract(sides) => {
            lemma_sides_leave_two(sides, depth);
            assert(tree.steps().drop_last() =~= sides.steps());
        },
        NodeAction::Multiply(sides) => {
            lemma_sides_leave_two(sides, depth);
            assert(tree.steps().drop_last() =~= sides.steps());
        },
        NodeAction::Divide(sides) => {
            lemma_sides_leave_two(sides, depth);
            assert(tree.steps().drop_last() =~= sides.steps());
        },
    }
}

} // verus!
