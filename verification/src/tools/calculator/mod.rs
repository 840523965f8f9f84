//! Basic arithmetic.

pub mod definition;

use vstd::prelude::*;

use crate::json::{Json, JsonModel};
use crate::text::same_text;
use crate::tools::calculator::definition::{parameters_model, DESCRIPTION};
use crate::tools::tool::Tool;

verus! {

/// Tool name, used both in the definition and in dispatch.
pub const NAME: &'static str = "calculator";

/// Basic arithmetic, offered to a model as a tool.
#[derive(Debug, Clone, Copy, PartialEq, Eq, Structural)]
pub struct Calculator;

impl Tool for Calculator {
    open spec fn called(&self) -> Seq<char> {
        NAME@
    }

    open spec fn described(&self) -> Seq<char> {
        DESCRIPTION@
    }

    open spec fn schema(&self) -> JsonModel {
        parameters_model()
    }

    fn name(&self) -> (name: &str) {
        NAME
    }

    fn description(&self) -> (text: &str) {
        DESCRIPTION
    }

    fn parameters(&self) -> (schema: Json) {
        definition::parameters()
    }
}

/// Supported arithmetic operations.
#[derive(Debug, Clone, Copy, PartialEq, Eq, Structural)]
pub enum Operator {
    Add,
    Subtract,
    Multiply,
    Divide,
}

/// The word an operation is written as.
pub open spec fn word(operator: Operator) -> Seq<char> {
    match operator {
        Operator::Add => "add"@,
        Operator::Subtract => "subtract"@,
        Operator::Multiply => "multiply"@,
        Operator::Divide => "divide"@,
    }
}

impl Operator {
    /// Every operation, in the order the schema lists them.
    pub const ALL: [Operator; 4] = [
        Operator::Add,
        Operator::Subtract,
        Operator::Multiply,
        Operator::Divide,
    ];

    /// The word the operation is written as.
    pub fn as_str(self) -> (text: &'static str)
        ensures
            text@ == word(self),
    {
        match self {
            Operator::Add => "add",
            Operator::Subtract => "subtract",
            Operator::Multiply => "multiply",
            Operator::Divide => "divide",
        }
    }

    /// The operation written as `text`; nothing for any other word.
    pub fn from_name(text: &str) -> (operator: Option<Operator>)
        ensures
            match operator {
                Some(found) => word(found) == text@,
                None => forall|other: Operator| #[trigger] word(other) != text@,
            },
    {
        let mut i: usize = 0;
        while i < 4
            invariant
                i <= 4,
                forall|k: int| 0 <= k < i ==> word(#[trigger] Operator::ALL[k]) != text@,
            decreases 4 - i,
        {
            let candidate = Operator::ALL[i];
            if same_text(candidate.as_str(), text) {
                return Some(candidate);
            }
            i += 1;
        }
        proof {
            assert forall|other: Operator| #[trigger] word(other) != text@ by {
                match other {
                    Operator::Add => assert(word(Operator::ALL[0]) != text@),
                    Operator::Subtract => assert(word(Operator::ALL[1]) != text@),
                    Operator::Multiply => assert(word(Operator::ALL[2]) != text@),
                    Operator::Divide => assert(word(Operator::ALL[3]) != text@),
                }
            }
        }
        None
    }
}

/// No two operations are written as one word, so each is read back from its own.
pub proof fn operators_read_back(left: Operator, right: Operator)
    ensures
        word(left) == word(right) ==> left == right,
{
    reveal_strlit("add");
    reveal_strlit("subtract");
    reveal_strlit("multiply");
    reveal_strlit("divide");
    assert("add"@.len() == 3);
    assert("subtract"@.len() == 8 && "subtract"@[0] == 's');
    assert("multiply"@.len() == 8 && "multiply"@[0] == 'm');
    assert("divide"@.len() == 6);
}

} // verus!
