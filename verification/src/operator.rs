//! The eleven binary operators of the game.

use vstd::prelude::*;

verus! {

/// A binary operator. It carries no state: it only selects how two operands
/// are combined.
#[derive(Clone, Copy, Debug, PartialEq, Eq, Structural)]
pub enum Operator {
    Add,
    Subtract,
    Multiply,
    Divide,
    Modulo,
    ShiftLeft,
    ShiftRight,
    BitOr,
    BitAnd,
    BitXor,
    Power,
}

/// How many operators there are.
pub const OPERATOR_COUNT: usize = 11;

/// The operator at each position of the fixed order in which a search tries
/// them. Positions past the last stand for the last operator.
pub open spec fn operator_at(index: int) -> Operator {
    if index == 0 {
        Operator::Add
    } else if index == 1 {
        Operator::Subtract
    } else if index == 2 {
        Operator::Multiply
    } else if index == 3 {
        Operator::Divide
    } else if index == 4 {
        Operator::Modulo
    } else if index == 5 {
        Operator::ShiftLeft
    } else if index == 6 {
        Operator::ShiftRight
    } else if index == 7 {
        Operator::BitOr
    } else if index == 8 {
        Operator::BitAnd
    } else if index == 9 {
        Operator::BitXor
    } else {
        Operator::Power
    }
}

impl Operator {
    /// The position of this operator in the fixed order.
    pub open spec fn position(self) -> int {
        match self {
            Operator::Add => 0,
            Operator::Subtract => 1,
            Operator::Multiply => 2,
            Operator::Divide => 3,
            Operator::Modulo => 4,
            Operator::ShiftLeft => 5,
            Operator::ShiftRight => 6,
            Operator::BitOr => 7,
            Operator::BitAnd => 8,
            Operator::BitXor => 9,
            Operator::Power => 10,
        }
    }

    /// The text that stands for this operator in a printed expression.
    pub open spec fn symbol_text(self) -> Seq<char> {
        match self {
            Operator::Add => "+"@,
            Operator::Subtract => "-"@,
            Operator::Multiply => "*"@,
            Operator::Divide => "/"@,
            Operator::Modulo => "mod"@,
            Operator::ShiftLeft => "<<"@,
            Operator::ShiftRight => ">>"@,
            Operator::BitOr => "bitwiseOR"@,
            Operator::BitAnd => "bitwiseAND"@,
            Operator::BitXor => "bitwiseXOR"@,
            Operator::Power => "^"@,
        }
    }

    /// The operator at `index` of the fixed order, if there is one.
    pub fn from_index(index: usize) -> (r: Option<Operator>)
        ensures
            index < OPERATOR_COUNT ==> r == Some(operator_at(index as int)),
            index >= OPERATOR_COUNT ==> r is None,
    {
        if index == 0 {
            Some(Operator::Add)
        } else if index == 1 {
            Some(Operator::Subtract)
        } else if index == 2 {
            Some(Operator::Multiply)
        } else if index == 3 {
            Some(Operator::Divide)
        } else if index == 4 {
            Some(Operator::Modulo)
        } else if index == 5 {
            Some(Operator::ShiftLeft)
        } else if index == 6 {
            Some(Operator::ShiftRight)
        } else if index == 7 {
            Some(Operator::BitOr)
        } else if index == 8 {
            Some(Operator::BitAnd)
        } else if index == 9 {
            Some(Operator::BitXor)
        } else if index == 10 {
            Some(Operator::Power)
        } else {
            None
        }
    }

    /// The text that stands for this operator in a printed expression.
    pub fn symbol(self) -> (text: &'static str)
        ensures
            text@ == self.symbol_text(),
    {
        match self {
            Operator::Add => "+",
            Operator::Subtract => "-",
            Operator::Multiply => "*",
            Operator::Divide => "/",
            Operator::Modulo => "mod",
            Operator::ShiftLeft => "<<",
            Operator::ShiftRight => ">>",
            Operator::BitOr => "bitwiseOR",
            Operator::BitAnd => "bitwiseAND",
            Operator::BitXor => "bitwiseXOR",
            Operator::Power => "^",
        }
    }
}

/// Every operator stands at its own position of the fixed order.
pub proof fn lemma_operator_at_position(op: Operator)
    ensures
        0 <= op.position() < OPERATOR_COUNT,
        operator_at(op.position()) == op,
{
}

/// Every position of the fixed order holds its own operator.
pub proof fn lemma_position_of_operator(index: int)
    requires
        0 <= index < OPERATOR_COUNT,
    ensures
        operator_at(index).position() == index,
{
}

} // verus!
