use vstd::prelude::*;

verus! {

/// The kind of a token: a number, one of the four binary operators, or a
/// parenthesis.
#[derive(Clone, Copy, Debug, PartialEq, Eq, Structural)]
pub enum OperandType {
    Number,
    Add,
    Sub,
    Mul,
    Div,
    Open,
    Close,
}

/// True of the four binary operators.
pub open spec fn is_binary(k: OperandType) -> bool {
    k is Add || k is Sub || k is Mul || k is Div
}

/// The precedence class of an operator kind.
pub open spec fn spec_priority(k: OperandType) -> nat {
    match k {
        OperandType::Add | OperandType::Sub => 0,
        OperandType::Mul | OperandType::Div => 1,
        _ => 2,
    }
}

/// The precedence class of an operator kind: Add and Sub bind loosest, Mul
/// and Div tighter, the parentheses tightest.
pub fn priority(k: OperandType) -> (r: u8)
    ensures
        r as nat == spec_priority(k),
{
    match k {
        OperandType::Add | OperandType::Sub => 0,
        OperandType::Mul | OperandType::Div => 1,
        _ => 2,
    }
}

/// A token of a postfix sequence. A number carries its literal text (digits,
/// optionally a dot and more digits); any other kind carries an empty text.
pub struct Token {
    pub operand_type: OperandType,
    pub value: Vec<char>,
}

impl Token {
    pub fn new(op_type: OperandType, value: Vec<char>) -> (r: Token)
        ensures
            r.operand_type == op_type,
            r.value@ == value@,
    {
        Token { operand_type: op_type, value }
    }

    /// The token as a kind and a literal.
    pub open spec fn view(&self) -> (OperandType, Seq<char>) {
        (self.operand_type, self.value@)
    }
}

} // verus!
