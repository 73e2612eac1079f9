//! Arithmetic expressions in infix notation: lexing, conversion to postfix
//! order by the shunting-yard method, and reduction of the postfix sequence
//! to an expression tree by a stack machine.

pub mod calc;
pub mod convert;
pub mod laws;
pub mod lexeme;
pub mod matcher;
pub mod token;
