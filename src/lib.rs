//! The engine of a calculator over binary infix arithmetic: which tokens may
//! follow an expression being typed, the conversion of infix tokens to
//! postfix order, and the plan of a postfix evaluation.

pub mod evaluate;
pub mod expression;
