pub mod binop;
pub mod die;
pub mod display;
pub mod draws;
pub mod error;
pub mod expr;
pub mod inner;
pub mod modifier;
pub mod number;
pub mod parser;
pub mod roundtrip;
pub mod scalar;
pub mod simplify;

pub use crate::expr::error::{Error, Result};
pub use crate::expr::expr::Expr;
