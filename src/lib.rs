//! An arithmetic-expression engine for a four-function calculator: a tokenizer,
//! a shunting-yard evaluator over exact rationals, and the key-by-key
//! expression buffer that a calculator front end drives.
pub mod error;
pub mod num;
pub mod token;
pub mod eval;
pub mod format;
pub mod calculator;
pub mod state;
pub mod laws;
pub mod precedence_law;

pub use calculator::{Calculator, Key};
pub use error::CalcError;
pub use eval::{evaluate, evaluate_postfix, precedence, to_postfix};
pub use format::format_number;
pub use num::{Num, Op};
pub use state::{AppState, TinyCalc};
pub use token::{tokenize, Token};
