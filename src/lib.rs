pub mod assignments;
pub mod ast;
pub mod collect;
pub mod engine;
pub mod error;
pub mod lexer;
pub mod parser;
pub mod rows;
pub mod semantics;

pub use assignments::Assignments;
pub use ast::ASTNode;
pub use engine::Engine;
pub use error::Error;
pub use lexer::{tokenize, Token};
pub use parser::parse;
