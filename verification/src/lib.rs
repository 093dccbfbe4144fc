pub mod ast;
pub mod binding;
pub mod callable;
pub mod cap;
pub mod class;
pub mod dict;
pub mod environment;
pub mod error;
pub mod expr;
pub mod frame;
pub mod grammar;
pub mod heap;
pub mod interpreter;
pub mod laws;
pub mod lexical;
pub mod lox;
pub mod object;
pub mod once;
pub mod once_expr;
pub mod once_parse;
pub mod once_stmt;
pub mod parser;
pub mod progress;
pub mod resolved;
pub mod resolver;
pub mod scanner;
pub mod scopes;
pub mod semantics;
pub mod session;
pub mod stable;
pub mod stmt;
pub mod token;
pub mod uses;
pub mod util;
