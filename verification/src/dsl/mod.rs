//! Flow3D: a small, line-oriented, hand-authored language that declares twin
//! semantics (parts, tags, metadata, anchors, pipes, telemetry bindings).

pub mod ast;
pub mod compile;
pub mod diag;
pub mod lexer;
pub mod lowering;
pub mod parser;
pub mod reading;
pub mod writing;

pub use compile::{compile, CompileResult};
pub use diag::{render, render_all, Diagnostic, Severity, Span};
