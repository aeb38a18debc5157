//! Core of an Emacs-Lisp runtime: a tagged value word, a mark-sweep heap
//! with an explicit root set, symbol interning, byte-code function objects,
//! the family of built-in allocators, the `format` routine, a lexer and a
//! gap buffer.

pub mod allocators;
pub mod buffer;
pub mod editfns;
pub mod error;
pub mod heap;
pub mod intern;
pub mod lex;
pub mod object;
pub mod print;
pub mod root;
pub mod text;
pub mod value;
