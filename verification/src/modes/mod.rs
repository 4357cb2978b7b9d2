//! The interactive prompt: its command language and what each command does to
//! the book.

pub mod interactive;
pub mod text;
