//! The KelpyShark standard library: string functions, JSON text, and the
//! line handling of console input, with their contracts.

pub mod text;
pub mod strings;
pub mod value;
pub mod json;
pub mod json_parse;
pub mod json_laws;
pub mod io;
