//! A small Scheme dialect: a compiler from syntax trees to a flat instruction
//! stream, and a four-register stack machine of the SECD family that runs it.
pub mod compiler;
pub mod value;
pub mod primitive;
pub mod reader;
pub mod vm;
