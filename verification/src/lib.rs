//! Decoder for the Lua 5.1 precompiled chunk format.
//!
//! The library turns a binary bytecode image into a structured tree: a fixed
//! twelve-byte header followed by one function prototype, which recursively
//! contains its instructions, constant pool, nested prototypes and debug
//! tables. It decodes only the binary shape; it does not execute or validate
//! instruction semantics.
//!
//! Every decoder is specified against a deterministic specification-level
//! parser over the byte sequence, so the value returned, the error returned
//! and the number of bytes consumed are pinned down exactly.

pub mod constants;
pub mod cursor;
pub mod instructions;
pub mod locals;
pub mod lua;
pub mod source_lines;
pub mod upvalues;

pub use cursor::{ByteOrder, DecodeError, LengthSize};
pub use lua::decode;
