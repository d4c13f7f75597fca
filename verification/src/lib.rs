//! A decoder for the constant pool of a Java class file.
//!
//! The constant pool is a table of tagged records of varying width that refer to one another
//! by index. Decoding goes in two passes: [`parse_entries`] reads the records in file order
//! through a [`Cursor`], one [`parse_constant_pool_tag`] at a time, and
//! [`parse_constant_pool`] then follows every index to see that it names an entry of the
//! right kind. [`ConstantPool::decode`] does both and hands out the table only if both
//! succeed.
//!
//! Text in the pool is written in modified UTF-8, which [`parse_javaized_utf8`] decodes.
//! Beside the pool stand two small decoders for what a class file holds next to it:
//! [`parse_field_descriptor`] for the descriptors of field types and [`parse_access_flags`]
//! for the flags word of a class.
//!
//! Every function states what it returns over a mathematical model of its input, and every
//! failure is a [`DecodeError`] that says where decoding stopped.

pub mod access;
pub mod chars;
pub mod constantpool;
pub mod cursor;
pub mod descriptor;
pub mod entry;
pub mod error;
pub mod mutf8;
pub mod primitive;

pub use access::{parse_access_flags, CFAccessFlags};
pub use constantpool::{parse_constant_pool, parse_entries, ConstantPool};
pub use cursor::Cursor;
pub use descriptor::{parse_field_descriptor, FieldDescriptor, ReferenceClassDescriptor};
pub use entry::{parse_constant_pool_tag, ConstantPoolItem};
pub use error::DecodeError;
pub use mutf8::parse_javaized_utf8;
pub use primitive::{parse_i32, parse_i64, parse_u16, parse_u32, parse_u64};
