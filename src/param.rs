//! The parameter tree that edits are applied to.
//!
//! Floating-point leaves hold the IEEE-754 bit pattern of their `f32`; this
//! library moves such values but does no arithmetic on them.
use vstd::prelude::*;

verus! {

/// One node of a parameter tree.
#[derive(Debug)]
pub enum ParamKind {
    Bool(bool),
    I8(i8),
    U8(u8),
    I16(i16),
    U16(u16),
    I32(i32),
    U32(u32),
    /// The bit pattern of an `f32`.
    Float(u32),
    /// A 40-bit name hash.
    Hash(u64),
    Str(String),
    List(ParamList),
    Struct(ParamStruct),
}

/// An ordered list of nodes.
#[derive(Debug)]
pub struct ParamList(pub Vec<ParamKind>);

/// An ordered list of fields, each keyed by the hash of its name.
#[derive(Debug)]
pub struct ParamStruct(pub Vec<(u64, ParamKind)>);

} // verus!
