//! Structured type descriptors, values, and their well-formedness.
//!
//! A record type is declared once, as explicit structured data (kind,
//! bit width, element type, counts), and never re-derived from names at
//! run time. Malformed declarations (scalar width outside 2..=64, empty
//! arrays, oversized layouts) are rejected by `type_valid` at definition
//! time, never during serialization.

use crate::bits::length_bits;
use vstd::arithmetic::power2::pow2;
use vstd::prelude::*;

verus! {

/// Upper bound on the wire size of any single record type, in bits.
/// Keeps every cursor, offset and length computation inside `usize`
/// on any machine.
pub const MAX_RECORD_BITS: usize = 0x100_0000;

/// Interpretation of a primitive scalar. The wire format is identical for
/// all three: raw bits, LSB first. A conformant writer keeps `Void`
/// (padding) fields at zero — `RecordType::new_value` builds them so —
/// and a reader ignores whatever bits they carry.
#[derive(Clone, Copy, PartialEq, Eq, Structural, Debug)]
pub enum Signedness {
    Unsigned,
    Signed,
    Void,
}

/// The declared type of one field.
#[derive(Debug)]
pub enum TypeDesc {
    /// An unsigned, signed or void scalar of 2..=64 bits.
    Scalar { sign: Signedness, bits: usize },
    /// A fixed-count array of scalars; no length on the wire.
    StaticArray { elem_bits: usize, count: usize },
    /// A variable-count array of scalars, bounded by `capacity`; a length
    /// prefix of `length_bits(capacity)` bits precedes the elements unless
    /// the array is the final field of the transfer.
    DynamicArray { elem_bits: usize, capacity: usize },
    /// A nested record, inlined in place: it contributes its own flattened
    /// fields to the enclosing record.
    Record(RecordType),
}

/// One declared field: a name and a classified type.
#[derive(Debug)]
pub struct FieldDecl {
    pub name: String,
    pub ty: TypeDesc,
}

/// A declared record: its ordered fields and two opaque 64-bit signature
/// constants carried as static metadata for the transport layer.
#[derive(Debug)]
pub struct RecordType {
    pub fields: Vec<FieldDecl>,
    pub dsdl_signature: u64,
    pub data_type_signature: u64,
}

/// A value of one field.
#[derive(PartialEq, Eq, Debug)]
pub enum Value {
    /// Raw bits of a scalar; must stay below `2^bits` of its type.
    Scalar { raw: u64 },
    /// Elements of a static array.
    Array { elems: Vec<u64> },
    /// A dynamic array: the element count as read from or written to the
    /// wire, and the elements. For a well-formed value `count` equals
    /// `elems.len()`.
    Dynamic { count: u64, elems: Vec<u64> },
    /// A nested record value.
    Record(RecordValue),
}

/// A record value: one `Value` per declared field.
#[derive(PartialEq, Eq, Debug)]
pub struct RecordValue {
    pub fields: Vec<Value>,
}

/// Bits a value of this type can occupy on the wire, at most (a dynamic
/// array counted with a prefix and its full capacity).
pub open spec fn max_bits(t: TypeDesc) -> nat
    decreases t,
{
    match t {
        TypeDesc::Scalar { bits, .. } => bits as nat,
        TypeDesc::StaticArray { elem_bits, count } => (count * elem_bits) as nat,
        TypeDesc::DynamicArray { elem_bits, capacity } => length_bits(capacity as nat) + (capacity
            * elem_bits) as nat,
        TypeDesc::Record(rt) => max_bits_fields(rt.fields@),
    }
}

/// Sum of `max_bits` over a field list.
pub open spec fn max_bits_fields(fs: Seq<FieldDecl>) -> nat
    decreases fs,
{
    if fs.len() == 0 {
        0
    } else {
        max_bits(fs[0].ty) + max_bits_fields(fs.subrange(1, fs.len() as int))
    }
}

/// Definition-time well-formedness of a declared type.
pub open spec fn type_valid(t: TypeDesc) -> bool
    decreases t,
{
    match t {
        TypeDesc::Scalar { bits, .. } => 2 <= bits <= 64,
        TypeDesc::StaticArray { elem_bits, count } => 2 <= elem_bits <= 64 && count >= 1,
        TypeDesc::DynamicArray { elem_bits, capacity } => 2 <= elem_bits <= 64 && capacity >= 1,
        TypeDesc::Record(rt) => record_type_valid(rt),
    }
}

/// Definition-time well-formedness of a record type: every field valid,
/// and the whole layout bounded by `MAX_RECORD_BITS`.
pub open spec fn record_type_valid(rt: RecordType) -> bool
    decreases rt,
{
    &&& forall|i: int| 0 <= i < rt.fields@.len() ==> type_valid(#[trigger] rt.fields@[i].ty)
    &&& max_bits_fields(rt.fields@) <= MAX_RECORD_BITS
}

/// Number of flattened fields a field of this type contributes: one for a
/// leaf, the record's own flattened count for a nested record.
pub open spec fn flat_count(t: TypeDesc) -> nat
    decreases t,
{
    match t {
        TypeDesc::Record(rt) => flat_count_fields(rt.fields@),
        _ => 1,
    }
}

/// Total flattened field count of a field list.
pub open spec fn flat_count_fields(fs: Seq<FieldDecl>) -> nat
    decreases fs,
{
    if fs.len() == 0 {
        0
    } else {
        flat_count(fs[0].ty) + flat_count_fields(fs.subrange(1, fs.len() as int))
    }
}

/// A value fits its declared type.
pub open spec fn value_matches(t: TypeDesc, v: Value) -> bool
    decreases t,
{
    match t {
        TypeDesc::Scalar { sign: _, bits } => match v {
            Value::Scalar { raw } => raw < pow2(bits as nat),
            _ => false,
        },
        TypeDesc::StaticArray { elem_bits, count } => match v {
            Value::Array { elems } => elems@.len() == count && forall|i: int|
                0 <= i < elems@.len() ==> #[trigger] elems@[i] < pow2(elem_bits as nat),
            _ => false,
        },
        TypeDesc::DynamicArray { elem_bits, capacity } => match v {
            Value::Dynamic { count, elems } => elems@.len() <= capacity && count == elems@.len()
                && forall|i: int|
                0 <= i < elems@.len() ==> #[trigger] elems@[i] < pow2(elem_bits as nat),
            _ => false,
        },
        TypeDesc::Record(rt) => match v {
            Value::Record(rv) => record_matches(rt, rv),
            _ => false,
        },
    }
}

/// A record value fits its declared record type, field for field.
pub open spec fn record_matches(rt: RecordType, rv: RecordValue) -> bool
    decreases rt,
{
    &&& rv.fields@.len() == rt.fields@.len()
    &&& forall|i: int|
        0 <= i < rt.fields@.len() ==> value_matches(
            #[trigger] rt.fields@[i].ty,
            rv.fields@[i],
        )
}

} // verus!
