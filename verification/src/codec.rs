//! The executable codec: flattened field counts, exact bit lengths, and the
//! resumable serialize / deserialize operations over records.

use crate::bits::{elems_bits, length_bits, lemma_length_bits_le, scalar_bits};
use crate::buffer::{SerializationBuffer, SerializationResult};
use crate::types::{
    flat_count, flat_count_fields, max_bits, max_bits_fields, record_matches, record_type_valid,
    type_valid, value_matches, FieldDecl, RecordType, RecordValue, TypeDesc, Value,
    MAX_RECORD_BITS,
};
use crate::wire::{
    cursor_ok, enc_offset, field_enc, field_progress, fields_cursor_ok, fields_enc,
    fields_progress, flat_base, lemma_cursor_at, lemma_cursor_end, lemma_enc_offset_step,
    lemma_enc_offset_total, lemma_flat_base_step, lemma_flat_base_total, lemma_progress_at,
    lemma_progress_at_start, lemma_progress_end, lemma_progress_le_enc,
    lemma_progress_le_enc_fields, record_enc,
};
use vstd::arithmetic::power2::{lemma2_to64, lemma2_to64_rest};
use vstd::prelude::*;

verus! {

/// One field of a valid type contributes at least one wire bit per
/// flattened field it contributes.
pub proof fn lemma_flat_le_max(t: TypeDesc)
    requires
        type_valid(t),
    ensures
        flat_count(t) <= max_bits(t),
    decreases t,
{
    match t {
        TypeDesc::StaticArray { elem_bits, count } => {
            assert(count * elem_bits >= count * 1) by (nonlinear_arith)
                requires
                    elem_bits >= 1,
                    count >= 0,
            ;
        },
        TypeDesc::DynamicArray { elem_bits, capacity } => {
            assert(length_bits(capacity as nat) >= 1);
        },
        TypeDesc::Record(rt) => {
            lemma_flat_le_max_fields(rt.fields@);
        },
        _ => {},
    }
}

/// Field-list form of `lemma_flat_le_max`.
pub proof fn lemma_flat_le_max_fields(fs: Seq<FieldDecl>)
    requires
        forall|i: int| 0 <= i < fs.len() ==> type_valid(#[trigger] fs[i].ty),
    ensures
        flat_count_fields(fs) <= max_bits_fields(fs),
    decreases fs,
{
    if fs.len() > 0 {
        lemma_flat_le_max(fs[0].ty);
        lemma_flat_le_max_fields(fs.subrange(1, fs.len() as int));
    }
}

/// Each field's own size bound is covered by the list's.
pub proof fn lemma_max_bits_field_le(fs: Seq<FieldDecl>, i: int)
    requires
        0 <= i < fs.len(),
    ensures
        max_bits(fs[i].ty) <= max_bits_fields(fs),
    decreases fs,
{
    if i > 0 {
        lemma_max_bits_field_le(fs.subrange(1, fs.len() as int), i - 1);
    }
}

/// Partial flattened sums never exceed the total.
pub proof fn lemma_flat_base_le_total(fs: Seq<FieldDecl>, i: int)
    requires
        0 <= i <= fs.len(),
    ensures
        flat_base(fs, i) <= flat_count_fields(fs),
    decreases fs,
{
    if fs.len() > 0 && i > 0 {
        lemma_flat_base_le_total(fs.subrange(1, fs.len() as int), i - 1);
    }
}

/// The wire image of a matching value never exceeds the type's size bound.
pub proof fn lemma_enc_le_max(t: TypeDesc, v: Value, tail: bool)
    requires
        type_valid(t),
        value_matches(t, v),
    ensures
        field_enc(t, v, tail).len() <= max_bits(t),
    decreases t,
{
    match t {
        TypeDesc::DynamicArray { elem_bits, capacity } => {
            if let Value::Dynamic { count, elems } = v {
                assert(elems@.len() * elem_bits <= capacity * elem_bits) by (nonlinear_arith)
                    requires
                        elems@.len() <= capacity,
                        elem_bits >= 0,
                ;
            }
        },
        TypeDesc::Record(rt) => {
            if let Value::Record(rv) = v {
                lemma_enc_le_max_fields(rt.fields@, rv.fields@, tail);
            }
        },
        _ => {},
    }
}

/// Field-list form of `lemma_enc_le_max`.
pub proof fn lemma_enc_le_max_fields(fs: Seq<FieldDecl>, vs: Seq<Value>, last: bool)
    requires
        vs.len() == fs.len(),
        forall|i: int| 0 <= i < fs.len() ==> type_valid(#[trigger] fs[i].ty),
        forall|i: int| 0 <= i < fs.len() ==> value_matches(#[trigger] fs[i].ty, vs[i]),
    ensures
        fields_enc(fs, vs, last).len() <= max_bits_fields(fs),
    decreases fs,
{
    if fs.len() > 0 {
        lemma_enc_le_max(fs[0].ty, vs[0], last && fs.len() == 1);
        lemma_enc_le_max_fields(
            fs.subrange(1, fs.len() as int),
            vs.subrange(1, vs.len() as int),
            last,
        );
    }
}

/// Flattened field count of one declared field.
pub fn flat_count_of(t: &TypeDesc) -> (n: usize)
    requires
        type_valid(*t),
        max_bits(*t) <= MAX_RECORD_BITS,
    ensures
        n == flat_count(*t),
    decreases *t,
{
    match t {
        TypeDesc::Record(rt) => {
            proof {
                lemma_flat_le_max_fields(rt.fields@);
            }
            flat_count_of_fields(&rt.fields)
        },
        _ => 1,
    }
}

/// Flattened field count of a field list.
pub fn flat_count_of_fields(fields: &Vec<FieldDecl>) -> (n: usize)
    requires
        forall|i: int| 0 <= i < fields@.len() ==> type_valid(#[trigger] fields@[i].ty),
        max_bits_fields(fields@) <= MAX_RECORD_BITS,
    ensures
        n == flat_count_fields(fields@),
    decreases fields@,
{
    let ghost fs = fields@;
    let mut n: usize = 0;
    let mut i: usize = 0;
    proof {
        lemma_flat_le_max_fields(fs);
    }
    while i < fields.len()
        invariant
            i <= fs.len(),
            n == flat_base(fs, i as int),
            fields@ == fs,
            forall|k: int| 0 <= k < fs.len() ==> type_valid(#[trigger] fs[k].ty),
            max_bits_fields(fs) <= MAX_RECORD_BITS,
            flat_count_fields(fs) <= max_bits_fields(fs),
        decreases fs.len() - i,
    {
        proof {
            lemma_max_bits_field_le(fs, i as int);
            lemma_flat_base_step(fs, i as int);
            lemma_flat_base_le_total(fs, i as int + 1);
        }
        let c = flat_count_of(&fields[i].ty);
        n = n + c;
        i = i + 1;
    }
    proof {
        lemma_flat_base_total(fs);
    }
    n
}

/// Width of the length prefix that can hold a maximum count `cap`.
pub fn length_bits_of(cap: usize) -> (n: usize)
    ensures
        n == length_bits(cap as nat),
        n <= 64,
{
    proof {
        lemma2_to64();
        lemma2_to64_rest();
        lemma_length_bits_le(cap as nat, 64);
    }
    let mut n: usize = 0;
    let mut c: usize = cap;
    while c > 0
        invariant
            n + length_bits(c as nat) == length_bits(cap as nat),
            length_bits(cap as nat) <= 64,
        decreases c,
    {
        c = c / 2;
        n = n + 1;
    }
    n
}

/// Checks one declared field type for definition-time errors: a scalar
/// width outside 2..=64, an empty array, or a layout over the size bound.
pub fn type_is_valid(t: &TypeDesc) -> (r: bool)
    ensures
        r == (type_valid(*t) && max_bits(*t) <= MAX_RECORD_BITS),
    decreases *t,
{
    match t {
        TypeDesc::Scalar { bits, .. } => 2 <= *bits && *bits <= 64,
        TypeDesc::StaticArray { elem_bits, count } => {
            if !(2 <= *elem_bits && *elem_bits <= 64 && *count >= 1) {
                false
            } else if *count > MAX_RECORD_BITS {
                proof {
                    assert(*count * *elem_bits >= *count * 1) by (nonlinear_arith)
                        requires
                            *elem_bits >= 1,
                            *count >= 0,
                    ;
                }
                false
            } else {
                // count <= 2^24 and elem_bits <= 64: the product fits
                proof {
                    assert(*count * *elem_bits <= MAX_RECORD_BITS * 64) by (nonlinear_arith)
                        requires
                            *count <= MAX_RECORD_BITS,
                            *elem_bits <= 64,
                            *count >= 0,
                            *elem_bits >= 0,
                    ;
                }
                let total = *count * *elem_bits;
                total <= MAX_RECORD_BITS
            }
        },
        TypeDesc::DynamicArray { elem_bits, capacity } => {
            if !(2 <= *elem_bits && *elem_bits <= 64 && *capacity >= 1) {
                false
            } else if *capacity > MAX_RECORD_BITS {
                proof {
                    assert(*capacity * *elem_bits >= *capacity * 1) by (nonlinear_arith)
                        requires
                            *elem_bits >= 1,
                            *capacity >= 0,
                    ;
                }
                false
            } else {
                proof {
                    assert(*capacity * *elem_bits <= MAX_RECORD_BITS * 64) by (nonlinear_arith)
                        requires
                            *capacity <= MAX_RECORD_BITS,
                            *elem_bits <= 64,
                            *capacity >= 0,
                            *elem_bits >= 0,
                    ;
                }
                let body = *capacity * *elem_bits;
                let prefix = length_bits_of(*capacity);
                prefix + body <= MAX_RECORD_BITS
            }
        },
        TypeDesc::Record(rt) => fields_are_valid(&rt.fields),
    }
}

/// Checks a whole field list for definition-time errors, including the
/// record's total size bound.
pub fn fields_are_valid(fields: &Vec<FieldDecl>) -> (r: bool)
    ensures
        r == ((forall|k: int| 0 <= k < fields@.len() ==> type_valid(#[trigger] fields@[k].ty))
            && max_bits_fields(fields@) <= MAX_RECORD_BITS),
    decreases fields@,
{
    let ghost fs = fields@;
    let n = fields.len();
    let mut acc: usize = 0;
    let mut i: usize = 0;
    while i < n
        invariant
            i <= n,
            n == fs.len(),
            fields@ == fs,
            forall|k: int| 0 <= k < i ==> type_valid(#[trigger] fs[k].ty),
            forall|k: int| 0 <= k < i ==> max_bits(#[trigger] fs[k].ty) <= MAX_RECORD_BITS,
            acc == max_bits_partial(fs, i as int),
            acc <= MAX_RECORD_BITS,
        decreases n - i,
    {
        if !type_is_valid(&fields[i].ty) {
            proof {
                if type_valid(fs[i as int].ty) {
                    lemma_max_bits_field_le(fs, i as int);
                }
            }
            return false;
        }
        let m = field_max_bits(&fields[i].ty);
        if acc + m > MAX_RECORD_BITS {
            proof {
                lemma_max_bits_partial_step(fs, i as int);
                lemma_max_bits_partial_le(fs, i as int + 1);
            }
            return false;
        }
        acc = acc + m;
        proof {
            lemma_max_bits_partial_step(fs, i as int);
        }
        i = i + 1;
    }
    proof {
        lemma_max_bits_partial_total(fs);
    }
    true
}

/// Sum of `max_bits` over the first `n` fields of a list.
pub open spec fn max_bits_partial(fs: Seq<FieldDecl>, n: int) -> nat
    decreases fs,
{
    if n <= 0 || fs.len() == 0 {
        0
    } else {
        max_bits(fs[0].ty) + max_bits_partial(fs.subrange(1, fs.len() as int), n - 1)
    }
}

/// The next partial size sum.
pub proof fn lemma_max_bits_partial_step(fs: Seq<FieldDecl>, i: int)
    requires
        0 <= i < fs.len(),
    ensures
        max_bits_partial(fs, i + 1) == max_bits_partial(fs, i) + max_bits(fs[i].ty),
    decreases fs,
{
    if i > 0 {
        lemma_max_bits_partial_step(fs.subrange(1, fs.len() as int), i - 1);
    } else {
        assert(max_bits_partial(fs.subrange(1, fs.len() as int), 0) == 0);
    }
}

/// Partial size sums never exceed the total.
pub proof fn lemma_max_bits_partial_le(fs: Seq<FieldDecl>, i: int)
    requires
        0 <= i <= fs.len(),
    ensures
        max_bits_partial(fs, i) <= max_bits_fields(fs),
    decreases fs,
{
    if fs.len() > 0 && i > 0 {
        lemma_max_bits_partial_le(fs.subrange(1, fs.len() as int), i - 1);
    }
}

/// Past the last field the partial size sum is the total.
pub proof fn lemma_max_bits_partial_total(fs: Seq<FieldDecl>)
    ensures
        max_bits_partial(fs, fs.len() as int) == max_bits_fields(fs),
    decreases fs,
{
    if fs.len() > 0 {
        lemma_max_bits_partial_total(fs.subrange(1, fs.len() as int));
    }
}

/// The exact wire-size bound of one valid declared field.
pub fn field_max_bits(t: &TypeDesc) -> (n: usize)
    requires
        type_valid(*t),
        max_bits(*t) <= MAX_RECORD_BITS,
    ensures
        n == max_bits(*t),
    decreases *t,
{
    match t {
        TypeDesc::Scalar { bits, .. } => *bits,
        TypeDesc::StaticArray { elem_bits, count } => *count * *elem_bits,
        TypeDesc::DynamicArray { elem_bits, capacity } => {
            let prefix = length_bits_of(*capacity);
            prefix + *capacity * *elem_bits
        },
        TypeDesc::Record(rt) => fields_max_bits(&rt.fields),
    }
}

/// The exact wire-size bound of a valid field list.
pub fn fields_max_bits(fields: &Vec<FieldDecl>) -> (n: usize)
    requires
        forall|k: int| 0 <= k < fields@.len() ==> type_valid(#[trigger] fields@[k].ty),
        max_bits_fields(fields@) <= MAX_RECORD_BITS,
    ensures
        n == max_bits_fields(fields@),
    decreases fields@,
{
    let ghost fs = fields@;
    let n_fields = fields.len();
    let mut acc: usize = 0;
    let mut i: usize = 0;
    while i < n_fields
        invariant
            i <= n_fields,
            n_fields == fs.len(),
            fields@ == fs,
            forall|k: int| 0 <= k < fs.len() ==> type_valid(#[trigger] fs[k].ty),
            max_bits_fields(fs) <= MAX_RECORD_BITS,
            acc == max_bits_partial(fs, i as int),
        decreases n_fields - i,
    {
        proof {
            lemma_max_bits_field_le(fs, i as int);
            lemma_max_bits_partial_step(fs, i as int);
            lemma_max_bits_partial_le(fs, i as int + 1);
        }
        let m = field_max_bits(&fields[i].ty);
        acc = acc + m;
        i = i + 1;
    }
    proof {
        lemma_max_bits_partial_total(fs);
    }
    acc
}

impl RecordType {
    /// Definition-time check of the whole record declaration: rejects a
    /// scalar width outside 2..=64, an empty array, and a layout beyond
    /// the size bound — before the type is ever used, never per message.
    pub fn is_valid(&self) -> (r: bool)
        ensures
            r == record_type_valid(*self),
    {
        fields_are_valid(&self.fields)
    }

    /// The record's total flattened field count: leaves count one each,
    /// a nested record contributes its own count.
    pub fn flattened_fields_number(&self) -> (n: usize)
        requires
            record_type_valid(*self),
        ensures
            n == flat_count_fields(self.fields@),
    {
        flat_count_of_fields(&self.fields)
    }

    /// Exact number of wire bits a full serialization of `v` writes, the
    /// record being the whole transfer (tail optimization applied to its
    /// final field if that field is a dynamic array).
    pub fn bit_length(&self, v: &RecordValue) -> (n: usize)
        requires
            record_type_valid(*self),
            record_matches(*self, *v),
        ensures
            n == record_enc(*self, *v, true).len(),
    {
        fields_bit_length(&self.fields, &v.fields, true)
    }

    /// Writes `v` into `buffer`, resuming at the caller-owned cursor
    /// `(flattened_field, bit)`, until the record completes (`Finished`)
    /// or the frame window fills (`BufferFull`). Exactly the wire bits
    /// between the entry and exit cursor positions are appended; the
    /// cursor pair is the complete state needed to resume. `last_field`
    /// says whether this record is the final field of the transfer.
    pub fn serialize(
        &self,
        v: &RecordValue,
        flattened_field: &mut usize,
        bit: &mut usize,
        last_field: bool,
        buffer: &mut SerializationBuffer,
    ) -> (r: SerializationResult)
        requires
            record_type_valid(*self),
            record_matches(*self, *v),
            *old(flattened_field) < flat_count_fields(self.fields@),
            fields_cursor_ok(
                self.fields@,
                v.fields@,
                *old(flattened_field) as nat,
                *old(bit) as nat,
                last_field,
            ),
            old(buffer).wf(),
        ensures
            final(buffer).wf(),
            final(buffer).cap() == old(buffer).cap(),
            *old(flattened_field) <= *final(flattened_field) <= flat_count_fields(self.fields@),
            *final(flattened_field) == *old(flattened_field) ==> *old(bit) <= *final(bit),
            fields_cursor_ok(
                self.fields@,
                v.fields@,
                *final(flattened_field) as nat,
                *final(bit) as nat,
                last_field,
            ),
            fields_progress(
                self.fields@,
                v.fields@,
                *old(flattened_field) as nat,
                *old(bit) as nat,
                last_field,
            ) <= fields_progress(
                self.fields@,
                v.fields@,
                *final(flattened_field) as nat,
                *final(bit) as nat,
                last_field,
            ) <= record_enc(*self, *v, last_field).len(),
            final(buffer)@ == old(buffer)@ + record_enc(*self, *v, last_field).subrange(
                fields_progress(
                    self.fields@,
                    v.fields@,
                    *old(flattened_field) as nat,
                    *old(bit) as nat,
                    last_field,
                ) as int,
                fields_progress(
                    self.fields@,
                    v.fields@,
                    *final(flattened_field) as nat,
                    *final(bit) as nat,
                    last_field,
                ) as int,
            ),
            (r == SerializationResult::Finished) == (*final(flattened_field) == flat_count_fields(
                self.fields@,
            )),
            r == SerializationResult::Finished ==> *final(bit) == 0,
            r == SerializationResult::BufferFull ==> final(buffer)@.len() == final(buffer).cap(),
    {
        serialize_fields(&self.fields, &v.fields, flattened_field, bit, last_field, buffer)
    }
}

/// Wire length of a field list holding the given values.
pub fn fields_bit_length(fields: &Vec<FieldDecl>, vals: &Vec<Value>, last: bool) -> (n: usize)
    requires
        vals@.len() == fields@.len(),
        forall|i: int| 0 <= i < fields@.len() ==> type_valid(#[trigger] fields@[i].ty),
        forall|i: int| 0 <= i < fields@.len() ==> value_matches(#[trigger] fields@[i].ty, vals@[i]),
        max_bits_fields(fields@) <= MAX_RECORD_BITS,
    ensures
        n == fields_enc(fields@, vals@, last).len(),
    decreases fields@,
{
    let ghost fs = fields@;
    let ghost vs = vals@;
    let n_fields = fields.len();
    let mut n: usize = 0;
    let mut i: usize = 0;
    proof {
        lemma_enc_le_max_fields(fs, vs, last);
    }
    while i < n_fields
        invariant
            i <= fs.len(),
            n_fields == fs.len(),
            n == enc_offset(fs, vs, last, i as int),
            fields@ == fs,
            vals@ == vs,
            vs.len() == fs.len(),
            forall|k: int| 0 <= k < fs.len() ==> type_valid(#[trigger] fs[k].ty),
            forall|k: int| 0 <= k < fs.len() ==> value_matches(#[trigger] fs[k].ty, vs[k]),
            max_bits_fields(fs) <= MAX_RECORD_BITS,
            fields_enc(fs, vs, last).len() <= max_bits_fields(fs),
        decreases fs.len() - i,
    {
        let ghost tail_i = last && i as int == fs.len() - 1;
        proof {
            lemma_max_bits_field_le(fs, i as int);
            lemma_enc_le_max(fs[i as int].ty, vs[i as int], tail_i);
            lemma_enc_offset_step(fs, vs, last, i as int);
            lemma_enc_offset_le_total(fs, vs, last, i as int + 1);
        }
        let is_last_field = last && i == n_fields - 1;
        let flen: usize = match &fields[i].ty {
            TypeDesc::Scalar { bits, .. } => *bits,
            TypeDesc::StaticArray { elem_bits, count } => *count * *elem_bits,
            TypeDesc::DynamicArray { elem_bits, capacity } => {
                match &vals[i] {
                    Value::Dynamic { elems, .. } => {
                        let body = elems.len() * *elem_bits;
                        if is_last_field {
                            body
                        } else {
                            let prefix = length_bits_of(*capacity);
                            prefix + body
                        }
                    },
                    _ => unreached(),
                }
            },
            TypeDesc::Record(rt) => {
                match &vals[i] {
                    Value::Record(rv) => fields_bit_length(&rt.fields, &rv.fields, is_last_field),
                    _ => unreached(),
                }
            },
        };
        n = n + flen;
        i = i + 1;
    }
    proof {
        lemma_enc_offset_total(fs, vs, last);
    }
    n
}

/// Writes the bits of one scalar, resuming at `*bit`, until it is complete
/// or the window is full. LSB first.
fn serialize_scalar(
    raw: u64,
    width: usize,
    bit: &mut usize,
    buffer: &mut SerializationBuffer,
) -> (r: SerializationResult)
    requires
        width <= 64,
        *old(bit) <= width,
        old(buffer).wf(),
    ensures
        final(buffer).wf(),
        final(buffer).cap() == old(buffer).cap(),
        *old(bit) <= *final(bit) <= width,
        final(buffer)@ == old(buffer)@ + scalar_bits(raw, width as nat).subrange(
            *old(bit) as int,
            *final(bit) as int,
        ),
        (r == SerializationResult::Finished) == (*final(bit) == width),
        r == SerializationResult::BufferFull ==> final(buffer)@.len() == final(buffer).cap(),
{
    let ghost sb = scalar_bits(raw, width as nat);
    let ghost buf0 = buffer@;
    let ghost b0 = *bit;
    let mut b: usize = *bit;
    proof {
        assert(buf0 + sb.subrange(b0 as int, b0 as int) =~= buf0);
    }
    while b < width
        invariant
            width <= 64,
            b0 == *old(bit),
            buf0 == old(buffer)@,
            b0 <= b <= width,
            buffer.wf(),
            buffer.cap() == old(buffer).cap(),
            buffer@ == buf0 + sb.subrange(b0 as int, b as int),
            sb == scalar_bits(raw, width as nat),
        decreases width - b,
    {
        if buffer.free_bits() == 0 {
            *bit = b;
            return SerializationResult::BufferFull;
        }
        let val = ((raw >> (b as u64)) & 1) == 1;
        buffer.push_bit(val);
        proof {
            assert(sb[b as int] == val);
            assert(buf0 + sb.subrange(b0 as int, b as int + 1) =~= (buf0 + sb.subrange(
                b0 as int,
                b as int,
            )).push(sb[b as int]));
        }
        b = b + 1;
    }
    *bit = b;
    SerializationResult::Finished
}

/// Writes the elements of an array, resuming at array-local offset `*bit`,
/// until they are complete or the window is full.
fn serialize_elems(
    elems: &Vec<u64>,
    ew: usize,
    bit: &mut usize,
    buffer: &mut SerializationBuffer,
) -> (r: SerializationResult)
    requires
        2 <= ew <= 64,
        elems@.len() * ew <= MAX_RECORD_BITS,
        *old(bit) <= elems@.len() * ew,
        old(buffer).wf(),
    ensures
        final(buffer).wf(),
        final(buffer).cap() == old(buffer).cap(),
        *old(bit) <= *final(bit) <= elems@.len() * ew,
        final(buffer)@ == old(buffer)@ + elems_bits(ew as nat, elems@).subrange(
            *old(bit) as int,
            *final(bit) as int,
        ),
        (r == SerializationResult::Finished) == (*final(bit) == elems@.len() * ew),
        r == SerializationResult::BufferFull ==> final(buffer)@.len() == final(buffer).cap(),
{
    let ghost eb = elems_bits(ew as nat, elems@);
    let ghost buf0 = buffer@;
    let ghost b0 = *bit;
    let total: usize = elems.len() * ew;
    let mut b: usize = *bit;
    proof {
        assert(buf0 + eb.subrange(b0 as int, b0 as int) =~= buf0);
    }
    while b < total
        invariant
            2 <= ew <= 64,
            total == elems@.len() * ew,
            b0 == *old(bit),
            buf0 == old(buffer)@,
            b0 <= b <= total,
            buffer.wf(),
            buffer.cap() == old(buffer).cap(),
            buffer@ == buf0 + eb.subrange(b0 as int, b as int),
            eb == elems_bits(ew as nat, elems@),
        decreases total - b,
    {
        if buffer.free_bits() == 0 {
            *bit = b;
            return SerializationResult::BufferFull;
        }
        let j: usize = b / ew;
        let o: usize = b % ew;
        proof {
            assert(b / ew < elems@.len() && b % ew < ew) by (nonlinear_arith)
                requires
                    ew >= 1,
                    0 <= b < elems@.len() * ew,
            ;
        }
        let val = ((elems[j] >> (o as u64)) & 1) == 1;
        buffer.push_bit(val);
        proof {
            assert(eb[b as int] == val);
            assert(buf0 + eb.subrange(b0 as int, b as int + 1) =~= (buf0 + eb.subrange(
                b0 as int,
                b as int,
            )).push(eb[b as int]));
        }
        b = b + 1;
    }
    *bit = b;
    SerializationResult::Finished
}

/// Wire image of a dynamic array holding `es` with wire count `count`:
/// the length prefix and the elements, or the elements alone in tail
/// position.
pub open spec fn dyn_enc(count: u64, es: Seq<u64>, ew: nat, cap: nat, tail: bool) -> Seq<bool> {
    if tail {
        elems_bits(ew, es)
    } else {
        scalar_bits(count, length_bits(cap)) + elems_bits(ew, es)
    }
}

/// Writes a dynamic array, resuming at field-local offset `*bit`, until it
/// is complete or the window is full. Emits the length prefix first unless
/// the array stands in tail position.
fn serialize_dynamic(
    count: u64,
    elems: &Vec<u64>,
    ew: usize,
    cap: usize,
    tail: bool,
    bit: &mut usize,
    buffer: &mut SerializationBuffer,
) -> (r: SerializationResult)
    requires
        2 <= ew <= 64,
        elems@.len() * ew <= MAX_RECORD_BITS,
        *old(bit) <= dyn_enc(count, elems@, ew as nat, cap as nat, tail).len(),
        old(buffer).wf(),
    ensures
        final(buffer).wf(),
        final(buffer).cap() == old(buffer).cap(),
        *old(bit) <= *final(bit) <= dyn_enc(count, elems@, ew as nat, cap as nat, tail).len(),
        final(buffer)@ == old(buffer)@ + dyn_enc(count, elems@, ew as nat, cap as nat, tail)
            .subrange(*old(bit) as int, *final(bit) as int),
        (r == SerializationResult::Finished) == (*final(bit) == dyn_enc(
            count,
            elems@,
            ew as nat,
            cap as nat,
            tail,
        ).len()),
        r == SerializationResult::BufferFull ==> final(buffer)@.len() == final(buffer).cap(),
{
    let ghost e = dyn_enc(count, elems@, ew as nat, cap as nat, tail);
    let ghost buf0 = buffer@;
    let ghost b0 = *bit;
    if tail {
        let mut eb: usize = *bit;
        let r = serialize_elems(elems, ew, &mut eb, buffer);
        *bit = eb;
        return r;
    }
    let lb = length_bits_of(cap);
    let ghost pre = scalar_bits(count, length_bits(cap as nat));
    let ghost body = elems_bits(ew as nat, elems@);
    let mut b: usize = *bit;
    if b < lb {
        let mut pb: usize = b;
        let r = serialize_scalar(count, lb, &mut pb, buffer);
        proof {
            assert(pre.subrange(b0 as int, pb as int) =~= e.subrange(b0 as int, pb as int));
        }
        if r == SerializationResult::BufferFull {
            *bit = pb;
            return SerializationResult::BufferFull;
        }
        b = lb;
    }
    let mut eb: usize = b - lb;
    let ghost ebx = eb as nat;
    let r = serialize_elems(elems, ew, &mut eb, buffer);
    proof {
        assert(body.subrange(ebx as int, eb as int) =~= e.subrange(
            lb + ebx as int,
            lb + eb as int,
        ));
        crate::wire::lemma_subrange_join(e, buf0, b0 as nat, (lb + ebx) as nat, (lb + eb) as nat);
    }
    *bit = lb + eb;
    r
}

/// Writes a record's fields, resuming at the caller's flattened cursor,
/// until the record completes or the window is full. Exactly the wire
/// bits between the entry and exit cursor positions are appended.
#[verifier::rlimit(100)]
pub fn serialize_fields(
    fields: &Vec<FieldDecl>,
    vals: &Vec<Value>,
    flattened_field: &mut usize,
    bit: &mut usize,
    last: bool,
    buffer: &mut SerializationBuffer,
) -> (r: SerializationResult)
    requires
        vals@.len() == fields@.len(),
        forall|k: int| 0 <= k < fields@.len() ==> type_valid(#[trigger] fields@[k].ty),
        forall|k: int| 0 <= k < fields@.len() ==> value_matches(#[trigger] fields@[k].ty, vals@[k]),
        max_bits_fields(fields@) <= MAX_RECORD_BITS,
        *old(flattened_field) < flat_count_fields(fields@),
        fields_cursor_ok(
            fields@,
            vals@,
            *old(flattened_field) as nat,
            *old(bit) as nat,
            last,
        ),
        old(buffer).wf(),
    ensures
        final(buffer).wf(),
        final(buffer).cap() == old(buffer).cap(),
        *old(flattened_field) <= *final(flattened_field) <= flat_count_fields(fields@),
        *final(flattened_field) == *old(flattened_field) ==> *old(bit) <= *final(bit),
        fields_cursor_ok(
            fields@,
            vals@,
            *final(flattened_field) as nat,
            *final(bit) as nat,
            last,
        ),
        fields_progress(fields@, vals@, *old(flattened_field) as nat, *old(bit) as nat, last)
            <= fields_progress(
            fields@,
            vals@,
            *final(flattened_field) as nat,
            *final(bit) as nat,
            last,
        ) <= fields_enc(fields@, vals@, last).len(),
        final(buffer)@ == old(buffer)@ + fields_enc(fields@, vals@, last).subrange(
            fields_progress(
                fields@,
                vals@,
                *old(flattened_field) as nat,
                *old(bit) as nat,
                last,
            ) as int,
            fields_progress(
                fields@,
                vals@,
                *final(flattened_field) as nat,
                *final(bit) as nat,
                last,
            ) as int,
        ),
        (r == SerializationResult::Finished) == (*final(flattened_field) == flat_count_fields(
            fields@,
        )),
        r == SerializationResult::Finished ==> *final(bit) == 0,
        r == SerializationResult::BufferFull ==> final(buffer)@.len() == final(buffer).cap(),
    decreases fields@,
{
    let ghost fs = fields@;
    let ghost vs = vals@;
    let ghost e = fields_enc(fs, vs, last);
    let ghost f0 = *old(flattened_field);
    let ghost b0 = *old(bit);
    let ghost buf0 = buffer@;
    let ghost p0 = fields_progress(fs, vs, f0 as nat, b0 as nat, last);
    proof {
        lemma_progress_le_enc_fields(fs, vs, f0 as nat, b0 as nat, last);
        lemma_flat_le_max_fields(fs);
        lemma_enc_le_max_fields(fs, vs, last);
        assert(buf0 + e.subrange(p0 as int, p0 as int) =~= buf0);
    }
    let n = fields.len();
    let mut f: usize = *flattened_field;
    let mut b: usize = *bit;
    let mut i: usize = 0;
    let mut base: usize = 0;
    while i < n
        invariant
            fields@ == fs,
            vals@ == vs,
            n == fs.len(),
            vs.len() == fs.len(),
            forall|k: int| 0 <= k < fs.len() ==> type_valid(#[trigger] fs[k].ty),
            forall|k: int| 0 <= k < fs.len() ==> value_matches(#[trigger] fs[k].ty, vs[k]),
            max_bits_fields(fs) <= MAX_RECORD_BITS,
            flat_count_fields(fs) <= MAX_RECORD_BITS,
            e == fields_enc(fs, vs, last),
            e.len() <= MAX_RECORD_BITS,
            f0 == *old(flattened_field),
            b0 == *old(bit),
            buf0 == old(buffer)@,
            p0 == fields_progress(fs, vs, f0 as nat, b0 as nat, last),
            i <= n,
            base == flat_base(fs, i as int),
            base <= f,
            f <= flat_count_fields(fs),
            fields_cursor_ok(fs, vs, f as nat, b as nat, last),
            p0 <= fields_progress(fs, vs, f as nat, b as nat, last) <= e.len(),
            buffer@ == buf0 + e.subrange(
                p0 as int,
                fields_progress(fs, vs, f as nat, b as nat, last) as int,
            ),
            buffer.wf(),
            buffer.cap() == old(buffer).cap(),
            f0 <= f,
            f == f0 ==> b0 <= b,
            f == flat_count_fields(fs) ==> b == 0,
        decreases n - i,
    {
        let ghost tail_i = last && i as int == fs.len() - 1;
        proof {
            lemma_flat_base_step(fs, i as int);
            lemma_flat_base_le_total(fs, i as int + 1);
            lemma_max_bits_field_le(fs, i as int);
        }
        let c = flat_count_of(&fields[i].ty);
        if f >= base + c {
            base = base + c;
            i = i + 1;
        } else {
            proof {
                lemma_cursor_at(fs, vs, last, i as int, f as nat, b as nat);
                lemma_progress_at(fs, vs, last, i as int, f as nat, b as nat);
                lemma_enc_le_max(fs[i as int].ty, vs[i as int], tail_i);
                lemma_enc_offset_step(fs, vs, last, i as int);
                lemma_enc_offset_le_total(fs, vs, last, i as int + 1);
                lemma_progress_le_enc(fs[i as int].ty, vs[i as int], (f - base) as nat, b as nat, tail_i);
            }
            let ghost off_i = enc_offset(fs, vs, last, i as int);
            let ghost pcur = fields_progress(fs, vs, f as nat, b as nat, last);
            let is_last = last && i == n - 1;
            match (&fields[i].ty, &vals[i]) {
                (TypeDesc::Scalar { bits, .. }, Value::Scalar { raw }) => {
                    let mut lb: usize = b;
                    let rr = serialize_scalar(*raw, *bits, &mut lb, buffer);
                    proof {
                        crate::wire::lemma_stitch(fs, vs, last, i as int, b as nat, lb as nat);
                        crate::wire::lemma_subrange_join(
                            e,
                            buf0,
                            p0 as nat,
                            (off_i + b) as nat,
                            (off_i + lb) as nat,
                        );
                    }
                    if rr == SerializationResult::Finished {
                        f = base + 1;
                        b = 0;
                        proof {
                            lemma_progress_at_start(fs, vs, last, i as int + 1);
                            crate::wire::lemma_cursor_at_start(fs, vs, last, i as int + 1);
                        }
                        base = base + 1;
                        i = i + 1;
                    } else {
                        b = lb;
                        proof {
                            lemma_progress_at(fs, vs, last, i as int, f as nat, b as nat);
                            lemma_cursor_at(fs, vs, last, i as int, f as nat, b as nat);
                        }
                        *flattened_field = f;
                        *bit = b;
                        return SerializationResult::BufferFull;
                    }
                },
                (TypeDesc::StaticArray { elem_bits, .. }, Value::Array { elems }) => {
                    let mut lb: usize = b;
                    let rr = serialize_elems(elems, *elem_bits, &mut lb, buffer);
                    proof {
                        crate::wire::lemma_stitch(fs, vs, last, i as int, b as nat, lb as nat);
                        crate::wire::lemma_subrange_join(
                            e,
                            buf0,
                            p0 as nat,
                            (off_i + b) as nat,
                            (off_i + lb) as nat,
                        );
                    }
                    if rr == SerializationResult::Finished {
                        f = base + 1;
                        b = 0;
                        proof {
                            lemma_progress_at_start(fs, vs, last, i as int + 1);
                            crate::wire::lemma_cursor_at_start(fs, vs, last, i as int + 1);
                        }
                        base = base + 1;
                        i = i + 1;
                    } else {
                        b = lb;
                        proof {
                            lemma_progress_at(fs, vs, last, i as int, f as nat, b as nat);
                            lemma_cursor_at(fs, vs, last, i as int, f as nat, b as nat);
                        }
                        *flattened_field = f;
                        *bit = b;
                        return SerializationResult::BufferFull;
                    }
                },
                (TypeDesc::DynamicArray { elem_bits, capacity }, Value::Dynamic { count, elems }) => {
                    let mut lb: usize = b;
                    proof {
                        assert(elems@.len() * *elem_bits <= field_enc(
                            fs[i as int].ty,
                            vs[i as int],
                            tail_i,
                        ).len());
                    }
                    let rr = serialize_dynamic(
                        *count,
                        elems,
                        *elem_bits,
                        *capacity,
                        is_last,
                        &mut lb,
                        buffer,
                    );
                    proof {
                        crate::wire::lemma_stitch(fs, vs, last, i as int, b as nat, lb as nat);
                        crate::wire::lemma_subrange_join(
                            e,
                            buf0,
                            p0 as nat,
                            (off_i + b) as nat,
                            (off_i + lb) as nat,
                        );
                    }
                    if rr == SerializationResult::Finished {
                        f = base + 1;
                        b = 0;
                        proof {
                            lemma_progress_at_start(fs, vs, last, i as int + 1);
                            crate::wire::lemma_cursor_at_start(fs, vs, last, i as int + 1);
                        }
                        base = base + 1;
                        i = i + 1;
                    } else {
                        b = lb;
                        proof {
                            lemma_progress_at(fs, vs, last, i as int, f as nat, b as nat);
                            lemma_cursor_at(fs, vs, last, i as int, f as nat, b as nat);
                        }
                        *flattened_field = f;
                        *bit = b;
                        return SerializationResult::BufferFull;
                    }
                },
                (TypeDesc::Record(rt), Value::Record(rv)) => {
                    let mut sub_f: usize = f - base;
                    let mut lb: usize = b;
                    let ghost sub_f0 = sub_f as nat;
                    let rr = serialize_fields(&rt.fields, &rv.fields, &mut sub_f, &mut lb, is_last, buffer);
                    proof {
                        crate::wire::lemma_stitch(
                            fs,
                            vs,
                            last,
                            i as int,
                            fields_progress(rt.fields@, rv.fields@, sub_f0, b as nat, tail_i),
                            fields_progress(rt.fields@, rv.fields@, sub_f as nat, lb as nat, tail_i),
                        );
                        crate::wire::lemma_subrange_join(
                            e,
                            buf0,
                            p0 as nat,
                            (off_i + fields_progress(rt.fields@, rv.fields@, sub_f0, b as nat, tail_i)) as nat,
                            (off_i + fields_progress(rt.fields@, rv.fields@, sub_f as nat, lb as nat, tail_i)) as nat,
                        );
                    }
                    f = base + sub_f;
                    b = lb;
                    if rr == SerializationResult::Finished {
                        proof {
                            lemma_progress_end(rt.fields@, rv.fields@, is_last);
                            lemma_progress_at_start(fs, vs, last, i as int + 1);
                            crate::wire::lemma_cursor_at_start(fs, vs, last, i as int + 1);
                        }
                        base = base + c;
                        i = i + 1;
                    } else {
                        proof {
                            lemma_progress_at(fs, vs, last, i as int, f as nat, b as nat);
                            lemma_cursor_at(fs, vs, last, i as int, f as nat, b as nat);
                        }
                        *flattened_field = f;
                        *bit = b;
                        return SerializationResult::BufferFull;
                    }
                },
                _ => unreached(),
            }
        }
    }
    proof {
        lemma_flat_base_total(fs);
        lemma_progress_end(fs, vs, last);
        lemma_cursor_end(fs, vs, last);
    }
    *flattened_field = f;
    *bit = b;
    SerializationResult::Finished
}

/// Partial wire offsets never exceed the record's length.
pub proof fn lemma_enc_offset_le_total(fs: Seq<FieldDecl>, vs: Seq<Value>, last: bool, i: int)
    requires
        vs.len() == fs.len(),
        0 <= i <= fs.len(),
    ensures
        enc_offset(fs, vs, last, i) <= fields_enc(fs, vs, last).len(),
    decreases fs,
{
    if fs.len() > 0 && i > 0 {
        lemma_enc_offset_le_total(
            fs.subrange(1, fs.len() as int),
            vs.subrange(1, vs.len() as int),
            last,
            i - 1,
        );
    }
}

} // verus!
