//! The wire format, as a mathematical function from values to bit sequences,
//! and the flattened-cursor coordinate system over it.
//!
//! `field_enc` maps one field's value to its exact wire bits; `fields_enc`
//! concatenates a record's fields in declaration order. The `tail` / `last`
//! flag marks the final field of the whole transfer: only there a dynamic
//! array drops its length prefix, and the flag reaches a nested record only
//! when that record is itself the transfer's final field.
//!
//! `fields_progress` translates a caller cursor `(flattened_field, bit)`
//! into the number of wire bits that precede it, which is what ties a
//! suspended, partially-complete call to the bits it has produced so far.

use crate::bits::{elems_bits, length_bits, scalar_bits};
use crate::types::{flat_count, flat_count_fields, FieldDecl, RecordType, RecordValue, TypeDesc, Value};
use vstd::prelude::*;

verus! {

/// Wire bits of one field. A dynamic array is a `length_bits(capacity)`-wide
/// count followed by its elements, except in tail position where the count
/// is omitted. A mismatched value encodes to nothing.
pub open spec fn field_enc(t: TypeDesc, v: Value, tail: bool) -> Seq<bool>
    decreases t,
{
    match t {
        TypeDesc::Scalar { bits, .. } => match v {
            Value::Scalar { raw } => scalar_bits(raw, bits as nat),
            _ => Seq::empty(),
        },
        TypeDesc::StaticArray { elem_bits, .. } => match v {
            Value::Array { elems } => elems_bits(elem_bits as nat, elems@),
            _ => Seq::empty(),
        },
        TypeDesc::DynamicArray { elem_bits, capacity } => match v {
            Value::Dynamic { count, elems } => if tail {
                elems_bits(elem_bits as nat, elems@)
            } else {
                scalar_bits(count, length_bits(capacity as nat)) + elems_bits(
                    elem_bits as nat,
                    elems@,
                )
            },
            _ => Seq::empty(),
        },
        TypeDesc::Record(rt) => match v {
            Value::Record(rv) => fields_enc(rt.fields@, rv.fields@, tail),
            _ => Seq::empty(),
        },
    }
}

/// Wire bits of a field list, in declaration order, no padding between
/// fields. Only the final field inherits the transfer-tail flag.
pub open spec fn fields_enc(fs: Seq<FieldDecl>, vs: Seq<Value>, last: bool) -> Seq<bool>
    decreases fs,
{
    if fs.len() == 0 || vs.len() == 0 {
        Seq::empty()
    } else {
        field_enc(fs[0].ty, vs[0], last && fs.len() == 1) + fields_enc(
            fs.subrange(1, fs.len() as int),
            vs.subrange(1, vs.len() as int),
            last,
        )
    }
}

/// Wire bits of a whole record value. `last` says whether the record is
/// the final field of the transfer (`true` for the outermost record).
pub open spec fn record_enc(rt: RecordType, rv: RecordValue, last: bool) -> Seq<bool> {
    fields_enc(rt.fields@, rv.fields@, last)
}

/// Wire bits that precede the in-field cursor `(f, b)` inside one field:
/// `b` for a leaf, the nested record's own translation for a record.
pub open spec fn field_progress(t: TypeDesc, v: Value, f: nat, b: nat, tail: bool) -> nat
    decreases t,
{
    match t {
        TypeDesc::Record(rt) => match v {
            Value::Record(rv) => fields_progress(rt.fields@, rv.fields@, f, b, tail),
            _ => 0,
        },
        _ => b,
    }
}

/// Wire bits that precede the cursor `(f, b)` over a field list: the full
/// encodings of the flattened fields before `f`, plus `b` bits of the
/// flattened field at `f`.
pub open spec fn fields_progress(fs: Seq<FieldDecl>, vs: Seq<Value>, f: nat, b: nat, last: bool) -> nat
    decreases fs,
{
    if fs.len() == 0 || vs.len() == 0 {
        0
    } else if f < flat_count(fs[0].ty) {
        field_progress(fs[0].ty, vs[0], f, b, last && fs.len() == 1)
    } else {
        field_enc(fs[0].ty, vs[0], last && fs.len() == 1).len() + fields_progress(
            fs.subrange(1, fs.len() as int),
            vs.subrange(1, vs.len() as int),
            (f - flat_count(fs[0].ty)) as nat,
            b,
            last,
        )
    }
}

/// A serialize-side cursor is consistent with a field's value: within a
/// leaf the bit offset stays inside the field's wire image; within a
/// nested record the nested cursor is consistent in turn.
pub open spec fn cursor_ok(t: TypeDesc, v: Value, f: nat, b: nat, tail: bool) -> bool
    decreases t,
{
    match t {
        TypeDesc::Record(rt) => match v {
            Value::Record(rv) => fields_cursor_ok(rt.fields@, rv.fields@, f, b, tail),
            _ => false,
        },
        _ => f == 0 && b <= field_enc(t, v, tail).len(),
    }
}

/// Cursor consistency over a field list; `(flat_count_fields(fs), 0)` is
/// the legal end-of-record state.
pub open spec fn fields_cursor_ok(
    fs: Seq<FieldDecl>,
    vs: Seq<Value>,
    f: nat,
    b: nat,
    last: bool,
) -> bool
    decreases fs,
{
    if fs.len() == 0 || vs.len() == 0 {
        f == 0 && b == 0
    } else if f < flat_count(fs[0].ty) {
        cursor_ok(fs[0].ty, vs[0], f, b, last && fs.len() == 1)
    } else {
        fields_cursor_ok(
            fs.subrange(1, fs.len() as int),
            vs.subrange(1, vs.len() as int),
            (f - flat_count(fs[0].ty)) as nat,
            b,
            last,
        )
    }
}

/// Wire length of the first `n` declared fields of a list.
pub open spec fn enc_offset(fs: Seq<FieldDecl>, vs: Seq<Value>, last: bool, n: int) -> nat
    decreases fs,
{
    if n <= 0 || fs.len() == 0 || vs.len() == 0 {
        0
    } else {
        field_enc(fs[0].ty, vs[0], last && fs.len() == 1).len() + enc_offset(
            fs.subrange(1, fs.len() as int),
            vs.subrange(1, vs.len() as int),
            last,
            n - 1,
        )
    }
}

/// Flattened index at which declared field `n` begins.
pub open spec fn flat_base(fs: Seq<FieldDecl>, n: int) -> nat
    decreases fs,
{
    if n <= 0 || fs.len() == 0 {
        0
    } else {
        flat_count(fs[0].ty) + flat_base(fs.subrange(1, fs.len() as int), n - 1)
    }
}

/// A field that contributes no flattened fields (a record of nothing)
/// occupies no wire bits either.
pub proof fn lemma_flat_zero_enc_empty(t: TypeDesc, v: Value, tail: bool)
    requires
        flat_count(t) == 0,
    ensures
        field_enc(t, v, tail).len() == 0,
    decreases t,
{
    match t {
        TypeDesc::Record(rt) => match v {
            Value::Record(rv) => {
                lemma_flat_zero_enc_empty_fields(rt.fields@, rv.fields@, tail);
            },
            _ => {},
        },
        _ => {},
    }
}

/// Field-list form of `lemma_flat_zero_enc_empty`.
pub proof fn lemma_flat_zero_enc_empty_fields(fs: Seq<FieldDecl>, vs: Seq<Value>, last: bool)
    requires
        flat_count_fields(fs) == 0,
    ensures
        fields_enc(fs, vs, last).len() == 0,
    decreases fs,
{
    if fs.len() > 0 && vs.len() > 0 {
        lemma_flat_zero_enc_empty(fs[0].ty, vs[0], last && fs.len() == 1);
        lemma_flat_zero_enc_empty_fields(
            fs.subrange(1, fs.len() as int),
            vs.subrange(1, vs.len() as int),
            last,
        );
    }
}

/// The flattened base of the next declared field.
pub proof fn lemma_flat_base_step(fs: Seq<FieldDecl>, i: int)
    requires
        0 <= i < fs.len(),
    ensures
        flat_base(fs, i + 1) == flat_base(fs, i) + flat_count(fs[i].ty),
    decreases fs,
{
    if i > 0 {
        lemma_flat_base_step(fs.subrange(1, fs.len() as int), i - 1);
    } else {
        assert(flat_base(fs.subrange(1, fs.len() as int), 0) == 0);
    }
}

/// Past the last declared field the flattened base is the total count.
pub proof fn lemma_flat_base_total(fs: Seq<FieldDecl>)
    ensures
        flat_base(fs, fs.len() as int) == flat_count_fields(fs),
    decreases fs,
{
    if fs.len() > 0 {
        lemma_flat_base_total(fs.subrange(1, fs.len() as int));
    }
}

/// The wire offset of the next declared field.
pub proof fn lemma_enc_offset_step(fs: Seq<FieldDecl>, vs: Seq<Value>, last: bool, i: int)
    requires
        vs.len() == fs.len(),
        0 <= i < fs.len(),
    ensures
        enc_offset(fs, vs, last, i + 1) == enc_offset(fs, vs, last, i) + field_enc(
            fs[i].ty,
            vs[i],
            last && i == fs.len() - 1,
        ).len(),
    decreases fs,
{
    if i > 0 {
        lemma_enc_offset_step(
            fs.subrange(1, fs.len() as int),
            vs.subrange(1, vs.len() as int),
            last,
            i - 1,
        );
    } else {
        assert(enc_offset(fs.subrange(1, fs.len() as int), vs.subrange(1, vs.len() as int), last, 0)
            == 0);
    }
}

/// Past the last declared field the wire offset is the record's length.
pub proof fn lemma_enc_offset_total(fs: Seq<FieldDecl>, vs: Seq<Value>, last: bool)
    requires
        vs.len() == fs.len(),
    ensures
        enc_offset(fs, vs, last, fs.len() as int) == fields_enc(fs, vs, last).len(),
    decreases fs,
{
    if fs.len() > 0 {
        lemma_enc_offset_total(
            fs.subrange(1, fs.len() as int),
            vs.subrange(1, vs.len() as int),
            last,
        );
    }
}

/// Declared field `i` owns exactly the wire bits between its offset and the
/// next field's offset, and carries the transfer-tail flag only when it is
/// the final declared field.
pub proof fn lemma_enc_field_slice(fs: Seq<FieldDecl>, vs: Seq<Value>, last: bool, i: int)
    requires
        vs.len() == fs.len(),
        0 <= i < fs.len(),
    ensures
        enc_offset(fs, vs, last, i + 1) <= fields_enc(fs, vs, last).len(),
        fields_enc(fs, vs, last).subrange(
            enc_offset(fs, vs, last, i) as int,
            enc_offset(fs, vs, last, i + 1) as int,
        ) == field_enc(fs[i].ty, vs[i], last && i == fs.len() - 1),
    decreases fs,
{
    let e0 = field_enc(fs[0].ty, vs[0], last && fs.len() == 1);
    let rest = fields_enc(fs.subrange(1, fs.len() as int), vs.subrange(1, vs.len() as int), last);
    lemma_enc_offset_step(fs, vs, last, i);
    if i == 0 {
        assert((e0 + rest).subrange(0, e0.len() as int) =~= e0);
    } else {
        let fr = fs.subrange(1, fs.len() as int);
        let vr = vs.subrange(1, vs.len() as int);
        lemma_enc_field_slice(fr, vr, last, i - 1);
        lemma_enc_offset_step(fr, vr, last, i - 1);
        let x = enc_offset(fr, vr, last, i - 1) as int;
        let y = enc_offset(fr, vr, last, i) as int;
        assert((e0 + rest).subrange(e0.len() + x, e0.len() + y) =~= rest.subrange(x, y));
    }
}

/// A cursor strictly inside declared field `i` translates to that field's
/// wire offset plus the in-field translation.
pub proof fn lemma_progress_at(
    fs: Seq<FieldDecl>,
    vs: Seq<Value>,
    last: bool,
    i: int,
    f: nat,
    b: nat,
)
    requires
        vs.len() == fs.len(),
        0 <= i < fs.len(),
        flat_base(fs, i) <= f,
        f - flat_base(fs, i) < flat_count(fs[i].ty),
    ensures
        fields_progress(fs, vs, f, b, last) == enc_offset(fs, vs, last, i) + field_progress(
            fs[i].ty,
            vs[i],
            (f - flat_base(fs, i)) as nat,
            b,
            last && i == fs.len() - 1,
        ),
    decreases fs,
{
    if i > 0 {
        lemma_progress_at(
            fs.subrange(1, fs.len() as int),
            vs.subrange(1, vs.len() as int),
            last,
            i - 1,
            (f - flat_count(fs[0].ty)) as nat,
            b,
        );
    }
}

/// In-field cursor consistency is exactly the whole-record consistency of
/// a cursor strictly inside declared field `i`.
pub proof fn lemma_cursor_at(
    fs: Seq<FieldDecl>,
    vs: Seq<Value>,
    last: bool,
    i: int,
    f: nat,
    b: nat,
)
    requires
        vs.len() == fs.len(),
        0 <= i < fs.len(),
        flat_base(fs, i) <= f,
        f - flat_base(fs, i) < flat_count(fs[i].ty),
    ensures
        fields_cursor_ok(fs, vs, f, b, last) == cursor_ok(
            fs[i].ty,
            vs[i],
            (f - flat_base(fs, i)) as nat,
            b,
            last && i == fs.len() - 1,
        ),
    decreases fs,
{
    if i > 0 {
        lemma_cursor_at(
            fs.subrange(1, fs.len() as int),
            vs.subrange(1, vs.len() as int),
            last,
            i - 1,
            (f - flat_count(fs[0].ty)) as nat,
            b,
        );
    }
}

/// Nothing precedes the fresh cursor `(0, 0)`.
pub proof fn lemma_progress_zero(t: TypeDesc, v: Value, tail: bool)
    ensures
        field_progress(t, v, 0, 0, tail) == 0,
    decreases t,
{
    match t {
        TypeDesc::Record(rt) => match v {
            Value::Record(rv) => {
                lemma_progress_zero_fields(rt.fields@, rv.fields@, tail);
            },
            _ => {},
        },
        _ => {},
    }
}

/// Field-list form of `lemma_progress_zero`.
pub proof fn lemma_progress_zero_fields(fs: Seq<FieldDecl>, vs: Seq<Value>, last: bool)
    ensures
        fields_progress(fs, vs, 0, 0, last) == 0,
    decreases fs,
{
    if fs.len() > 0 && vs.len() > 0 {
        if 0 < flat_count(fs[0].ty) {
            lemma_progress_zero(fs[0].ty, vs[0], last && fs.len() == 1);
        } else {
            lemma_flat_zero_enc_empty(fs[0].ty, vs[0], last && fs.len() == 1);
            lemma_progress_zero_fields(
                fs.subrange(1, fs.len() as int),
                vs.subrange(1, vs.len() as int),
                last,
            );
        }
    }
}

/// A cursor standing at the start of declared field `i` (no bits into it)
/// translates to exactly that field's wire offset.
pub proof fn lemma_progress_at_start(fs: Seq<FieldDecl>, vs: Seq<Value>, last: bool, i: int)
    requires
        vs.len() == fs.len(),
        0 <= i <= fs.len(),
    ensures
        fields_progress(fs, vs, flat_base(fs, i), 0, last) == enc_offset(fs, vs, last, i),
    decreases fs,
{
    if fs.len() == 0 {
    } else if i == 0 {
        lemma_progress_zero_fields(fs, vs, last);
    } else {
        lemma_progress_at_start(
            fs.subrange(1, fs.len() as int),
            vs.subrange(1, vs.len() as int),
            last,
            i - 1,
        );
    }
}

/// The end-of-record cursor `(flat_count_fields(fs), 0)` is consistent.
pub proof fn lemma_cursor_end(fs: Seq<FieldDecl>, vs: Seq<Value>, last: bool)
    requires
        vs.len() == fs.len(),
    ensures
        fields_cursor_ok(fs, vs, flat_count_fields(fs), 0, last),
    decreases fs,
{
    if fs.len() > 0 {
        lemma_cursor_end(fs.subrange(1, fs.len() as int), vs.subrange(1, vs.len() as int), last);
    }
}

/// At the end-of-record cursor every wire bit of the record precedes it.
pub proof fn lemma_progress_end(fs: Seq<FieldDecl>, vs: Seq<Value>, last: bool)
    requires
        vs.len() == fs.len(),
    ensures
        fields_progress(fs, vs, flat_count_fields(fs), 0, last) == fields_enc(fs, vs, last).len(),
    decreases fs,
{
    if fs.len() > 0 {
        lemma_progress_end(fs.subrange(1, fs.len() as int), vs.subrange(1, vs.len() as int), last);
    }
}

/// The fresh cursor `(0, 0)` is consistent with any matching value.
pub proof fn lemma_cursor_zero(t: TypeDesc, v: Value, tail: bool)
    requires
        crate::types::value_matches(t, v),
    ensures
        cursor_ok(t, v, 0, 0, tail),
    decreases t,
{
    match t {
        TypeDesc::Record(rt) => match v {
            Value::Record(rv) => {
                lemma_cursor_zero_fields(rt.fields@, rv.fields@, tail);
            },
            _ => {},
        },
        _ => {},
    }
}

/// Field-list form of `lemma_cursor_zero`.
pub proof fn lemma_cursor_zero_fields(fs: Seq<FieldDecl>, vs: Seq<Value>, last: bool)
    requires
        vs.len() == fs.len(),
        forall|i: int| 0 <= i < fs.len() ==> crate::types::value_matches(#[trigger] fs[i].ty, vs[i]),
    ensures
        fields_cursor_ok(fs, vs, 0, 0, last),
    decreases fs,
{
    if fs.len() > 0 {
        if 0 < flat_count(fs[0].ty) {
            lemma_cursor_zero(fs[0].ty, vs[0], last && fs.len() == 1);
        } else {
            lemma_cursor_zero_fields(
                fs.subrange(1, fs.len() as int),
                vs.subrange(1, vs.len() as int),
                last,
            );
        }
    }
}

/// A cursor standing at the start of declared field `i` is consistent.
pub proof fn lemma_cursor_at_start(fs: Seq<FieldDecl>, vs: Seq<Value>, last: bool, i: int)
    requires
        vs.len() == fs.len(),
        0 <= i <= fs.len(),
        forall|k: int| 0 <= k < fs.len() ==> crate::types::value_matches(#[trigger] fs[k].ty, vs[k]),
    ensures
        fields_cursor_ok(fs, vs, flat_base(fs, i), 0, last),
    decreases fs,
{
    if fs.len() == 0 {
    } else if i == 0 {
        lemma_cursor_zero_fields(fs, vs, last);
    } else {
        lemma_cursor_at_start(
            fs.subrange(1, fs.len() as int),
            vs.subrange(1, vs.len() as int),
            last,
            i - 1,
        );
    }
}

/// A slice of declared field `i`'s wire image, seen inside the record's.
pub proof fn lemma_stitch(fs: Seq<FieldDecl>, vs: Seq<Value>, last: bool, i: int, x: nat, y: nat)
    requires
        vs.len() == fs.len(),
        0 <= i < fs.len(),
        x <= y <= field_enc(fs[i].ty, vs[i], last && i == fs.len() - 1).len(),
    ensures
        enc_offset(fs, vs, last, i) + y <= fields_enc(fs, vs, last).len(),
        field_enc(fs[i].ty, vs[i], last && i == fs.len() - 1).subrange(x as int, y as int)
            == fields_enc(fs, vs, last).subrange(
            (enc_offset(fs, vs, last, i) + x) as int,
            (enc_offset(fs, vs, last, i) + y) as int,
        ),
{
    lemma_enc_field_slice(fs, vs, last, i);
    lemma_enc_offset_step(fs, vs, last, i);
    let e = fields_enc(fs, vs, last);
    let fe = field_enc(fs[i].ty, vs[i], last && i == fs.len() - 1);
    let off = enc_offset(fs, vs, last, i) as int;
    assert(fe.subrange(x as int, y as int) =~= e.subrange(off + x, off + y)) by {
        assert forall|k: int| 0 <= k < y - x implies fe.subrange(x as int, y as int)[k]
            == e.subrange(off + x, off + y)[k] by {
            assert(fe[x + k] == e.subrange(off, off + fe.len())[x + k]);
        }
    }
}

/// Appending the next slice of the wire image extends the window contiguously.
pub proof fn lemma_subrange_join(s: Seq<bool>, p: Seq<bool>, a: nat, m: nat, z: nat)
    requires
        a <= m <= z <= s.len(),
    ensures
        (p + s.subrange(a as int, m as int)) + s.subrange(m as int, z as int) == p + s.subrange(
            a as int,
            z as int,
        ),
{
    assert((p + s.subrange(a as int, m as int)) + s.subrange(m as int, z as int) =~= p + s.subrange(
        a as int,
        z as int,
    ));
}

/// A consistent cursor never points past the record's wire image.
pub proof fn lemma_progress_le_enc(t: TypeDesc, v: Value, f: nat, b: nat, tail: bool)
    requires
        cursor_ok(t, v, f, b, tail),
    ensures
        field_progress(t, v, f, b, tail) <= field_enc(t, v, tail).len(),
    decreases t,
{
    match t {
        TypeDesc::Record(rt) => match v {
            Value::Record(rv) => {
                lemma_progress_le_enc_fields(rt.fields@, rv.fields@, f, b, tail);
            },
            _ => {},
        },
        _ => {},
    }
}

/// Field-list form of `lemma_progress_le_enc`.
pub proof fn lemma_progress_le_enc_fields(
    fs: Seq<FieldDecl>,
    vs: Seq<Value>,
    f: nat,
    b: nat,
    last: bool,
)
    requires
        fields_cursor_ok(fs, vs, f, b, last),
    ensures
        fields_progress(fs, vs, f, b, last) <= fields_enc(fs, vs, last).len(),
    decreases fs,
{
    if fs.len() > 0 && vs.len() > 0 {
        if f < flat_count(fs[0].ty) {
            lemma_progress_le_enc(fs[0].ty, vs[0], f, b, last && fs.len() == 1);
        } else {
            lemma_progress_le_enc_fields(
                fs.subrange(1, fs.len() as int),
                vs.subrange(1, vs.len() as int),
                (f - flat_count(fs[0].ty)) as nat,
                b,
                last,
            );
        }
    }
}

} // verus!
