//! The resumable deserializer: partial-state predicates, their
//! decomposition lemmas, and the executable read side of the codec.
//!
//! A suspended deserialization leaves the value in a partial state: fields
//! before the cursor are fully decoded, the field at the cursor holds
//! exactly the bits consumed so far (low bits first), and fields after the
//! cursor need only their record skeleton (leaves are rebuilt in place
//! when the cursor reaches them).

use crate::bits::{bit_of, elems_bits, length_bits, scalar_bits};
use crate::buffer::{DeserializationBuffer, DeserializationResult};
use crate::types::{
    flat_count, flat_count_fields, max_bits, max_bits_fields, record_matches, record_type_valid,
    type_valid, value_matches, FieldDecl, RecordType, RecordValue, TypeDesc, Value,
    MAX_RECORD_BITS,
};
use crate::wire::{
    enc_offset, field_enc, field_progress, fields_enc, fields_progress, flat_base,
    lemma_flat_base_step,
};
use vstd::arithmetic::power2::pow2;
use vstd::prelude::*;

verus! {

/// Bits of element `j` that lie before array-local offset `b`.
pub open spec fn elem_bits_done(b: int, j: int, ew: int) -> int {
    if b - j * ew < 0 {
        0
    } else if b - j * ew > ew {
        ew
    } else {
        b - j * ew
    }
}

/// Every element holds exactly its bits read so far: elements before the
/// offset are complete, the element under it holds its low bits, elements
/// after it are still zero.
pub open spec fn elems_partial(es: Seq<u64>, ew: nat, b: nat) -> bool {
    forall|j: int|
        0 <= j < es.len() ==> #[trigger] es[j] < pow2(elem_bits_done(b as int, j, ew as int) as nat)
}

/// The record skeleton of a value: nested record values have one field
/// per declared field, recursively. Leaves carry no requirement; they are
/// rebuilt in place when the cursor reaches them.
pub open spec fn value_shape(t: TypeDesc, v: Value) -> bool
    decreases t,
{
    match t {
        TypeDesc::Record(rt) => match v {
            Value::Record(rv) => rv.fields@.len() == rt.fields@.len() && forall|i: int|
                0 <= i < rt.fields@.len() ==> value_shape(#[trigger] rt.fields@[i].ty, rv.fields@[i]),
            _ => false,
        },
        _ => true,
    }
}

/// Partial deserialization state of one field at in-field cursor `(f, b)`.
pub open spec fn field_deser_ok(t: TypeDesc, v: Value, f: nat, b: nat, tail: bool) -> bool
    decreases t,
{
    match t {
        TypeDesc::Record(rt) => match v {
            Value::Record(rv) => rv.fields@.len() == rt.fields@.len() && fields_deser_ok(
                rt.fields@,
                rv.fields@,
                f,
                b,
                tail,
            ),
            _ => false,
        },
        TypeDesc::Scalar { bits, .. } => f == 0 && b <= bits && (b > 0 ==> match v {
            Value::Scalar { raw } => raw < pow2(b),
            _ => false,
        }),
        TypeDesc::StaticArray { elem_bits, count } => f == 0 && b <= count * elem_bits && (b > 0
            ==> match v {
            Value::Array { elems } => elems@.len() == count && elems_partial(
                elems@,
                elem_bits as nat,
                b,
            ),
            _ => false,
        }),
        TypeDesc::DynamicArray { elem_bits, capacity } => f == 0 && (if tail {
            b == 0
        } else {
            if b <= length_bits(capacity as nat) {
                b > 0 ==> match v {
                    Value::Scalar { .. } => false,
                    Value::Dynamic { count, .. } => count < pow2(b),
                    _ => false,
                }
            } else {
                match v {
                    Value::Dynamic { count, elems } => count <= capacity && elems@.len() == count
                        && b <= length_bits(capacity as nat) + count * elem_bits && elems_partial(
                        elems@,
                        elem_bits as nat,
                        (b - length_bits(capacity as nat)) as nat,
                    ),
                    _ => false,
                }
            }
        }),
    }
}

/// Partial deserialization state of a field list at cursor `(f, b)`:
/// decoded and valid before the cursor, partial at it, skeleton after it.
pub open spec fn fields_deser_ok(
    fs: Seq<FieldDecl>,
    vs: Seq<Value>,
    f: nat,
    b: nat,
    last: bool,
) -> bool
    decreases fs,
{
    if fs.len() == 0 || vs.len() == 0 {
        f == 0 && b == 0
    } else if f < flat_count(fs[0].ty) {
        field_deser_ok(fs[0].ty, vs[0], f, b, last && fs.len() == 1) && forall|k: int|
            1 <= k < fs.len() ==> value_shape(#[trigger] fs[k].ty, vs[k])
    } else {
        value_matches(fs[0].ty, vs[0]) && fields_deser_ok(
            fs.subrange(1, fs.len() as int),
            vs.subrange(1, vs.len() as int),
            (f - flat_count(fs[0].ty)) as nat,
            b,
            last,
        )
    }
}

/// Decomposition of the partial state at a cursor strictly inside
/// declared field `i`.
pub proof fn lemma_deser_at(fs: Seq<FieldDecl>, vs: Seq<Value>, last: bool, i: int, f: nat, b: nat)
    requires
        vs.len() == fs.len(),
        0 <= i < fs.len(),
        flat_base(fs, i) <= f,
        f - flat_base(fs, i) < flat_count(fs[i].ty),
    ensures
        fields_deser_ok(fs, vs, f, b, last) == ((forall|k: int|
            0 <= k < i ==> value_matches(#[trigger] fs[k].ty, vs[k])) && field_deser_ok(
            fs[i].ty,
            vs[i],
            (f - flat_base(fs, i)) as nat,
            b,
            last && i == fs.len() - 1,
        ) && (forall|k: int| i < k < fs.len() ==> value_shape(#[trigger] fs[k].ty, vs[k]))),
    decreases fs,
{
    if i > 0 {
        let fr = fs.subrange(1, fs.len() as int);
        let vr = vs.subrange(1, vs.len() as int);
        lemma_deser_at(fr, vr, last, i - 1, (f - flat_count(fs[0].ty)) as nat, b);
        assert forall|k: int| 1 <= k < fs.len() implies fr[k - 1] == fs[k] && vr[k - 1] == vs[k] by {}
        assert((forall|k: int| 0 <= k < i - 1 ==> value_matches(#[trigger] fr[k].ty, vr[k]))
            == (forall|k: int| 1 <= k < i ==> value_matches(#[trigger] fs[k].ty, vs[k])));
        assert((forall|k: int| i - 1 < k < fr.len() ==> value_shape(#[trigger] fr[k].ty, vr[k]))
            == (forall|k: int| i < k < fs.len() ==> value_shape(#[trigger] fs[k].ty, vs[k])));
    }
}

/// At the end-of-record cursor the whole value is decoded and valid.
pub proof fn lemma_deser_end(fs: Seq<FieldDecl>, vs: Seq<Value>, last: bool)
    requires
        vs.len() == fs.len(),
    ensures
        fields_deser_ok(fs, vs, flat_count_fields(fs), 0, last) == (forall|k: int|
            0 <= k < fs.len() ==> value_matches(#[trigger] fs[k].ty, vs[k])),
    decreases fs,
{
    if fs.len() > 0 {
        let fr = fs.subrange(1, fs.len() as int);
        let vr = vs.subrange(1, vs.len() as int);
        lemma_deser_end(fr, vr, last);
        assert forall|k: int| 1 <= k < fs.len() implies fr[k - 1] == fs[k] && vr[k - 1] == vs[k] by {}
        assert((forall|k: int| 0 <= k < fr.len() ==> value_matches(#[trigger] fr[k].ty, vr[k]))
            == (forall|k: int| 1 <= k < fs.len() ==> value_matches(#[trigger] fs[k].ty, vs[k])));
    }
}

/// Wire offsets and the bits before field `i` depend only on the values
/// of the fields before `i`.
pub proof fn lemma_enc_agree(fs: Seq<FieldDecl>, vs1: Seq<Value>, vs2: Seq<Value>, last: bool, i: int)
    requires
        vs1.len() == fs.len(),
        vs2.len() == fs.len(),
        0 <= i <= fs.len(),
        forall|k: int| 0 <= k < i ==> vs1[k] == vs2[k],
    ensures
        enc_offset(fs, vs1, last, i) == enc_offset(fs, vs2, last, i),
        fields_enc(fs, vs1, last).take(enc_offset(fs, vs1, last, i) as int) == fields_enc(
            fs,
            vs2,
            last,
        ).take(enc_offset(fs, vs2, last, i) as int),
    decreases fs,
{
    if fs.len() == 0 || i == 0 {
        assert(fields_enc(fs, vs1, last).take(0) =~= fields_enc(fs, vs2, last).take(0));
    } else {
        let fr = fs.subrange(1, fs.len() as int);
        let v1r = vs1.subrange(1, vs1.len() as int);
        let v2r = vs2.subrange(1, vs2.len() as int);
        lemma_enc_agree(fr, v1r, v2r, last, i - 1);
        let e0 = field_enc(fs[0].ty, vs1[0], last && fs.len() == 1);
        assert(vs2[0] == vs1[0]);
        let r1 = fields_enc(fr, v1r, last);
        let r2 = fields_enc(fr, v2r, last);
        let x = enc_offset(fr, v1r, last, i - 1) as int;
        crate::codec::lemma_enc_offset_le_total(fr, v1r, last, i - 1);
        crate::codec::lemma_enc_offset_le_total(fr, v2r, last, i - 1);
        assert((e0 + r1).take(e0.len() + x) =~= e0 + r1.take(x));
        assert((e0 + r2).take(e0.len() + x) =~= e0 + r2.take(x));
    }
}

/// A longer prefix of a sequence splits into a shorter prefix and the
/// slice between the two cuts.
pub proof fn lemma_take_split(s: Seq<bool>, a: nat, z: nat)
    requires
        a <= z <= s.len(),
    ensures
        s.take(z as int) == s.take(a as int) + s.subrange(a as int, z as int),
{
    assert(s.take(z as int) =~= s.take(a as int) + s.subrange(a as int, z as int));
}

/// Updating one element changes the packed element bits only inside that
/// element's window.
pub proof fn lemma_elems_bits_update(es: Seq<u64>, ew: nat, j: int, x: u64)
    requires
        1 <= ew,
        0 <= j < es.len(),
    ensures
        elems_bits(ew, es.update(j, x)).len() == elems_bits(ew, es).len(),
        forall|k: int|
            0 <= k < es.len() * ew && !(j * ew <= k < (j + 1) * ew) ==> elems_bits(
                ew,
                es.update(j, x),
            )[k] == elems_bits(ew, es)[k],
        forall|o: int|
            0 <= o < ew ==> elems_bits(ew, es.update(j, x))[j * ew + o] == bit_of(x, o),
{
    let es2 = es.update(j, x);
    assert forall|k: int|
        0 <= k < es.len() * ew && !(j * ew <= k < (j + 1) * ew) implies elems_bits(ew, es2)[k]
        == elems_bits(ew, es)[k] by {
        assert(k / (ew as int) != j) by (nonlinear_arith)
            requires
                ew >= 1,
                0 <= k,
                !(j * ew <= k < (j + 1) * ew),
        ;
        assert(0 <= k / (ew as int) < es.len()) by (nonlinear_arith)
            requires
                ew >= 1,
                0 <= k < es.len() * ew,
        ;
    }
    assert forall|o: int| 0 <= o < ew implies elems_bits(ew, es2)[j * ew + o] == bit_of(x, o) by {
        assert((j * ew + o) / (ew as int) == j && (j * ew + o) % (ew as int) == o)
            by (nonlinear_arith)
            requires
                ew >= 1,
                0 <= o < ew,
                0 <= j,
        ;
        assert(0 <= j * ew + o < es.len() * ew) by (nonlinear_arith)
            requires
                ew >= 1,
                0 <= o < ew,
                0 <= j < es.len(),
        ;
    }
}

/// A value of the right skeleton is a legal partial state at `(0, 0)`.
pub proof fn lemma_deser_zero(t: TypeDesc, v: Value, tail: bool)
    requires
        value_shape(t, v),
    ensures
        field_deser_ok(t, v, 0, 0, tail),
    decreases t,
{
    match t {
        TypeDesc::Record(rt) => match v {
            Value::Record(rv) => {
                lemma_deser_zero_fields(rt.fields@, rv.fields@, tail);
            },
            _ => {},
        },
        _ => {},
    }
}

/// Field-list form of `lemma_deser_zero`.
pub proof fn lemma_deser_zero_fields(fs: Seq<FieldDecl>, vs: Seq<Value>, last: bool)
    requires
        vs.len() == fs.len(),
        forall|k: int| 0 <= k < fs.len() ==> value_shape(#[trigger] fs[k].ty, vs[k]),
    ensures
        fields_deser_ok(fs, vs, 0, 0, last),
    decreases fs,
{
    if fs.len() > 0 {
        if 0 < flat_count(fs[0].ty) {
            lemma_deser_zero(fs[0].ty, vs[0], last && fs.len() == 1);
        } else {
            // a field with no flattened fields is an empty record: it is
            // already complete
            lemma_empty_record_matches(fs[0].ty, vs[0]);
            lemma_deser_zero_fields(
                fs.subrange(1, fs.len() as int),
                vs.subrange(1, vs.len() as int),
                last,
            );
        }
    }
}

/// A field contributing no flattened fields is an empty record, and any
/// value of its skeleton already matches it.
pub proof fn lemma_empty_record_matches(t: TypeDesc, v: Value)
    requires
        flat_count(t) == 0,
        value_shape(t, v),
    ensures
        value_matches(t, v),
    decreases t,
{
    match t {
        TypeDesc::Record(rt) => match v {
            Value::Record(rv) => {
                assert forall|k: int| 0 <= k < rt.fields@.len() implies value_matches(
                    #[trigger] rt.fields@[k].ty,
                    rv.fields@[k],
                ) by {
                    lemma_flat_count_field_zero(rt.fields@, k);
                    lemma_empty_record_matches(rt.fields@[k].ty, rv.fields@[k]);
                }
            },
            _ => {},
        },
        _ => {},
    }
}

/// If a field list contributes no flattened fields, neither does any of
/// its fields.
pub proof fn lemma_flat_count_field_zero(fs: Seq<FieldDecl>, i: int)
    requires
        flat_count_fields(fs) == 0,
        0 <= i < fs.len(),
    ensures
        flat_count(fs[i].ty) == 0,
    decreases fs,
{
    if i > 0 {
        lemma_flat_count_field_zero(fs.subrange(1, fs.len() as int), i - 1);
    }
}

/// A cursor standing at the start of declared field `i`, everything before
/// it decoded and everything from it on of the right skeleton, is a legal
/// partial state.
pub proof fn lemma_deser_at_start(fs: Seq<FieldDecl>, vs: Seq<Value>, last: bool, i: int)
    requires
        vs.len() == fs.len(),
        0 <= i <= fs.len(),
        forall|k: int| 0 <= k < i ==> value_matches(#[trigger] fs[k].ty, vs[k]),
        forall|k: int| i <= k < fs.len() ==> value_shape(#[trigger] fs[k].ty, vs[k]),
    ensures
        fields_deser_ok(fs, vs, flat_base(fs, i), 0, last),
    decreases fs,
{
    if fs.len() == 0 {
    } else if i == 0 {
        lemma_deser_zero_fields(fs, vs, last);
    } else {
        lemma_deser_at_start(
            fs.subrange(1, fs.len() as int),
            vs.subrange(1, vs.len() as int),
            last,
            i - 1,
        );
    }
}

/// The malformed-wire state: the cursor stands on a dynamic array whose
/// decoded element count exceeds its declared capacity.
pub open spec fn invalid_state(t: TypeDesc, v: Value, f: nat, b: nat, tail: bool) -> bool
    decreases t,
{
    match t {
        TypeDesc::Record(rt) => match v {
            Value::Record(rv) => fields_invalid(rt.fields@, rv.fields@, f, b, tail),
            _ => false,
        },
        TypeDesc::DynamicArray { elem_bits: _, capacity } => match v {
            Value::Dynamic { count, .. } => count > capacity && f == 0 && b == (if tail {
                0int
            } else {
                length_bits(capacity as nat) as int
            }),
            _ => false,
        },
        _ => false,
    }
}

/// Field-list form of `invalid_state`.
pub open spec fn fields_invalid(fs: Seq<FieldDecl>, vs: Seq<Value>, f: nat, b: nat, last: bool) -> bool
    decreases fs,
{
    if fs.len() == 0 || vs.len() == 0 {
        false
    } else if f < flat_count(fs[0].ty) {
        invalid_state(fs[0].ty, vs[0], f, b, last && fs.len() == 1)
    } else {
        fields_invalid(
            fs.subrange(1, fs.len() as int),
            vs.subrange(1, vs.len() as int),
            (f - flat_count(fs[0].ty)) as nat,
            b,
            last,
        )
    }
}

/// Decomposition of the malformed-wire state at a cursor strictly inside
/// declared field `i`.
pub proof fn lemma_invalid_at(fs: Seq<FieldDecl>, vs: Seq<Value>, last: bool, i: int, f: nat, b: nat)
    requires
        vs.len() == fs.len(),
        0 <= i < fs.len(),
        flat_base(fs, i) <= f,
        f - flat_base(fs, i) < flat_count(fs[i].ty),
    ensures
        fields_invalid(fs, vs, f, b, last) == invalid_state(
            fs[i].ty,
            vs[i],
            (f - flat_base(fs, i)) as nat,
            b,
            last && i == fs.len() - 1,
        ),
    decreases fs,
{
    if i > 0 {
        lemma_invalid_at(
            fs.subrange(1, fs.len() as int),
            vs.subrange(1, vs.len() as int),
            last,
            i - 1,
            (f - flat_count(fs[0].ty)) as nat,
            b,
        );
    }
}

/// One step of the record reader: when the field under the cursor takes in
/// `delta` more wire bits (its earlier bits unchanged), the record's
/// decoded-prefix image grows by exactly `delta`.
pub proof fn lemma_deser_step(
    fs: Seq<FieldDecl>,
    vs1: Seq<Value>,
    vs2: Seq<Value>,
    last: bool,
    i: int,
    x1: nat,
    x2: nat,
    delta: Seq<bool>,
)
    requires
        vs1.len() == fs.len(),
        vs2.len() == fs.len(),
        0 <= i < fs.len(),
        forall|k: int| 0 <= k < fs.len() && k != i ==> vs1[k] == vs2[k],
        x1 <= x2,
        x2 <= field_enc(fs[i].ty, vs2[i], last && i == fs.len() - 1).len(),
        x1 <= field_enc(fs[i].ty, vs1[i], last && i == fs.len() - 1).len(),
        field_enc(fs[i].ty, vs2[i], last && i == fs.len() - 1).take(x1 as int) == field_enc(
            fs[i].ty,
            vs1[i],
            last && i == fs.len() - 1,
        ).take(x1 as int),
        field_enc(fs[i].ty, vs2[i], last && i == fs.len() - 1).subrange(x1 as int, x2 as int)
            == delta,
    ensures
        enc_offset(fs, vs2, last, i) == enc_offset(fs, vs1, last, i),
        enc_offset(fs, vs2, last, i) + x2 <= fields_enc(fs, vs2, last).len(),
        enc_offset(fs, vs1, last, i) + x1 <= fields_enc(fs, vs1, last).len(),
        fields_enc(fs, vs2, last).take((enc_offset(fs, vs2, last, i) + x2) as int) == fields_enc(
            fs,
            vs1,
            last,
        ).take((enc_offset(fs, vs1, last, i) + x1) as int) + delta,
{
    let tl = last && i == fs.len() - 1;
    lemma_enc_agree(fs, vs1, vs2, last, i);
    let off = enc_offset(fs, vs1, last, i);
    crate::wire::lemma_stitch(fs, vs2, last, i, 0, x2);
    crate::wire::lemma_stitch(fs, vs1, last, i, 0, x1);
    lemma_take_split(fields_enc(fs, vs2, last), off, off + x2);
    lemma_take_split(fields_enc(fs, vs1, last), off, off + x1);
    let e1 = field_enc(fs[i].ty, vs1[i], tl);
    let e2 = field_enc(fs[i].ty, vs2[i], tl);
    assert(fields_enc(fs, vs2, last).subrange(off as int, (off + x2) as int) =~= e2.subrange(
        0,
        x2 as int,
    ));
    assert(fields_enc(fs, vs1, last).subrange(off as int, (off + x1) as int) =~= e1.subrange(
        0,
        x1 as int,
    ));
    assert(e2.subrange(0, x2 as int) =~= e2.take(x1 as int) + delta);
    assert(e2.take(x1 as int) == e1.take(x1 as int));
    assert(e1.subrange(0, x1 as int) =~= e1.take(x1 as int));
    assert(fields_enc(fs, vs2, last).take((off + x2) as int) =~= fields_enc(fs, vs1, last).take(
        (off + x1) as int,
    ) + delta);
}

/// A consistent partial state never points past the field's wire image.
pub proof fn lemma_deser_progress_le(t: TypeDesc, v: Value, f: nat, b: nat, tail: bool)
    requires
        field_deser_ok(t, v, f, b, tail),
    ensures
        field_progress(t, v, f, b, tail) <= field_enc(t, v, tail).len(),
    decreases t,
{
    match t {
        TypeDesc::Record(rt) => match v {
            Value::Record(rv) => {
                lemma_deser_progress_le_fields(rt.fields@, rv.fields@, f, b, tail);
            },
            _ => {},
        },
        _ => {},
    }
}

/// Field-list form of `lemma_deser_progress_le`.
pub proof fn lemma_deser_progress_le_fields(
    fs: Seq<FieldDecl>,
    vs: Seq<Value>,
    f: nat,
    b: nat,
    last: bool,
)
    requires
        fields_deser_ok(fs, vs, f, b, last),
    ensures
        fields_progress(fs, vs, f, b, last) <= fields_enc(fs, vs, last).len(),
    decreases fs,
{
    if fs.len() > 0 && vs.len() > 0 {
        if f < flat_count(fs[0].ty) {
            lemma_deser_progress_le(fs[0].ty, vs[0], f, b, last && fs.len() == 1);
        } else {
            lemma_deser_progress_le_fields(
                fs.subrange(1, fs.len() as int),
                vs.subrange(1, vs.len() as int),
                (f - flat_count(fs[0].ty)) as nat,
                b,
                last,
            );
        }
    }
}

/// Reads the bits of one scalar, resuming at `*bit`, until it is complete
/// or the window is exhausted. The value holds exactly the bits read so
/// far, low bits first.
fn deserialize_scalar(
    raw: &mut u64,
    width: usize,
    bit: &mut usize,
    buffer: &mut DeserializationBuffer,
) -> (r: DeserializationResult)
    requires
        width <= 64,
        *old(bit) <= width,
        *old(raw) < pow2(*old(bit) as nat),
        old(buffer).wf(),
    ensures
        final(buffer).wf(),
        final(buffer)@ == old(buffer)@,
        old(buffer).at() <= final(buffer).at() <= old(buffer)@.len(),
        *old(bit) <= *final(bit) <= width,
        *final(raw) < pow2(*final(bit) as nat),
        scalar_bits(*final(raw), width as nat).subrange(*old(bit) as int, *final(bit) as int)
            == old(buffer)@.subrange(old(buffer).at() as int, final(buffer).at() as int),
        scalar_bits(*final(raw), width as nat).take(*old(bit) as int) == scalar_bits(
            *old(raw),
            width as nat,
        ).take(*old(bit) as int),
        (r == DeserializationResult::Finished) == (*final(bit) == width),
        r == DeserializationResult::BufferInsufficient ==> final(buffer).at() == old(
            buffer,
        )@.len(),
        r == DeserializationResult::Finished || r == DeserializationResult::BufferInsufficient,
{
    let ghost b0 = *bit;
    let ghost x0 = *raw;
    let ghost pos0 = buffer.at();
    let mut b: usize = *bit;
    let mut x: u64 = *raw;
    proof {
        crate::bits::lemma_high_bits_zero(x, b as nat);
        assert(scalar_bits(x, width as nat).subrange(b0 as int, b as int)
            =~= old(buffer)@.subrange(pos0 as int, pos0 as int));
    }
    while b < width
        invariant
            width <= 64,
            b0 == *old(bit),
            x0 == *old(raw),
            pos0 == old(buffer).at(),
            b0 <= b <= width,
            x < pow2(b as nat),
            buffer.wf(),
            buffer@ == old(buffer)@,
            pos0 <= buffer.at() <= buffer@.len(),
            scalar_bits(x, width as nat).subrange(b0 as int, b as int) == buffer@.subrange(
                pos0 as int,
                buffer.at() as int,
            ),
            scalar_bits(x, width as nat).take(b0 as int) == scalar_bits(x0, width as nat).take(
                b0 as int,
            ),
        decreases width - b,
    {
        if buffer.bit_length() == 0 {
            *bit = b;
            *raw = x;
            return DeserializationResult::BufferInsufficient;
        }
        let ghost x_prev = x;
        let ghost pos_prev = buffer.at();
        let v = buffer.pop_bit();
        proof {
            crate::bits::lemma_shift_is_pow2(b as u64);
        }
        if v {
            proof {
                crate::bits::lemma_set_bit(x, b as u64);
            }
            x = x | (1u64 << (b as u64));
        } else {
            proof {
                vstd::arithmetic::power2::lemma_pow2_strictly_increases(
                    b as nat,
                    b as nat + 1,
                );
                crate::bits::lemma_high_bits_zero(x, b as nat);
            }
        }
        proof {
            crate::bits::lemma_high_bits_zero(x_prev, b as nat);
            assert(forall|j: int| 0 <= j < b ==> bit_of(x, j) == bit_of(x_prev, j));
            assert(bit_of(x, b as int) == v);
            assert(scalar_bits(x, width as nat).take(b0 as int) =~= scalar_bits(
                x_prev,
                width as nat,
            ).take(b0 as int));
            assert(scalar_bits(x, width as nat).subrange(b0 as int, b as int) =~= scalar_bits(
                x_prev,
                width as nat,
            ).subrange(b0 as int, b as int));
            assert(scalar_bits(x, width as nat).subrange(b0 as int, b as int + 1) =~= scalar_bits(
                x,
                width as nat,
            ).subrange(b0 as int, b as int).push(bit_of(x, b as int)));
            assert(buffer@.subrange(pos0 as int, pos_prev as int + 1) =~= buffer@.subrange(
                pos0 as int,
                pos_prev as int,
            ).push(buffer@[pos_prev as int]));
        }
        b = b + 1;
    }
    *bit = b;
    *raw = x;
    DeserializationResult::Finished
}

/// A vector of `n` zeroed elements.
fn zero_elems(n: usize) -> (r: Vec<u64>)
    ensures
        r@.len() == n,
        forall|j: int| 0 <= j < n ==> r@[j] == 0,
{
    let mut v: Vec<u64> = Vec::new();
    let mut i: usize = 0;
    while i < n
        invariant
            i <= n,
            v@.len() == i,
            forall|j: int| 0 <= j < i ==> v@[j] == 0,
        decreases n - i,
    {
        v.push(0);
        i = i + 1;
    }
    v
}

/// Reads array elements, resuming at array-local offset `*bit`, until they
/// are complete or the window is exhausted.
fn deserialize_elems(
    elems: &mut Vec<u64>,
    ew: usize,
    bit: &mut usize,
    buffer: &mut DeserializationBuffer,
) -> (r: DeserializationResult)
    requires
        2 <= ew <= 64,
        old(elems)@.len() * ew <= MAX_RECORD_BITS,
        *old(bit) <= old(elems)@.len() * ew,
        elems_partial(old(elems)@, ew as nat, *old(bit) as nat),
        old(buffer).wf(),
    ensures
        final(buffer).wf(),
        final(buffer)@ == old(buffer)@,
        old(buffer).at() <= final(buffer).at() <= old(buffer)@.len(),
        final(elems)@.len() == old(elems)@.len(),
        *old(bit) <= *final(bit) <= old(elems)@.len() * ew,
        elems_partial(final(elems)@, ew as nat, *final(bit) as nat),
        elems_bits(ew as nat, final(elems)@).subrange(*old(bit) as int, *final(bit) as int)
            == old(buffer)@.subrange(old(buffer).at() as int, final(buffer).at() as int),
        elems_bits(ew as nat, final(elems)@).take(*old(bit) as int) == elems_bits(
            ew as nat,
            old(elems)@,
        ).take(*old(bit) as int),
        (r == DeserializationResult::Finished) == (*final(bit) == old(elems)@.len() * ew),
        r == DeserializationResult::BufferInsufficient ==> final(buffer).at() == old(
            buffer,
        )@.len(),
        r == DeserializationResult::Finished || r == DeserializationResult::BufferInsufficient,
{
    let ghost es0 = elems@;
    let ghost b0 = *bit;
    let ghost pos0 = buffer.at();
    let total: usize = elems.len() * ew;
    let mut b: usize = *bit;
    proof {
        assert(elems_bits(ew as nat, elems@).subrange(b0 as int, b as int) =~= old(
            buffer,
        )@.subrange(pos0 as int, pos0 as int));
    }
    while b < total
        invariant
            2 <= ew <= 64,
            es0 == old(elems)@,
            b0 == *old(bit),
            pos0 == old(buffer).at(),
            total == es0.len() * ew,
            elems@.len() == es0.len(),
            b0 <= b <= total,
            elems_partial(elems@, ew as nat, b as nat),
            buffer.wf(),
            buffer@ == old(buffer)@,
            pos0 <= buffer.at() <= buffer@.len(),
            elems_bits(ew as nat, elems@).subrange(b0 as int, b as int) == buffer@.subrange(
                pos0 as int,
                buffer.at() as int,
            ),
            elems_bits(ew as nat, elems@).take(b0 as int) == elems_bits(ew as nat, es0).take(
                b0 as int,
            ),
        decreases total - b,
    {
        if buffer.bit_length() == 0 {
            *bit = b;
            return DeserializationResult::BufferInsufficient;
        }
        let j: usize = b / ew;
        let o: usize = b % ew;
        proof {
            assert(b / ew < elems@.len() && b % ew < ew && b == (b / ew) * ew + b % ew)
                by (nonlinear_arith)
                requires
                    ew >= 1,
                    0 <= b < elems@.len() * ew,
            ;
            assert(elem_bits_done(b as int, j as int, ew as int) == o);
        }
        let ghost es_prev = elems@;
        let ghost pos_prev = buffer.at();
        let v = buffer.pop_bit();
        let cur = elems[j];
        proof {
            crate::bits::lemma_shift_is_pow2(o as u64);
        }
        let nv: u64 = if v {
            proof {
                crate::bits::lemma_set_bit(cur, o as u64);
            }
            cur | (1u64 << (o as u64))
        } else {
            proof {
                vstd::arithmetic::power2::lemma_pow2_strictly_increases(o as nat, o as nat + 1);
            }
            cur
        };
        elems.set(j, nv);
        proof {
            crate::bits::lemma_high_bits_zero(cur, o as nat);
            assert(forall|y: int| 0 <= y < o ==> bit_of(nv, y) == bit_of(cur, y));
            assert(bit_of(nv, o as int) == v);
            assert(nv < pow2(o as nat + 1));
            lemma_elems_bits_update(es_prev, ew as nat, j as int, nv);
            // the partial-state bound for every element at the new offset
            assert forall|jj: int| 0 <= jj < elems@.len() implies elems@[jj] < pow2(
                elem_bits_done(b as int + 1, jj, ew as int) as nat,
            ) by {
                if jj != j {
                    assert(elem_bits_done(b as int + 1, jj, ew as int) >= elem_bits_done(
                        b as int,
                        jj,
                        ew as int,
                    ));
                    vstd::arithmetic::power2::lemma_pow2_adds(0, 0);
                    if elem_bits_done(b as int + 1, jj, ew as int) > elem_bits_done(
                        b as int,
                        jj,
                        ew as int,
                    ) {
                        vstd::arithmetic::power2::lemma_pow2_strictly_increases(
                            elem_bits_done(b as int, jj, ew as int) as nat,
                            elem_bits_done(b as int + 1, jj, ew as int) as nat,
                        );
                    }
                } else {
                    assert(elem_bits_done(b as int + 1, j as int, ew as int) == o + 1);
                }
            }
            // the consumed-bits equation at the new offset
            let eb2 = elems_bits(ew as nat, elems@);
            let eb1 = elems_bits(ew as nat, es_prev);
            assert forall|k: int| 0 <= k < b implies eb2[k] == eb1[k] by {
                if j * ew <= k < (j + 1) * ew {
                    assert(k / (ew as int) == j && k % (ew as int) == k - j * ew)
                        by (nonlinear_arith)
                        requires
                            ew >= 1,
                            j * ew <= k < (j + 1) * ew,
                            0 <= j,
                    ;
                    assert(bit_of(nv, k - j * (ew as int)) == bit_of(cur, k - j * (ew as int)));
                }
            }
            assert(eb2[b as int] == v) by {
                assert(bit_of(elems@[j as int], o as int) == v);
            }
            assert(eb2.take(b0 as int) =~= eb1.take(b0 as int));
            assert(eb2.subrange(b0 as int, b as int) =~= eb1.subrange(b0 as int, b as int));
            assert(eb2.subrange(b0 as int, b as int + 1) =~= eb2.subrange(b0 as int, b as int).push(
                eb2[b as int],
            ));
            assert(buffer@.subrange(pos0 as int, pos_prev as int + 1) =~= buffer@.subrange(
                pos0 as int,
                pos_prev as int,
            ).push(buffer@[pos_prev as int]));
        }
        b = b + 1;
    }
    *bit = b;
    DeserializationResult::Finished
}

/// Reads a dynamic array, resuming at field-local offset `*bit`. Without
/// the tail optimization the length prefix is read first and validated
/// against the capacity; with it the element count is inferred as
/// `floor(remaining_bits / elem_bits)` from whatever the window still
/// holds, all of it is consumed, and the call always finishes (a
/// truncated window deliberately yields a shorter array, not an error).
#[verifier::rlimit(60)]
fn deserialize_dynamic(
    count: &mut u64,
    elems: &mut Vec<u64>,
    ew: usize,
    cap: usize,
    tail: bool,
    bit: &mut usize,
    buffer: &mut DeserializationBuffer,
) -> (r: DeserializationResult)
    requires
        2 <= ew <= 64,
        1 <= cap,
        length_bits(cap as nat) + cap * ew <= MAX_RECORD_BITS,
        old(buffer).wf(),
        field_deser_ok(
            (TypeDesc::DynamicArray { elem_bits: ew, capacity: cap }),
            (Value::Dynamic { count: *old(count), elems: *old(elems) }),
            0,
            *old(bit) as nat,
            tail,
        ),
    ensures
        final(buffer).wf(),
        final(buffer)@ == old(buffer)@,
        old(buffer).at() <= final(buffer).at() <= old(buffer)@.len(),
        *old(bit) <= *final(bit) <= crate::codec::dyn_enc(
            *final(count),
            final(elems)@,
            ew as nat,
            cap as nat,
            tail,
        ).len(),
        crate::codec::dyn_enc(*final(count), final(elems)@, ew as nat, cap as nat, tail).subrange(
            *old(bit) as int,
            *final(bit) as int,
        ) == old(buffer)@.subrange(old(buffer).at() as int, final(buffer).at() as int),
        crate::codec::dyn_enc(*final(count), final(elems)@, ew as nat, cap as nat, tail).take(
            *old(bit) as int,
        ) == crate::codec::dyn_enc(*old(count), old(elems)@, ew as nat, cap as nat, tail).take(
            *old(bit) as int,
        ),
        r == DeserializationResult::Finished ==> value_matches(
            (TypeDesc::DynamicArray { elem_bits: ew, capacity: cap }),
            (Value::Dynamic { count: *final(count), elems: *final(elems) }),
        ) && *final(bit) == crate::codec::dyn_enc(
            *final(count),
            final(elems)@,
            ew as nat,
            cap as nat,
            tail,
        ).len(),
        r == DeserializationResult::BufferInsufficient ==> field_deser_ok(
            (TypeDesc::DynamicArray { elem_bits: ew, capacity: cap }),
            (Value::Dynamic { count: *final(count), elems: *final(elems) }),
            0,
            *final(bit) as nat,
            tail,
        ) && final(buffer).at() == old(buffer)@.len() && !tail && *final(bit)
            < crate::codec::dyn_enc(*final(count), final(elems)@, ew as nat, cap as nat, tail).len(),
        r == DeserializationResult::InvalidLength ==> *final(count) > cap && *final(bit) == (if tail {
            0int
        } else {
            length_bits(cap as nat) as int
        }),
        r == DeserializationResult::Finished || r == DeserializationResult::BufferInsufficient || r
            == DeserializationResult::InvalidLength,
{
    let ghost pos0 = buffer.at();
    if tail {
        let avail = buffer.bit_length();
        let n = avail / ew;
        proof {
            assert(n * ew <= avail && n == avail as int / ew as int) by (nonlinear_arith)
                requires
                    ew >= 1,
                    n == avail / ew,
                    avail >= 0,
            ;
        }
        if n > cap {
            *count = n as u64;
            proof {
                let e = crate::codec::dyn_enc(*count, elems@, ew as nat, cap as nat, tail);
                assert(e.subrange(0, 0) =~= old(buffer)@.subrange(pos0 as int, pos0 as int));
                assert(e.take(0) =~= crate::codec::dyn_enc(
                    *old(count),
                    old(elems)@,
                    ew as nat,
                    cap as nat,
                    tail,
                ).take(0));
            }
            return DeserializationResult::InvalidLength;
        }
        *count = n as u64;
        *elems = zero_elems(n);
        proof {
            assert(n * ew <= cap * ew) by (nonlinear_arith)
                requires
                    n <= cap,
                    ew >= 0,
            ;
            assert forall|j: int| 0 <= j < elems@.len() implies elems@[j] < pow2(
                elem_bits_done(0, j, ew as int) as nat,
            ) by {
                assert(elem_bits_done(0, j, ew as int) == 0);
                vstd::arithmetic::power2::lemma2_to64();
            }
            assert(elems_partial(elems@, ew as nat, 0));
        }
        let mut eb: usize = 0;
        let r2 = deserialize_elems(elems, ew, &mut eb, buffer);
        proof {
            if r2 == DeserializationResult::BufferInsufficient {
                let consumed = old(buffer)@.subrange(pos0 as int, buffer.at() as int);
                assert(elems_bits(ew as nat, elems@).subrange(0, eb as int) == consumed);
                assert(elems_bits(ew as nat, elems@).subrange(0, eb as int).len() == eb);
                assert(consumed.len() == buffer.at() - pos0);
                assert(false);
            }
            // every element is now complete
            assert forall|j: int| 0 <= j < elems@.len() implies elems@[j] < pow2(ew as nat) by {
                assert(elem_bits_done((n * ew) as int, j, ew as int) == ew) by (nonlinear_arith)
                    requires
                        ew >= 1,
                        0 <= j < n,
                ;
            }
            let e = crate::codec::dyn_enc(*count, elems@, ew as nat, cap as nat, tail);
            assert(e.subrange(0, e.len() as int) =~= e);
            assert(e.take(0) =~= crate::codec::dyn_enc(
                *old(count),
                old(elems)@,
                ew as nat,
                cap as nat,
                tail,
            ).take(0));
        }
        *bit = eb;
        return DeserializationResult::Finished;
    }
    let lb = crate::codec::length_bits_of(cap);
    let ghost cap_n = cap as nat;
    let mut b: usize = *bit;
    let ghost c_entry = *count;
    let ghost es_entry = elems@;
    let ghost b0 = b as nat;
    if b <= lb {
        let mut c: u64 = if b == 0 {
            0
        } else {
            *count
        };
        proof {
            vstd::arithmetic::power2::lemma_pow2_pos(0);
        }
        let mut pb: usize = b;
        let ghost pos_a = buffer.at();
        let r = deserialize_scalar(&mut c, lb, &mut pb, buffer);
        *count = c;
        proof {
            // the prefix slice of the field image is the scalar's slice
            let e_now = crate::codec::dyn_enc(c, elems@, ew as nat, cap_n, tail);
            let pre_now = scalar_bits(c, length_bits(cap_n));
            assert(e_now.subrange(b as int, pb as int) =~= pre_now.subrange(b as int, pb as int));
            let e_old = crate::codec::dyn_enc(c_entry, es_entry, ew as nat, cap_n, tail);
            let pre_old = scalar_bits(c_entry, length_bits(cap_n));
            if b == 0 {
                assert(e_now.take(0) =~= e_old.take(0));
            } else {
                assert forall|k: int| 0 <= k < b implies e_now[k] == e_old[k] by {
                    assert(pre_now.take(b as int)[k] == pre_old.take(b as int)[k]);
                }
                assert(e_now.take(b as int) =~= e_old.take(b as int));
            }
        }
        if r == DeserializationResult::BufferInsufficient {
            *bit = pb;
            return DeserializationResult::BufferInsufficient;
        }
        if c > cap as u64 {
            *bit = lb;
            return DeserializationResult::InvalidLength;
        }
        let ghost es_mid = elems@;
        *elems = zero_elems(c as usize);
        proof {
            let e_a = crate::codec::dyn_enc(c, es_mid, ew as nat, cap_n, tail);
            let e_b = crate::codec::dyn_enc(c, elems@, ew as nat, cap_n, tail);
            assert(e_a.take(lb as int) =~= e_b.take(lb as int));
            assert(e_a.subrange(b as int, lb as int) =~= e_b.subrange(b as int, lb as int));
            assert(e_b.take(b as int) =~= e_a.take(b as int));
        }
        b = lb;
    }
    let ghost c_cur = *count;
    let ghost pos_mid = buffer.at();
    proof {
        assert(elems@.len() * ew <= cap * ew) by (nonlinear_arith)
            requires
                elems@.len() <= cap,
                ew >= 0,
        ;
    }
    let mut eb: usize = b - lb;
    let ghost es_mid2 = elems@;
    let r2 = deserialize_elems(elems, ew, &mut eb, buffer);
    proof {
        let e_fin = crate::codec::dyn_enc(*count, elems@, ew as nat, cap_n, tail);
        let e_mid = crate::codec::dyn_enc(*count, es_mid2, ew as nat, cap_n, tail);
        let body_fin = elems_bits(ew as nat, elems@);
        let body_mid = elems_bits(ew as nat, es_mid2);
        // element bits sit after the prefix inside the field image
        assert(e_fin.subrange(lb + (b - lb) as int, lb + eb as int) =~= body_fin.subrange(
            (b - lb) as int,
            eb as int,
        ));
        assert forall|k: int| 0 <= k < b implies e_fin[k] == e_mid[k] by {
            if k >= lb {
                assert(body_fin.take((b - lb) as int)[k - lb] == body_mid.take(
                    (b - lb) as int,
                )[k - lb]);
            }
        }
        assert(e_fin.take(b as int) =~= e_mid.take(b as int));
        // join the prefix part consumed earlier with the element part
        assert(old(buffer)@.subrange(pos0 as int, pos_mid as int) + old(buffer)@.subrange(
            pos_mid as int,
            buffer.at() as int,
        ) =~= old(buffer)@.subrange(pos0 as int, buffer.at() as int));
        if b0 < b as nat {
            // the prefix phase ran in this call
            let e_pb = crate::codec::dyn_enc(*count, es_mid2, ew as nat, cap_n, tail);
            lemma_take_split(e_fin, b0, b as nat);
            lemma_take_split(e_fin, b as nat, (lb + eb) as nat);
        }
        lemma_take_split(e_fin, b0, b as nat);
        if r2 == DeserializationResult::Finished {
            assert forall|j: int| 0 <= j < elems@.len() implies elems@[j] < pow2(ew as nat) by {
                assert(elem_bits_done((elems@.len() * ew) as int, j, ew as int) == ew)
                    by (nonlinear_arith)
                    requires
                        ew >= 1,
                        0 <= j < elems@.len(),
                ;
            }
        }
    }
    *bit = lb + eb;
    r2
}

/// The wire position of an in-field cursor: the bits of this field that
/// precede it, or the field's whole image once the field is complete.
pub open spec fn field_pos(t: TypeDesc, v: Value, f: nat, b: nat, tail: bool) -> nat {
    if f >= flat_count(t) {
        field_enc(t, v, tail).len()
    } else {
        field_progress(t, v, f, b, tail)
    }
}

/// Reads one field from the window, resuming at the caller's in-field
/// cursor, until the field completes, the window is exhausted, or a
/// dynamic array announces more elements than its capacity. Exactly the
/// wire bits of the part decoded so far have been consumed.
#[verifier::rlimit(60)]
pub fn deserialize_field(
    t: &TypeDesc,
    v: &mut Value,
    f: &mut usize,
    bit: &mut usize,
    tail: bool,
    buffer: &mut DeserializationBuffer,
) -> (r: DeserializationResult)
    requires
        type_valid(*t),
        max_bits(*t) <= MAX_RECORD_BITS,
        *old(f) < flat_count(*t),
        field_deser_ok(*t, *old(v), *old(f) as nat, *old(bit) as nat, tail),
        old(buffer).wf(),
    ensures
        final(buffer).wf(),
        final(buffer)@ == old(buffer)@,
        old(buffer).at() <= final(buffer).at() <= old(buffer)@.len(),
        *old(f) <= *final(f) <= flat_count(*t),
        *final(f) == *old(f) ==> *old(bit) <= *final(bit),
        r == DeserializationResult::BufferInsufficient ==> field_deser_ok(
            *t,
            *final(v),
            *final(f) as nat,
            *final(bit) as nat,
            tail,
        ),
        field_pos(*t, *final(v), *final(f) as nat, *final(bit) as nat, tail) <= field_enc(
            *t,
            *final(v),
            tail,
        ).len(),
        field_enc(*t, *final(v), tail).take(field_pos(
            *t,
            *final(v),
            *final(f) as nat,
            *final(bit) as nat,
            tail,
        ) as int) == field_enc(*t, *old(v), tail).take(field_pos(
            *t,
            *old(v),
            *old(f) as nat,
            *old(bit) as nat,
            tail,
        ) as int) + old(buffer)@.subrange(old(buffer).at() as int, final(buffer).at() as int),
        (r == DeserializationResult::Finished) == (*final(f) == flat_count(*t)),
        r == DeserializationResult::Finished ==> *final(bit) == 0 && value_matches(*t, *final(v)),
        r == DeserializationResult::BufferInsufficient ==> final(buffer).at() == old(
            buffer,
        )@.len(),
        r == DeserializationResult::InvalidLength ==> invalid_state(
            *t,
            *final(v),
            *final(f) as nat,
            *final(bit) as nat,
            tail,
        ),
    decreases *t,
{
    let ghost v0 = *v;
    let ghost b0 = *old(bit);
    let ghost pos0 = buffer.at();
    match t {
        TypeDesc::Scalar { bits, .. } => {
            let b = *bit;
            let mut x: u64 = 0;
            if b > 0 {
                x = match v {
                    Value::Scalar { raw } => *raw,
                    _ => unreached(),
                };
            }
            proof {
                vstd::arithmetic::power2::lemma2_to64();
            }
            let mut lb: usize = b;
            let rr = deserialize_scalar(&mut x, *bits, &mut lb, buffer);
            *v = Value::Scalar { raw: x };
            proof {
                let e2 = field_enc(*t, *v, tail);
                let e1 = field_enc(*t, v0, tail);
                if b == 0 {
                    assert(e2.take(0) =~= e1.take(0));
                }
                lemma_take_split(e2, b as nat, lb as nat);
                assert(e2.take(lb as int) =~= e1.take(b as int) + old(buffer)@.subrange(
                    pos0 as int,
                    buffer.at() as int,
                ));
            }
            if rr == DeserializationResult::Finished {
                *f = 1;
                *bit = 0;
                DeserializationResult::Finished
            } else {
                *bit = lb;
                DeserializationResult::BufferInsufficient
            }
        },
        TypeDesc::StaticArray { elem_bits, count } => {
            let b = *bit;
            if b == 0 {
                let z = zero_elems(*count);
                *v = Value::Array { elems: z };
            }
            let ghost vmid = *v;
            proof {
                let e2 = field_enc(*t, vmid, tail);
                let e1 = field_enc(*t, v0, tail);
                assert(e2.take(0) =~= e1.take(0));
                if b == 0 {
                    assert forall|j: int| 0 <= j < (*count) implies vmid->Array_elems@[j] < pow2(
                        elem_bits_done(0, j, *elem_bits as int) as nat,
                    ) by {
                        assert(elem_bits_done(0, j, *elem_bits as int) == 0);
                        vstd::arithmetic::power2::lemma2_to64();
                    }
                }
            }
            let mut lb: usize = b;
            let rr = match v {
                Value::Array { elems } => deserialize_elems(elems, *elem_bits, &mut lb, buffer),
                _ => unreached(),
            };
            proof {
                let e2 = field_enc(*t, *v, tail);
                let em = field_enc(*t, vmid, tail);
                let e1 = field_enc(*t, v0, tail);
                lemma_take_split(e2, b as nat, lb as nat);
                assert(e2.take(lb as int) =~= e1.take(b as int) + old(buffer)@.subrange(
                    pos0 as int,
                    buffer.at() as int,
                ));
                if rr == DeserializationResult::Finished {
                    assert forall|j: int| 0 <= j < (*count) implies (*v)->Array_elems@[j] < pow2(
                        *elem_bits as nat,
                    ) by {
                        assert(elem_bits_done(((*count) * (*elem_bits)) as int, j, *elem_bits as int)
                            == *elem_bits) by (nonlinear_arith)
                            requires
                                *elem_bits >= 1,
                                0 <= j < *count,
                        ;
                    }
                }
            }
            if rr == DeserializationResult::Finished {
                *f = 1;
                *bit = 0;
                DeserializationResult::Finished
            } else {
                *bit = lb;
                DeserializationResult::BufferInsufficient
            }
        },
        TypeDesc::DynamicArray { elem_bits, capacity } => {
            let b = *bit;
            if b == 0 {
                let z: Vec<u64> = Vec::new();
                *v = Value::Dynamic { count: 0, elems: z };
            }
            let ghost vmid = *v;
            proof {
                let e2 = field_enc(*t, vmid, tail);
                let e1 = field_enc(*t, v0, tail);
                assert(e2.take(0) =~= e1.take(0));
            }
            let mut lb: usize = b;
            let rr = match v {
                Value::Dynamic { count, elems } => deserialize_dynamic(
                    count,
                    elems,
                    *elem_bits,
                    *capacity,
                    tail,
                    &mut lb,
                    buffer,
                ),
                _ => unreached(),
            };
            proof {
                let e2 = field_enc(*t, *v, tail);
                let e1 = field_enc(*t, v0, tail);
                lemma_take_split(e2, b as nat, lb as nat);
                assert(e2.take(lb as int) =~= e1.take(b as int) + old(buffer)@.subrange(
                    pos0 as int,
                    buffer.at() as int,
                ));
            }
            if rr == DeserializationResult::Finished {
                *f = 1;
                *bit = 0;
                DeserializationResult::Finished
            } else if rr == DeserializationResult::BufferInsufficient {
                *bit = lb;
                DeserializationResult::BufferInsufficient
            } else {
                *bit = lb;
                DeserializationResult::InvalidLength
            }
        },
        TypeDesc::Record(rt) => {
            let rr = match v {
                Value::Record(rv) => deserialize_fields(&rt.fields, &mut rv.fields, f, bit, tail, buffer),
                _ => unreached(),
            };
            proof {
                if rr == DeserializationResult::Finished {
                    lemma_deser_end(rt.fields@, (*v)->Record_0.fields@, tail);
                    crate::wire::lemma_progress_end(rt.fields@, (*v)->Record_0.fields@, tail);
                }
            }
            rr
        },
    }
}

/// Reads a record's fields from the window, resuming at the caller's
/// flattened cursor, until the record completes, the window is exhausted,
/// or a dynamic array announces more elements than its capacity. Exactly
/// the wire bits of the value decoded so far have been consumed: the
/// decoded-prefix image of the value equals what previous calls consumed
/// plus this call's bits.
#[verifier::rlimit(100)]
pub fn deserialize_fields(
    fields: &Vec<FieldDecl>,
    vals: &mut Vec<Value>,
    flattened_field: &mut usize,
    bit: &mut usize,
    last: bool,
    buffer: &mut DeserializationBuffer,
) -> (r: DeserializationResult)
    requires
        old(vals)@.len() == fields@.len(),
        forall|k: int| 0 <= k < fields@.len() ==> type_valid(#[trigger] fields@[k].ty),
        max_bits_fields(fields@) <= MAX_RECORD_BITS,
        *old(flattened_field) < flat_count_fields(fields@),
        fields_deser_ok(
            fields@,
            old(vals)@,
            *old(flattened_field) as nat,
            *old(bit) as nat,
            last,
        ),
        old(buffer).wf(),
    ensures
        final(buffer).wf(),
        final(buffer)@ == old(buffer)@,
        old(buffer).at() <= final(buffer).at() <= old(buffer)@.len(),
        final(vals)@.len() == fields@.len(),
        *old(flattened_field) <= *final(flattened_field) <= flat_count_fields(fields@),
        *final(flattened_field) == *old(flattened_field) ==> *old(bit) <= *final(bit),
        r != DeserializationResult::InvalidLength ==> fields_deser_ok(
            fields@,
            final(vals)@,
            *final(flattened_field) as nat,
            *final(bit) as nat,
            last,
        ),
        fields_progress(
            fields@,
            final(vals)@,
            *final(flattened_field) as nat,
            *final(bit) as nat,
            last,
        ) <= fields_enc(fields@, final(vals)@, last).len(),
        fields_enc(fields@, final(vals)@, last).take(fields_progress(
            fields@,
            final(vals)@,
            *final(flattened_field) as nat,
            *final(bit) as nat,
            last,
        ) as int) == fields_enc(fields@, old(vals)@, last).take(fields_progress(
            fields@,
            old(vals)@,
            *old(flattened_field) as nat,
            *old(bit) as nat,
            last,
        ) as int) + old(buffer)@.subrange(old(buffer).at() as int, final(buffer).at() as int),
        (r == DeserializationResult::Finished) == (*final(flattened_field) == flat_count_fields(
            fields@,
        )),
        r == DeserializationResult::Finished ==> *final(bit) == 0,
        r == DeserializationResult::BufferInsufficient ==> final(buffer).at() == old(
            buffer,
        )@.len(),
        r == DeserializationResult::InvalidLength ==> fields_invalid(
            fields@,
            final(vals)@,
            *final(flattened_field) as nat,
            *final(bit) as nat,
            last,
        ),
    decreases fields@,
{
    let ghost fs = fields@;
    let ghost vs0 = old(vals)@;
    let ghost f0 = *old(flattened_field);
    let ghost b0 = *old(bit);
    let ghost pos0 = buffer.at();
    let ghost p0 = fields_progress(fs, vs0, f0 as nat, b0 as nat, last);
    proof {
        lemma_deser_progress_le_fields(fs, vs0, f0 as nat, b0 as nat, last);
        crate::codec::lemma_flat_le_max_fields(fs);
        assert(fields_enc(fs, vs0, last).take(p0 as int) =~= fields_enc(fs, vs0, last).take(
            p0 as int,
        ) + old(buffer)@.subrange(pos0 as int, pos0 as int));
    }
    let n = fields.len();
    let mut f: usize = *flattened_field;
    let mut b: usize = *bit;
    let mut i: usize = 0;
    let mut base: usize = 0;
    while i < n
        invariant
            fields@ == fs,
            n == fs.len(),
            vals@.len() == fs.len(),
            forall|k: int| 0 <= k < fs.len() ==> type_valid(#[trigger] fs[k].ty),
            max_bits_fields(fs) <= MAX_RECORD_BITS,
            flat_count_fields(fs) <= MAX_RECORD_BITS,
            f0 == *old(flattened_field),
            b0 == *old(bit),
            vs0 == old(vals)@,
            pos0 == old(buffer).at(),
            p0 == fields_progress(fs, vs0, f0 as nat, b0 as nat, last),
            i <= n,
            base == flat_base(fs, i as int),
            base <= f,
            f <= flat_count_fields(fs),
            fields_deser_ok(fs, vals@, f as nat, b as nat, last),
            buffer.wf(),
            buffer@ == old(buffer)@,
            pos0 <= buffer.at() <= buffer@.len(),
            fields_progress(fs, vals@, f as nat, b as nat, last) <= fields_enc(
                fs,
                vals@,
                last,
            ).len(),
            fields_enc(fs, vals@, last).take(fields_progress(fs, vals@, f as nat, b as nat, last) as int)
                == fields_enc(fs, vs0, last).take(p0 as int) + buffer@.subrange(
                pos0 as int,
                buffer.at() as int,
            ),
            f0 <= f,
            f == f0 ==> b0 <= b,
            f == flat_count_fields(fs) ==> b == 0,
        decreases n - i,
    {
        let ghost tail_i = last && i as int == fs.len() - 1;
        proof {
            lemma_flat_base_step(fs, i as int);
            crate::codec::lemma_flat_base_le_total(fs, i as int + 1);
            crate::codec::lemma_max_bits_field_le(fs, i as int);
        }
        let c = crate::codec::flat_count_of(&fields[i].ty);
        if f >= base + c {
            base = base + c;
            i = i + 1;
        } else {
            proof {
                lemma_deser_at(fs, vals@, last, i as int, f as nat, b as nat);
                crate::wire::lemma_progress_at(fs, vals@, last, i as int, f as nat, b as nat);
                crate::codec::lemma_enc_offset_le_total(fs, vals@, last, i as int + 1);
                lemma_deser_progress_le(
                    fs[i as int].ty,
                    vals@[i as int],
                    (f - base) as nat,
                    b as nat,
                    tail_i,
                );
            }
            let is_last = last && i == n - 1;
            let ghost pos_pre = buffer.at();
            let ghost vs_pre = vals@;
            let mut lf: usize = f - base;
            let mut lb: usize = b;
            let ghost lf0 = lf as nat;
            let rr = deserialize_field(
                &fields[i].ty,
                &mut vals[i],
                &mut lf,
                &mut lb,
                is_last,
                buffer,
            );
            proof {
                let vs_new = vals@;
                let tl = tail_i;
                let x1 = field_pos(fs[i as int].ty, vs_pre[i as int], lf0, b as nat, tl);
                let x2 = field_pos(fs[i as int].ty, vs_new[i as int], lf as nat, lb as nat, tl);
                let delta = buffer@.subrange(pos_pre as int, buffer.at() as int);
                let e2 = field_enc(fs[i as int].ty, vs_new[i as int], tl);
                let e1 = field_enc(fs[i as int].ty, vs_pre[i as int], tl);
                assert(e2.take(x2 as int) == e1.take(x1 as int) + delta);
                assert(e2.take(x2 as int).len() == x2);
                assert(x2 == x1 + delta.len());
                assert(e2.take(x1 as int) =~= (e1.take(x1 as int) + delta).take(x1 as int));
                assert(e2.take(x1 as int) =~= e1.take(x1 as int));
                assert(e2.subrange(x1 as int, x2 as int) =~= (e1.take(x1 as int) + delta).subrange(
                    x1 as int,
                    x2 as int,
                ));
                assert(e2.subrange(x1 as int, x2 as int) =~= delta);
                lemma_deser_step(fs, vs_pre, vs_new, last, i as int, x1, x2, delta);
                assert(buffer@.subrange(pos0 as int, pos_pre as int) + buffer@.subrange(
                    pos_pre as int,
                    buffer.at() as int,
                ) =~= buffer@.subrange(pos0 as int, buffer.at() as int));
                if rr == DeserializationResult::Finished {
                    crate::wire::lemma_progress_at_start(fs, vs_new, last, i as int + 1);
                    crate::wire::lemma_enc_offset_step(fs, vs_new, last, i as int);
                    lemma_deser_at_start(fs, vs_new, last, i as int + 1);
                } else if rr == DeserializationResult::BufferInsufficient {
                    crate::wire::lemma_progress_at(
                        fs,
                        vs_new,
                        last,
                        i as int,
                        (base + lf) as nat,
                        lb as nat,
                    );
                    lemma_deser_at(fs, vs_new, last, i as int, (base + lf) as nat, lb as nat);
                } else {
                    crate::wire::lemma_progress_at(
                        fs,
                        vs_new,
                        last,
                        i as int,
                        (base + lf) as nat,
                        lb as nat,
                    );
                    lemma_invalid_at(fs, vs_new, last, i as int, (base + lf) as nat, lb as nat);
                }
            }
            if rr == DeserializationResult::Finished {
                f = base + c;
                b = 0;
                base = base + c;
                i = i + 1;
            } else if rr == DeserializationResult::BufferInsufficient {
                f = base + lf;
                b = lb;
                *flattened_field = f;
                *bit = b;
                return DeserializationResult::BufferInsufficient;
            } else {
                f = base + lf;
                b = lb;
                *flattened_field = f;
                *bit = b;
                return DeserializationResult::InvalidLength;
            }
        }
    }
    proof {
        crate::wire::lemma_flat_base_total(fs);
    }
    *flattened_field = f;
    *bit = b;
    DeserializationResult::Finished
}

/// A fresh, all-zero value of one declared type: zero scalars, zeroed
/// static arrays, empty dynamic arrays, and recursively fresh records.
pub fn default_value(t: &TypeDesc) -> (v: Value)
    requires
        type_valid(*t),
    ensures
        value_matches(*t, v),
        value_shape(*t, v),
    decreases *t,
{
    match t {
        TypeDesc::Scalar { bits, .. } => {
            proof {
                vstd::arithmetic::power2::lemma_pow2_pos(*bits as nat);
            }
            Value::Scalar { raw: 0 }
        },
        TypeDesc::StaticArray { elem_bits, count } => {
            proof {
                vstd::arithmetic::power2::lemma_pow2_pos(*elem_bits as nat);
            }
            Value::Array { elems: zero_elems(*count) }
        },
        TypeDesc::DynamicArray { .. } => {
            let z: Vec<u64> = Vec::new();
            Value::Dynamic { count: 0, elems: z }
        },
        TypeDesc::Record(rt) => Value::Record(RecordValue { fields: default_values(&rt.fields) }),
    }
}

/// Fresh, all-zero values for a whole field list.
pub fn default_values(fields: &Vec<FieldDecl>) -> (out: Vec<Value>)
    requires
        forall|k: int| 0 <= k < fields@.len() ==> type_valid(#[trigger] fields@[k].ty),
    ensures
        out@.len() == fields@.len(),
        forall|k: int| 0 <= k < fields@.len() ==> value_matches(
            #[trigger] fields@[k].ty,
            out@[k],
        ),
        forall|k: int| 0 <= k < fields@.len() ==> value_shape(#[trigger] fields@[k].ty, out@[k]),
    decreases fields@,
{
    let mut out: Vec<Value> = Vec::new();
    let n = fields.len();
    let mut i: usize = 0;
    while i < n
        invariant
            i <= n,
            n == fields@.len(),
            out@.len() == i,
            forall|k: int| 0 <= k < fields@.len() ==> type_valid(#[trigger] fields@[k].ty),
            forall|k: int| 0 <= k < i ==> value_matches(#[trigger] fields@[k].ty, out@[k]),
            forall|k: int| 0 <= k < i ==> value_shape(#[trigger] fields@[k].ty, out@[k]),
        decreases n - i,
    {
        let fv = default_value(&fields[i].ty);
        out.push(fv);
        i = i + 1;
    }
    out
}

impl RecordType {
    /// A fresh, all-zero value of this record type: the natural starting
    /// point for building a value or for a new deserialization.
    pub fn new_value(&self) -> (v: RecordValue)
        requires
            record_type_valid(*self),
        ensures
            record_matches(*self, v),
            v.fields@.len() == self.fields@.len(),
            forall|k: int| 0 <= k < self.fields@.len() ==> value_shape(
                #[trigger] self.fields@[k].ty,
                v.fields@[k],
            ),
            fields_deser_ok(self.fields@, v.fields@, 0, 0, true),
            fields_deser_ok(self.fields@, v.fields@, 0, 0, false),
    {
        let out = default_values(&self.fields);
        proof {
            lemma_deser_zero_fields(self.fields@, out@, true);
            lemma_deser_zero_fields(self.fields@, out@, false);
        }
        RecordValue { fields: out }
    }

    /// Reads a record value from `buffer`, resuming at the caller-owned
    /// cursor `(flattened_field, bit)`, until the record completes
    /// (`Finished`), the frame window is exhausted (`BufferInsufficient`),
    /// or a dynamic array announces more elements than its declared
    /// capacity (`InvalidLength`; the transfer must be discarded). The
    /// decoded part of `v` re-encodes to exactly the bits consumed so far,
    /// and the cursor pair is the complete state needed to resume.
    /// `last_field` says whether this record is the final field of the
    /// transfer; only then its own final dynamic array is read without a
    /// length prefix.
    pub fn deserialize(
        &self,
        v: &mut RecordValue,
        flattened_field: &mut usize,
        bit: &mut usize,
        last_field: bool,
        buffer: &mut DeserializationBuffer,
    ) -> (r: DeserializationResult)
        requires
            record_type_valid(*self),
            old(v).fields@.len() == self.fields@.len(),
            *old(flattened_field) < flat_count_fields(self.fields@),
            fields_deser_ok(
                self.fields@,
                old(v).fields@,
                *old(flattened_field) as nat,
                *old(bit) as nat,
                last_field,
            ),
            old(buffer).wf(),
        ensures
            final(buffer).wf(),
            final(buffer)@ == old(buffer)@,
            old(buffer).at() <= final(buffer).at() <= old(buffer)@.len(),
            final(v).fields@.len() == self.fields@.len(),
            *old(flattened_field) <= *final(flattened_field) <= flat_count_fields(self.fields@),
            *final(flattened_field) == *old(flattened_field) ==> *old(bit) <= *final(bit),
            r != DeserializationResult::InvalidLength ==> fields_deser_ok(
                self.fields@,
                final(v).fields@,
                *final(flattened_field) as nat,
                *final(bit) as nat,
                last_field,
            ),
            crate::wire::record_enc(*self, *final(v), last_field).take(fields_progress(
                self.fields@,
                final(v).fields@,
                *final(flattened_field) as nat,
                *final(bit) as nat,
                last_field,
            ) as int) == crate::wire::record_enc(*self, *old(v), last_field).take(fields_progress(
                self.fields@,
                old(v).fields@,
                *old(flattened_field) as nat,
                *old(bit) as nat,
                last_field,
            ) as int) + old(buffer)@.subrange(old(buffer).at() as int, final(buffer).at() as int),
            (r == DeserializationResult::Finished) == (*final(flattened_field)
                == flat_count_fields(self.fields@)),
            r == DeserializationResult::Finished ==> *final(bit) == 0 && record_matches(
                *self,
                *final(v),
            ) && fields_progress(
                self.fields@,
                final(v).fields@,
                *final(flattened_field) as nat,
                *final(bit) as nat,
                last_field,
            ) == crate::wire::record_enc(*self, *final(v), last_field).len(),
            r == DeserializationResult::BufferInsufficient ==> final(buffer).at() == old(
                buffer,
            )@.len(),
            r == DeserializationResult::InvalidLength ==> fields_invalid(
                self.fields@,
                final(v).fields@,
                *final(flattened_field) as nat,
                *final(bit) as nat,
                last_field,
            ),
    {
        let r = deserialize_fields(
            &self.fields,
            &mut v.fields,
            flattened_field,
            bit,
            last_field,
            buffer,
        );
        proof {
            if r == DeserializationResult::Finished {
                lemma_deser_end(self.fields@, v.fields@, last_field);
                crate::wire::lemma_progress_end(self.fields@, v.fields@, last_field);
            }
        }
        r
    }
}

} // verus!
