//! The laws the codec obeys, stated and proved over the wire-format model
//! that the executable contracts are written in.

use crate::bits::{
    bit_of, elems_bits, length_bits, lemma_bits_inj, lemma_length_bits_holds_cap, scalar_bits,
};
use crate::bits::lemma_length_bits_le;
use crate::types::{
    flat_count_fields, max_bits, max_bits_fields, record_matches, record_type_valid, type_valid,
    value_matches, FieldDecl, RecordType, RecordValue, TypeDesc, Value, MAX_RECORD_BITS,
};
use crate::wire::{
    enc_offset, field_enc, fields_enc, fields_progress, lemma_enc_field_slice,
    lemma_progress_end, lemma_progress_zero_fields, record_enc,
};
use vstd::arithmetic::power2::pow2;
use vstd::prelude::*;

verus! {

/// Bit length accuracy: `bit_length` returns exactly the number of wire
/// bits that a full serialization writes. A full pass starts at cursor
/// `(0, 0)`, whose wire position is zero, and finishes at cursor
/// `(flattened count, 0)`, whose wire position is the record's whole
/// image — so the bits appended across the pass, which `serialize`
/// guarantees to be the image between the two positions, are the whole
/// image, of length `bit_length(v)`.
pub proof fn lemma_bit_length_accurate(rt: RecordType, rv: RecordValue, last: bool)
    requires
        rv.fields@.len() == rt.fields@.len(),
    ensures
        fields_progress(rt.fields@, rv.fields@, 0, 0, last) == 0,
        fields_progress(rt.fields@, rv.fields@, flat_count_fields(rt.fields@), 0, last)
            == record_enc(rt, rv, last).len(),
{
    lemma_progress_zero_fields(rt.fields@, rv.fields@, last);
    lemma_progress_end(rt.fields@, rv.fields@, last);
}

/// Tail optimization exactly on the true last field: within a record's
/// wire image, a dynamic-array field that is not the final declared field
/// of the transfer always begins with its length prefix; the final one
/// never carries it. Any other field owns the same slice with the tail
/// flag off.
pub proof fn lemma_tail_optimization(
    fs: Seq<FieldDecl>,
    vs: Seq<Value>,
    last: bool,
    i: int,
    elem_bits: usize,
    capacity: usize,
    count: u64,
    elems: Vec<u64>,
)
    requires
        vs.len() == fs.len(),
        0 <= i < fs.len(),
        fs[i].ty == (TypeDesc::DynamicArray { elem_bits, capacity }),
        vs[i] == (Value::Dynamic { count, elems }),
    ensures
        !(last && i == fs.len() - 1) ==> fields_enc(fs, vs, last).subrange(
            enc_offset(fs, vs, last, i) as int,
            enc_offset(fs, vs, last, i + 1) as int,
        ) == scalar_bits(count, length_bits(capacity as nat)) + elems_bits(
            elem_bits as nat,
            elems@,
        ),
        (last && i == fs.len() - 1) ==> fields_enc(fs, vs, last).subrange(
            enc_offset(fs, vs, last, i) as int,
            enc_offset(fs, vs, last, i + 1) as int,
        ) == elems_bits(elem_bits as nat, elems@),
{
    lemma_enc_field_slice(fs, vs, last, i);
}

/// Two field values agree in every wire-visible part: scalar bits,
/// element counts, elements, and, recursively, every nested field.
/// (Spelled out as a relation because two equal-looking values may still
/// live in different heap allocations.)
pub open spec fn value_like(v1: Value, v2: Value) -> bool
    decreases v1,
{
    match v1 {
        Value::Scalar { raw: a } => match v2 {
            Value::Scalar { raw: b } => a == b,
            _ => false,
        },
        Value::Array { elems: a } => match v2 {
            Value::Array { elems: b } => a@ == b@,
            _ => false,
        },
        Value::Dynamic { count: c, elems: a } => match v2 {
            Value::Dynamic { count: d, elems: b } => c == d && a@ == b@,
            _ => false,
        },
        Value::Record(r1) => match v2 {
            Value::Record(r2) => record_like(r1, r2),
            _ => false,
        },
    }
}

/// Record form of `value_like`: the values agree field for field.
pub open spec fn record_like(rv1: RecordValue, rv2: RecordValue) -> bool
    decreases rv1,
{
    rv1.fields@.len() == rv2.fields@.len() && forall|i: int|
        0 <= i < rv1.fields@.len() ==> value_like(
            #[trigger] rv1.fields@[i],
            rv2.fields@[i],
        )
}

/// Two element runs with the same packed bits are the same elements.
proof fn lemma_elems_inj(es1: Seq<u64>, es2: Seq<u64>, ew: nat)
    requires
        1 <= ew <= 64,
        es1.len() == es2.len(),
        elems_bits(ew, es1) == elems_bits(ew, es2),
        forall|j: int| 0 <= j < es1.len() ==> #[trigger] es1[j] < pow2(ew),
        forall|j: int| 0 <= j < es2.len() ==> #[trigger] es2[j] < pow2(ew),
    ensures
        es1 == es2,
{
    assert forall|j: int| 0 <= j < es1.len() implies es1[j] == es2[j] by {
        assert forall|o: int| 0 <= o < ew implies bit_of(es1[j], o) == bit_of(es2[j], o) by {
            let k = j * ew + o;
            assert(0 <= k < es1.len() * ew && k / (ew as int) == j && k % (ew as int) == o)
                by (nonlinear_arith)
                requires
                    1 <= ew,
                    0 <= o < ew,
                    0 <= j < es1.len(),
                    k == j * ew + o,
            ;
            assert(elems_bits(ew, es1)[k] == bit_of(es1[j], o));
            assert(elems_bits(ew, es2)[k] == bit_of(es2[j], o));
            assert(elems_bits(ew, es1)[k] == elems_bits(ew, es2)[k]);
        }
        lemma_bits_inj(es1[j], es2[j], ew);
    }
    assert(es1 =~= es2);
}

/// One field is decoded deterministically: if the wire images of two
/// matching values of one type both stand at the front of the same bit
/// stream — with equal lengths when the field is in tail position, where
/// the length comes from outside — the values are the same.
proof fn lemma_field_det(t: TypeDesc, v1: Value, v2: Value, tail: bool, w: Seq<bool>)
    requires
        type_valid(t),
        max_bits(t) <= MAX_RECORD_BITS,
        value_matches(t, v1),
        value_matches(t, v2),
        field_enc(t, v1, tail).len() <= w.len(),
        field_enc(t, v2, tail).len() <= w.len(),
        field_enc(t, v1, tail) == w.take(field_enc(t, v1, tail).len() as int),
        field_enc(t, v2, tail) == w.take(field_enc(t, v2, tail).len() as int),
        tail ==> field_enc(t, v1, tail).len() == field_enc(t, v2, tail).len(),
    ensures
        value_like(v1, v2),
        field_enc(t, v1, tail) == field_enc(t, v2, tail),
    decreases t,
{
    let e1 = field_enc(t, v1, tail);
    let e2 = field_enc(t, v2, tail);
    match t {
        TypeDesc::Scalar { bits, .. } => {
            if let (Value::Scalar { raw: r1 }, Value::Scalar { raw: r2 }) = (v1, v2) {
                assert(e1 =~= e2);
                assert forall|j: int| 0 <= j < bits implies bit_of(r1, j) == bit_of(r2, j) by {
                    assert(e1[j] == e2[j]);
                }
                lemma_bits_inj(r1, r2, bits as nat);
            }
        },
        TypeDesc::StaticArray { elem_bits, count } => {
            if let (Value::Array { elems: a1 }, Value::Array { elems: a2 }) = (v1, v2) {
                assert(e1 =~= e2);
                lemma_elems_inj(a1@, a2@, elem_bits as nat);
            }
        },
        TypeDesc::DynamicArray { elem_bits, capacity } => {
            if let (
                Value::Dynamic { count: c1, elems: a1 },
                Value::Dynamic { count: c2, elems: a2 },
            ) = (v1, v2) {
                let lb = length_bits(capacity as nat);
                if tail {
                    assert(e1 =~= e2);
                    assert(a1@.len() * elem_bits == a2@.len() * elem_bits);
                    assert(a1@.len() == a2@.len()) by (nonlinear_arith)
                        requires
                            elem_bits >= 1,
                            a1@.len() * elem_bits == a2@.len() * elem_bits,
                    ;
                    lemma_elems_inj(a1@, a2@, elem_bits as nat);
                } else {
                    lemma_length_bits_holds_cap(capacity as nat);
                    assert(capacity * 2 <= capacity * elem_bits) by (nonlinear_arith)
                        requires
                            elem_bits >= 2,
                            capacity >= 0,
                    ;
                    assert(capacity < pow2(24)) by {
                        vstd::arithmetic::power2::lemma2_to64();
                    }
                    lemma_length_bits_le(capacity as nat, 24);
                    assert forall|j: int| 0 <= j < lb implies bit_of(c1, j) == bit_of(c2, j) by {
                        assert(e1[j] == w[j] && e2[j] == w[j]);
                    }
                    assert(c1 < pow2(lb) && c2 < pow2(lb)) by {
                        vstd::arithmetic::power2::lemma_pow2_pos(lb);
                    }
                    lemma_bits_inj(c1, c2, lb);
                    assert(a1@.len() == a2@.len());
                    assert(e1.len() == e2.len());
                    assert(e1 =~= e2);
                    assert(elems_bits(elem_bits as nat, a1@) =~= elems_bits(
                        elem_bits as nat,
                        a2@,
                    )) by {
                        assert forall|k: int|
                            0 <= k < a1@.len() * elem_bits implies elems_bits(
                            elem_bits as nat,
                            a1@,
                        )[k] == elems_bits(elem_bits as nat, a2@)[k] by {
                            assert(e1[lb + k] == e2[lb + k]);
                        }
                    }
                    lemma_elems_inj(a1@, a2@, elem_bits as nat);
                }
            }
        },
        TypeDesc::Record(rt) => {
            if let (Value::Record(rv1), Value::Record(rv2)) = (v1, v2) {
                lemma_fields_det(rt.fields@, rv1.fields@, rv2.fields@, tail, w);
            }
        },
    }
}

/// A record's fields are decoded deterministically, field by field in
/// declaration order.
proof fn lemma_fields_det(
    fs: Seq<FieldDecl>,
    vs1: Seq<Value>,
    vs2: Seq<Value>,
    last: bool,
    w: Seq<bool>,
)
    requires
        vs1.len() == fs.len(),
        vs2.len() == fs.len(),
        forall|k: int| 0 <= k < fs.len() ==> type_valid(#[trigger] fs[k].ty),
        max_bits_fields(fs) <= MAX_RECORD_BITS,
        forall|k: int| 0 <= k < fs.len() ==> value_matches(#[trigger] fs[k].ty, vs1[k]),
        forall|k: int| 0 <= k < fs.len() ==> value_matches(#[trigger] fs[k].ty, vs2[k]),
        fields_enc(fs, vs1, last).len() <= w.len(),
        fields_enc(fs, vs2, last).len() <= w.len(),
        fields_enc(fs, vs1, last) == w.take(fields_enc(fs, vs1, last).len() as int),
        fields_enc(fs, vs2, last) == w.take(fields_enc(fs, vs2, last).len() as int),
        last ==> fields_enc(fs, vs1, last).len() == fields_enc(fs, vs2, last).len(),
    ensures
        forall|k: int| 0 <= k < fs.len() ==> value_like(#[trigger] vs1[k], vs2[k]),
        fields_enc(fs, vs1, last) == fields_enc(fs, vs2, last),
    decreases fs,
{
    if fs.len() == 0 {
    } else {
        let tail0 = last && fs.len() == 1;
        let e1 = field_enc(fs[0].ty, vs1[0], tail0);
        let e2 = field_enc(fs[0].ty, vs2[0], tail0);
        let fr = fs.subrange(1, fs.len() as int);
        let v1r = vs1.subrange(1, vs1.len() as int);
        let v2r = vs2.subrange(1, vs2.len() as int);
        let r1 = fields_enc(fr, v1r, last);
        let r2 = fields_enc(fr, v2r, last);
        assert(e1 == w.take(e1.len() as int)) by {
            assert(e1 =~= (e1 + r1).take(e1.len() as int));
            assert((e1 + r1).take(e1.len() as int) =~= w.take((e1 + r1).len() as int).take(
                e1.len() as int,
            ));
            assert(w.take((e1 + r1).len() as int).take(e1.len() as int) =~= w.take(
                e1.len() as int,
            ));
        }
        assert(e2 == w.take(e2.len() as int)) by {
            assert(e2 =~= (e2 + r2).take(e2.len() as int));
            assert((e2 + r2).take(e2.len() as int) =~= w.take((e2 + r2).len() as int).take(
                e2.len() as int,
            ));
            assert(w.take((e2 + r2).len() as int).take(e2.len() as int) =~= w.take(
                e2.len() as int,
            ));
        }
        if tail0 {
            assert(r1 =~= Seq::<bool>::empty());
            assert(r2 =~= Seq::<bool>::empty());
            assert(e1.len() == e2.len());
        }
        crate::codec::lemma_max_bits_field_le(fs, 0);
        lemma_field_det(fs[0].ty, vs1[0], vs2[0], tail0, w);
        let wr = w.skip(e1.len() as int);
        assert(r1 == wr.take(r1.len() as int)) by {
            assert forall|k: int| 0 <= k < r1.len() implies r1[k] == wr[k] by {
                assert((e1 + r1)[e1.len() + k] == w[e1.len() + k]);
            }
            assert(r1 =~= wr.take(r1.len() as int));
        }
        assert(r2 == wr.take(r2.len() as int)) by {
            assert forall|k: int| 0 <= k < r2.len() implies r2[k] == wr[k] by {
                assert((e2 + r2)[e2.len() + k] == w[e2.len() + k]);
            }
            assert(r2 =~= wr.take(r2.len() as int));
        }
        lemma_fields_det(fr, v1r, v2r, last, wr);
        assert forall|k: int| 0 <= k < fs.len() implies value_like(#[trigger] vs1[k], vs2[k]) by {
            if k > 0 {
                assert(value_like(v1r[k - 1], v2r[k - 1]));
            }
        }
        assert(fields_enc(fs, vs1, last) =~= fields_enc(fs, vs2, last));
    }
}

/// Round trip: a record value is pinned down by its wire image. Two
/// matching values of one record type with the same image agree in every
/// wire-visible part — they are the same value. Together with the
/// executable contracts this is the round-trip law for every way of
/// splitting the transfer into frame windows: `serialize` appends exactly
/// the image of `v` between the entry and exit cursor positions, whatever
/// the windows, so the concatenated windows hold `record_enc(rt, v,
/// last)`; `deserialize` guarantees that the image of the value it
/// finishes with equals exactly the bits it consumed; and by this law a
/// value with that image is `v` itself.
pub proof fn lemma_wire_image_injective(
    rt: RecordType,
    rv1: RecordValue,
    rv2: RecordValue,
    last: bool,
)
    requires
        record_type_valid(rt),
        record_matches(rt, rv1),
        record_matches(rt, rv2),
        record_enc(rt, rv1, last) == record_enc(rt, rv2, last),
    ensures
        record_like(rv1, rv2),
{
    let w = record_enc(rt, rv1, last);
    assert(record_enc(rt, rv1, last) =~= w.take(record_enc(rt, rv1, last).len() as int));
    assert(record_enc(rt, rv2, last) =~= w.take(record_enc(rt, rv2, last).len() as int));
    lemma_fields_det(rt.fields@, rv1.fields@, rv2.fields@, last, w);
}

} // verus!
