//! The laws of the codec pair: encode and decode are exact inverses.
//!
//! The central statement is [`lemma_round_trip`]: for every well-formed
//! layout and every valid, control-consistent value, encoding succeeds
//! and decoding the encoded bits — at any position of any stream that
//! embeds them — returns exactly the same value and consumes exactly
//! the bits written.

use vstd::prelude::*;
use vstd::arithmetic::power2::pow2;
use crate::bits::bits_to_nat;
use crate::bits::lemma_bits_to_nat_unique;
use crate::bits::nth_bit;
use crate::bits::scalar_bits;
use crate::bounds::lemma_slots_valid_suffix;
use vstd::arithmetic::mul::lemma_mul_inequality;
use vstd::arithmetic::mul::lemma_mul_is_distributive_add_other_way;
use crate::bits::lemma_bits_to_nat_bound;
use crate::error::ReadErrorCause;
use crate::schema::field_max_bits;
use crate::schema::fields_max_bits;
use crate::schema::list_control_width;
use crate::codec::spec_decode;
use crate::codec::spec_decode_elems;
use crate::codec::spec_decode_field;
use crate::codec::spec_decode_fields;
use crate::codec::spec_encode;
use crate::codec::spec_encode_elems;
use crate::codec::spec_encode_field;
use crate::codec::spec_encode_fields;
use crate::error::FromBytesError;
use crate::schema::Field;
use crate::schema::FieldKind;
use crate::schema::Schema;
use crate::schema::field_shape_ok;
use crate::schema::fields_ty_wf;
use crate::schema::lemma_fields_ty_wf_index;
use crate::value::Val;
use crate::value::as_bool;
use crate::value::as_uint;
use crate::value::elems_of;
use crate::value::elems_valid;
use crate::value::opt_inner;
use crate::value::presence;
use crate::value::slot_consistent;
use crate::value::slot_ok;
use crate::value::slot_valid;
use crate::value::slots_consistent;
use crate::value::slots_valid;
use crate::value::elems_consistent;

verus! {

/// When the whole field suffix encodes, so does each of its fields.
pub proof fn lemma_encode_fields_ok_at(fields: Seq<Field>, vals: Seq<Val>, i: int, j: int)
    requires
        spec_encode_fields(fields, vals, i) is Ok,
        0 <= i <= j < fields.len(),
    ensures
        spec_encode_field(fields, vals, j) is Ok,
    decreases j - i,
{
    if i < j {
        lemma_encode_fields_ok_at(fields, vals, i + 1, j);
    }
}

/// A scalar written as its low bits reads back as the same number.
proof fn lemma_scalar_round(x: u64, w: nat, bits: Seq<bool>, pos: int)
    requires
        (x as nat) < pow2(w),
        0 <= pos,
        pos + w <= bits.len(),
        bits.subrange(pos, pos + w) == scalar_bits(x as nat, w),
    ensures
        bits_to_nat(bits.subrange(pos, pos + w)) == x as nat,
{
    let sub = bits.subrange(pos, pos + w);
    assert forall|j: int| 0 <= j < sub.len() implies #[trigger] nth_bit(x as nat, j as nat)
        == sub[j] by {
        assert(sub[j] == scalar_bits(x as nat, w)[j]);
    }
    lemma_bits_to_nat_unique(sub, x as nat);
}

/// Decoding an encoding recovers the encoded value: the value level.
pub proof fn lemma_decode_encoded(s: Schema, v: Val, bits: Seq<bool>, pos: int)
    requires
        s.wf(),
        v.valid_for(s),
        spec_encode(s, v) is Ok,
        0 <= pos,
        pos + spec_encode(s, v)->Ok_0.len() <= bits.len(),
        bits.subrange(pos, pos + spec_encode(s, v)->Ok_0.len()) == spec_encode(s, v)->Ok_0,
    ensures
        spec_decode(s, bits, pos) == Ok::<(Val, int), FromBytesError>(
            (v, pos + spec_encode(s, v)->Ok_0.len()),
        ),
    decreases s, 0nat, 0nat,
{
    let bs = spec_encode(s, v)->Ok_0;
    match s {
        Schema::UInt { width } => {
            match v {
                Val::Uint(x) => {
                    lemma_scalar_round(x, width as nat, bits, pos);
                },
                _ => {},
            }
        },
        Schema::Boolean => {
            assert(bits[pos] == bits.subrange(pos, pos + 1)[0]);
        },
        Schema::Enum { name, width, tags } => {
            match v {
                Val::Enum(t) => {
                    let idx = choose|j: int| 0 <= j < tags@.len() && tags@[j] == t;
                    assert(tags@[idx] == t);
                    assert((tags@[idx] as nat) < pow2(width as nat));
                    lemma_scalar_round(t, width as nat, bits, pos);
                },
                _ => {},
            }
        },
        Schema::Wrapper { inner, .. } => {
            lemma_decode_encoded(*inner, v, bits, pos);
        },
        Schema::Struct { name, fields } => {
            match v {
                Val::Struct(vals) => {
                    assert(vals.subrange(0, 0) =~= Seq::<Val>::empty());
                    lemma_decode_encoded_fields(name, fields@, vals, 0, bits, pos);
                },
                _ => {},
            }
        },
    }
}

/// Decoding an encoding recovers the encoded value: a struct's fields
/// from `i` on, with the earlier slots already decoded unchanged.
pub proof fn lemma_decode_encoded_fields(
    sname: &'static str,
    fields: Seq<Field>,
    vals: Seq<Val>,
    i: int,
    bits: Seq<bool>,
    pos: int,
)
    requires
        forall|k: int| 0 <= k < fields.len() ==> #[trigger] field_shape_ok(fields, k),
        fields_ty_wf(fields, 0),
        vals.len() == fields.len(),
        slots_valid(fields, vals, 0),
        0 <= i <= fields.len(),
        spec_encode_fields(fields, vals, i) is Ok,
        0 <= pos,
        pos + spec_encode_fields(fields, vals, i)->Ok_0.len() <= bits.len(),
        bits.subrange(pos, pos + spec_encode_fields(fields, vals, i)->Ok_0.len())
            == spec_encode_fields(fields, vals, i)->Ok_0,
    ensures
        spec_decode_fields(sname, fields, bits, pos, i, vals.subrange(0, i)) == Ok::<
            (Seq<Val>, int),
            FromBytesError,
        >((vals, pos + spec_encode_fields(fields, vals, i)->Ok_0.len())),
    decreases fields, 3nat, fields.len() - i,
{
    let rest = spec_encode_fields(fields, vals, i)->Ok_0;
    if i == fields.len() {
        assert(vals.subrange(0, i) =~= vals);
        assert(rest.len() == 0);
    } else {
        let bs_i = spec_encode_field(fields, vals, i)->Ok_0;
        let rest2 = spec_encode_fields(fields, vals, i + 1)->Ok_0;
        assert(rest == bs_i + rest2);
        assert(bits.subrange(pos, pos + bs_i.len() as int) =~= bs_i) by {
            assert forall|q: int| 0 <= q < bs_i.len() implies bits.subrange(
                pos,
                pos + bs_i.len() as int,
            )[q] == bs_i[q] by {
                assert(bits[pos + q] == rest[q]);
                assert(rest[q] == bs_i[q]);
            }
        }
        assert(bits.subrange(pos + bs_i.len(), pos + rest.len() as int) =~= rest2) by {
            assert forall|q: int| 0 <= q < rest2.len() implies bits.subrange(
                pos + bs_i.len(),
                pos + rest.len() as int,
            )[q] == rest2[q] by {
                assert(bits[pos + bs_i.len() + q] == rest[bs_i.len() + q]);
                assert(rest[bs_i.len() + q] == rest2[q]);
            }
        }
        lemma_decode_encoded_field(sname, fields, vals, i, bits, pos);
        assert(vals.subrange(0, i).push(vals[i]) =~= vals.subrange(0, i + 1));
        lemma_decode_encoded_fields(sname, fields, vals, i + 1, bits, pos + bs_i.len());
    }
}

/// Decoding an encoding recovers the encoded value: one field.
pub proof fn lemma_decode_encoded_field(
    sname: &'static str,
    fields: Seq<Field>,
    vals: Seq<Val>,
    i: int,
    bits: Seq<bool>,
    pos: int,
)
    requires
        forall|k: int| 0 <= k < fields.len() ==> #[trigger] field_shape_ok(fields, k),
        fields_ty_wf(fields, 0),
        vals.len() == fields.len(),
        slots_valid(fields, vals, 0),
        0 <= i < fields.len(),
        spec_encode_fields(fields, vals, i) is Ok,
        0 <= pos,
        pos + spec_encode_field(fields, vals, i)->Ok_0.len() <= bits.len(),
        bits.subrange(pos, pos + spec_encode_field(fields, vals, i)->Ok_0.len())
            == spec_encode_field(fields, vals, i)->Ok_0,
    ensures
        spec_decode_field(sname, fields, bits, pos, i, vals.subrange(0, i)) == Ok::<
            (Val, int),
            FromBytesError,
        >((vals[i], pos + spec_encode_field(fields, vals, i)->Ok_0.len())),
    decreases fields, 2nat, 0nat,
{
    let bs_i = spec_encode_field(fields, vals, i)->Ok_0;
    let acc = vals.subrange(0, i);
    lemma_fields_ty_wf_index(fields, i);
    lemma_slots_valid_suffix(fields, vals, 0, i);
    assert(field_shape_ok(fields, i));
    match fields[i].kind {
        FieldKind::Scalar { ty } => {
            lemma_decode_encoded(ty, vals[i], bits, pos);
        },
        FieldKind::Padding { bits: n } => {
            assert(vals[i] is Unit);
        },
        FieldKind::OptionControl { controlled } => {
            lemma_encode_fields_ok_at(fields, vals, i, controlled as int);
            assert(spec_encode_field(fields, vals, controlled as int) is Ok);
            assert(presence(vals[controlled as int]) == as_bool(vals[i]));
            assert(bits[pos] == bs_i[0]);
            assert(vals[i] is Bool);
        },
        FieldKind::ListControl { width, controlled } => {
            lemma_encode_fields_ok_at(fields, vals, i, controlled as int);
            assert(spec_encode_field(fields, vals, controlled as int) is Ok);
            let stored = as_uint(vals[i]);
            let es = elems_of(vals[controlled as int]);
            assert(stored as nat == es.len());
            lemma_slots_valid_suffix(fields, vals, 0, i);
            assert((stored as nat) < pow2(width as nat));
            lemma_scalar_round(stored, width as nat, bits, pos);
            assert(vals[i] is Uint);
        },
        FieldKind::OptionField { control, ty } => {
            assert(presence(vals[i]) == as_bool(vals[control as int]));
            assert(acc[control as int] == vals[control as int]);
            if presence(vals[i]) {
                lemma_decode_encoded(ty, opt_inner(vals[i]), bits, pos);
                match vals[i] {
                    Val::Opt(o) => match o {
                        Some(b) => {
                            assert(opt_inner(vals[i]) == *b);
                            assert(Val::Opt(Some(Box::new(*b))) == vals[i]);
                        },
                        None => {},
                    },
                    _ => {},
                }
            } else {
                match vals[i] {
                    Val::Opt(o) => {
                        assert(o is None);
                    },
                    _ => {},
                }
            }
        },
        FieldKind::ListField { control, ty } => {
            let stored = as_uint(vals[control as int]);
            let es = elems_of(vals[i]);
            assert(stored as nat == es.len());
            assert(acc[control as int] == vals[control as int]);
            assert(es.subrange(0, 0) =~= Seq::<Val>::empty());
            lemma_decode_encoded_elems(ty, es, 0, bits, pos);
            assert(vals[i] is List);
        },
        FieldKind::Array { len, ty } => {
            let es = elems_of(vals[i]);
            assert(es.len() == len);
            assert(es.subrange(0, 0) =~= Seq::<Val>::empty());
            lemma_decode_encoded_elems(ty, es, 0, bits, pos);
            assert(vals[i] is List);
        },
    }
}

/// Decoding an encoding recovers the encoded value: the elements of a
/// list or array from `k` on.
pub proof fn lemma_decode_encoded_elems(
    ty: Schema,
    es: Seq<Val>,
    k: int,
    bits: Seq<bool>,
    pos: int,
)
    requires
        ty.wf(),
        elems_valid(ty, es, k),
        0 <= k <= es.len(),
        spec_encode_elems(ty, es, k) is Ok,
        0 <= pos,
        pos + spec_encode_elems(ty, es, k)->Ok_0.len() <= bits.len(),
        bits.subrange(pos, pos + spec_encode_elems(ty, es, k)->Ok_0.len())
            == spec_encode_elems(ty, es, k)->Ok_0,
    ensures
        spec_decode_elems(ty, bits, pos, es.len() - k, es.subrange(0, k)) == Ok::<
            (Seq<Val>, int),
            FromBytesError,
        >((es, pos + spec_encode_elems(ty, es, k)->Ok_0.len())),
    decreases ty, 1nat, es.len() - k,
{
    let rest = spec_encode_elems(ty, es, k)->Ok_0;
    if k == es.len() {
        assert(es.subrange(0, k) =~= es);
        assert(rest.len() == 0);
    } else {
        let bs_k = spec_encode(ty, es[k])->Ok_0;
        let rest2 = spec_encode_elems(ty, es, k + 1)->Ok_0;
        assert(rest == bs_k + rest2);
        assert(bits.subrange(pos, pos + bs_k.len() as int) =~= bs_k) by {
            assert forall|q: int| 0 <= q < bs_k.len() implies bits.subrange(
                pos,
                pos + bs_k.len() as int,
            )[q] == bs_k[q] by {
                assert(bits[pos + q] == rest[q]);
                assert(rest[q] == bs_k[q]);
            }
        }
        assert(bits.subrange(pos + bs_k.len(), pos + rest.len() as int) =~= rest2) by {
            assert forall|q: int| 0 <= q < rest2.len() implies bits.subrange(
                pos + bs_k.len(),
                pos + rest.len() as int,
            )[q] == rest2[q] by {
                assert(bits[pos + bs_k.len() + q] == rest[bs_k.len() + q]);
                assert(rest[bs_k.len() + q] == rest2[q]);
            }
        }
        lemma_decode_encoded(ty, es[k], bits, pos);
        assert(es.subrange(0, k).push(es[k]) =~= es.subrange(0, k + 1));
        lemma_decode_encoded_elems(ty, es, k + 1, bits, pos + bs_k.len());
    }
}

/// Round trip: for a well-formed layout and a valid, control-consistent
/// value, encoding succeeds, and decoding any stream that embeds the
/// encoded bits — with anything at all after them — recovers exactly
/// the same value, consuming exactly the bits written.
pub proof fn lemma_round_trip(s: Schema, v: Val, bits: Seq<bool>, pos: int)
    requires
        s.wf(),
        v.valid_for(s),
        v.consistent_with(s),
        0 <= pos,
        spec_encode(s, v) is Ok ==> pos + spec_encode(s, v)->Ok_0.len() <= bits.len()
            && bits.subrange(pos, pos + spec_encode(s, v)->Ok_0.len()) == spec_encode(
            s,
            v,
        )->Ok_0,
    ensures
        spec_encode(s, v) is Ok,
        spec_decode(s, bits, pos) == Ok::<(Val, int), FromBytesError>(
            (v, pos + spec_encode(s, v)->Ok_0.len()),
        ),
{
    lemma_encode_ok_iff_consistent(s, v);
    lemma_decode_encoded(s, v, bits, pos);
}

/// Control agreement from an earlier index covers a later one.
pub proof fn lemma_slots_consistent_suffix(
    fields: Seq<Field>,
    vals: Seq<Val>,
    i: int,
    j: int,
)
    requires
        slots_consistent(fields, vals, i),
        0 <= i <= j,
    ensures
        slots_consistent(fields, vals, j),
        j < fields.len() ==> slot_consistent(fields, vals, j),
    decreases j - i,
{
    if j >= fields.len() {
    } else if i < j {
        lemma_slots_consistent_suffix(fields, vals, i + 1, j);
    }
}

/// Control consistency: encoding a valid value succeeds exactly when
/// every control field agrees with the live state of the field it
/// governs; it never fails on a matching pair.
pub proof fn lemma_encode_ok_iff_consistent(s: Schema, v: Val)
    requires
        s.wf(),
        v.valid_for(s),
    ensures
        spec_encode(s, v) is Ok <==> v.consistent_with(s),
    decreases s, 0nat, 0nat,
{
    match s {
        Schema::Wrapper { inner, .. } => {
            lemma_encode_ok_iff_consistent(*inner, v);
        },
        Schema::Struct { fields, .. } => match v {
            Val::Struct(vals) => {
                lemma_encode_fields_ok_iff_consistent(fields@, vals, 0);
            },
            _ => {},
        },
        _ => {},
    }
}

/// Suffix form of [`lemma_encode_ok_iff_consistent`].
pub proof fn lemma_encode_fields_ok_iff_consistent(fields: Seq<Field>, vals: Seq<Val>, i: int)
    requires
        forall|k: int| 0 <= k < fields.len() ==> #[trigger] field_shape_ok(fields, k),
        fields_ty_wf(fields, 0),
        vals.len() == fields.len(),
        slots_valid(fields, vals, 0),
        0 <= i <= fields.len(),
    ensures
        spec_encode_fields(fields, vals, i) is Ok <==> slots_consistent(fields, vals, i),
    decreases fields, 3nat, fields.len() - i,
{
    if i < fields.len() {
        lemma_encode_fields_ok_iff_consistent(fields, vals, i + 1);
        lemma_fields_ty_wf_index(fields, i);
        lemma_slots_valid_suffix(fields, vals, 0, i);
        assert(field_shape_ok(fields, i));
        match fields[i].kind {
            FieldKind::Scalar { ty } => {
                lemma_encode_ok_iff_consistent(ty, vals[i]);
            },
            FieldKind::Padding { .. } => {},
            FieldKind::OptionControl { .. } => {},
            FieldKind::ListControl { width, controlled } => {
                if slots_consistent(fields, vals, i) {
                    lemma_slots_consistent_suffix(fields, vals, i, controlled as int);
                    lemma_slots_valid_suffix(fields, vals, 0, controlled as int);
                    assert(as_uint(vals[i]) as nat == elems_of(
                        vals[controlled as int],
                    ).len());
                    assert((as_uint(vals[i]) as nat) < pow2(width as nat));
                }
            },
            FieldKind::OptionField { control, ty } => {
                lemma_slots_valid_suffix(fields, vals, 0, control as int);
                if presence(vals[i]) {
                    lemma_encode_ok_iff_consistent(ty, opt_inner(vals[i]));
                }
            },
            FieldKind::ListField { control, ty } => {
                lemma_slots_valid_suffix(fields, vals, 0, control as int);
                lemma_encode_elems_ok_iff_consistent(ty, elems_of(vals[i]), 0);
            },
            FieldKind::Array { ty, .. } => {
                lemma_encode_elems_ok_iff_consistent(ty, elems_of(vals[i]), 0);
            },
        }
        let fo = spec_encode_field(fields, vals, i);
        assert(spec_encode_fields(fields, vals, i) is Ok <==> (fo is Ok
            && spec_encode_fields(fields, vals, i + 1) is Ok));
        assert(slots_consistent(fields, vals, i) <==> (slot_consistent(fields, vals, i)
            && slots_consistent(fields, vals, i + 1)));
        assert(fo is Ok ==> slot_consistent(fields, vals, i));
        assert((slot_consistent(fields, vals, i) && slots_consistent(fields, vals, i + 1))
            ==> fo is Ok);
    }
}

/// Element form of [`lemma_encode_ok_iff_consistent`].
pub proof fn lemma_encode_elems_ok_iff_consistent(ty: Schema, es: Seq<Val>, k: int)
    requires
        ty.wf(),
        elems_valid(ty, es, k),
        0 <= k <= es.len(),
    ensures
        spec_encode_elems(ty, es, k) is Ok <==> elems_consistent(ty, es, k),
    decreases ty, 2nat, es.len() - k,
{
    if k < es.len() {
        lemma_encode_ok_iff_consistent(ty, es[k]);
        lemma_encode_elems_ok_iff_consistent(ty, es, k + 1);
    }
}

/// Whether a decode failure's innermost cause is the end of the input.
pub open spec fn eob_flavored(e: FromBytesError) -> bool {
    match e {
        FromBytesError::SkipPadding { cause, .. } => cause is NotEnoughInput,
        FromBytesError::ReadField { cause, .. } => cause is NotEnoughInput,
        FromBytesError::ReadOption { cause, .. } => cause is NotEnoughInput,
        FromBytesError::ReadOptionController { cause, .. } => cause is NotEnoughInput,
        FromBytesError::ReadListLength { cause, .. } => cause is NotEnoughInput,
        FromBytesError::ReadList { cause, .. } => cause is NotEnoughInput,
        FromBytesError::ReadArray { cause, .. } => cause is NotEnoughInput,
        FromBytesError::ReadEnum { cause, .. } => cause is NotEnoughInput,
        FromBytesError::ReadPrimitive(cause) => cause is NotEnoughInput,
    }
}

/// The control-agreement facts a freshly decoded slot carries, stated
/// against the already-decoded earlier slots.
pub open spec fn slot_paired(fields: Seq<Field>, i: int, acc: Seq<Val>, v: Val) -> bool {
    if i < 0 || i >= fields.len() {
        true
    } else {
        match fields[i].kind {
            FieldKind::Scalar { ty } => v.consistent_with(ty),
            FieldKind::OptionField { control, ty } => {
                &&& presence(v) == (0 <= control < acc.len() && as_bool(acc[control as int]))
                &&& (presence(v) ==> opt_inner(v).consistent_with(ty))
            },
            FieldKind::ListField { control, ty } => {
                &&& elems_of(v).len() == (if 0 <= control < acc.len() {
                    as_uint(acc[control as int]) as nat
                } else {
                    0
                })
                &&& elems_consistent(ty, elems_of(v), 0)
            },
            FieldKind::Array { ty, .. } => elems_consistent(ty, elems_of(v), 0),
            _ => true,
        }
    }
}

/// What decoding guarantees: a decoded value is valid and control
/// consistent — decode never reconstructs a controlled field against
/// the control it just read — the cursor only moves forward, never
/// past the end, and never by more than the layout's maximum; and with
/// at least the layout's maximum bit count available, a failure is
/// never for want of input.
pub proof fn lemma_decode_props(s: Schema, bits: Seq<bool>, pos: int)
    requires
        s.wf(),
        0 <= pos <= bits.len(),
    ensures
        match spec_decode(s, bits, pos) {
            Ok((v, p)) => {
                &&& v.valid_for(s)
                &&& v.consistent_with(s)
                &&& pos <= p <= bits.len()
                &&& p - pos <= s.spec_max_bits()
            },
            Err(e) => pos + s.spec_max_bits() <= bits.len() ==> !eob_flavored(e),
        },
    decreases s, 0nat, 0nat,
{
    match s {
        Schema::UInt { width } => {
            if pos + width <= bits.len() {
                lemma_bits_to_nat_bound(bits.subrange(pos, pos + width));
            }
        },
        Schema::Boolean => {},
        Schema::Enum { .. } => {},
        Schema::Wrapper { inner, .. } => {
            lemma_decode_props(*inner, bits, pos);
        },
        Schema::Struct { name, fields } => {
            lemma_slots_valid_empty(fields@, 0);
            lemma_decode_fields_props(name, fields@, bits, pos, 0, Seq::empty());
        },
    }
}

/// An empty slot sequence is vacuously valid at every index.
proof fn lemma_slots_valid_empty(fields: Seq<Field>, i: int)
    requires
        0 <= i,
    ensures
        slots_valid(fields, Seq::empty(), i),
    decreases fields.len() - i + 1,
{
    assert(Seq::<Val>::empty().len() == 0);
    if i < fields.len() {
        lemma_slots_valid_empty(fields, i + 1);
        assert(slot_valid(fields, Seq::empty(), i));
    }
}

/// Appending a valid slot keeps every slot valid.
proof fn lemma_slots_valid_push(fields: Seq<Field>, acc: Seq<Val>, v: Val, j: int)
    requires
        slots_valid(fields, acc, j),
        slot_ok(fields, acc.len() as int, v),
        0 <= j,
    ensures
        slots_valid(fields, acc.push(v), j),
    decreases fields.len() - j + 1,
{
    if j < fields.len() {
        lemma_slots_valid_push(fields, acc, v, j + 1);
        assert(slot_valid(fields, acc.push(v), j)) by {
            if j < acc.len() {
                assert(slot_valid(fields, acc, j));
                assert(acc.push(v)[j] == acc[j]);
            } else if j == acc.len() {
                assert(acc.push(v)[j] == v);
            }
        }
    }
}

/// Field-suffix form of [`lemma_decode_props`]: the already-decoded
/// slots `acc` are kept unchanged, and every freshly decoded slot is
/// valid and agrees with the control slot it names.
pub proof fn lemma_decode_fields_props(
    sname: &'static str,
    fields: Seq<Field>,
    bits: Seq<bool>,
    pos: int,
    i: int,
    acc: Seq<Val>,
)
    requires
        forall|k: int| 0 <= k < fields.len() ==> #[trigger] field_shape_ok(fields, k),
        fields_ty_wf(fields, 0),
        0 <= i <= fields.len(),
        acc.len() == i,
        slots_valid(fields, acc, 0),
        0 <= pos <= bits.len(),
    ensures
        match spec_decode_fields(sname, fields, bits, pos, i, acc) {
            Ok((vals, p)) => {
                &&& vals.len() == fields.len()
                &&& vals.subrange(0, i) == acc
                &&& slots_valid(fields, vals, 0)
                &&& slots_consistent(fields, vals, i)
                &&& pos <= p <= bits.len()
                &&& p - pos <= fields_max_bits(fields, i)
            },
            Err(e) => pos + fields_max_bits(fields, i) <= bits.len() ==> !eob_flavored(e),
        },
    decreases fields, 4nat, fields.len() - i,
{
    if i == fields.len() {
        assert(acc.subrange(0, i) =~= acc);
    } else {
        lemma_fields_ty_wf_index(fields, i);
        assert(field_shape_ok(fields, i));
        assert(fields_max_bits(fields, i) == field_max_bits(fields, i) + fields_max_bits(
            fields,
            i + 1,
        ));
        lemma_decode_field_props(sname, fields, bits, pos, i, acc);
        match spec_decode_field(sname, fields, bits, pos, i, acc) {
            Ok((v, p)) => {
                let acc2 = acc.push(v);
                lemma_slots_valid_push(fields, acc, v, 0);
                lemma_decode_fields_props(sname, fields, bits, p, i + 1, acc2);
                match spec_decode_fields(sname, fields, bits, p, i + 1, acc2) {
                    Ok((vals, p2)) => {
                        assert(vals.subrange(0, i) =~= acc) by {
                            assert(vals.subrange(0, i + 1) == acc2);
                            assert forall|q: int| 0 <= q < i implies vals.subrange(0, i)[q]
                                == acc[q] by {
                                assert(vals.subrange(0, i + 1)[q] == acc2[q]);
                            }
                        }
                        assert(slot_consistent(fields, vals, i)) by {
                            assert(vals[i] == acc2[i]) by {
                                assert(vals.subrange(0, i + 1)[i] == acc2[i]);
                            }
                            assert(vals[i] == v);
                            assert(slot_paired(fields, i, acc, v));
                            match fields[i].kind {
                                FieldKind::OptionField { control, ty } => {
                                    assert(vals[control as int] == acc[control as int]) by {
                                        assert(vals.subrange(0, i)[control as int]
                                            == acc[control as int]);
                                    }
                                },
                                FieldKind::ListField { control, ty } => {
                                    assert(vals[control as int] == acc[control as int]) by {
                                        assert(vals.subrange(0, i)[control as int]
                                            == acc[control as int]);
                                    }
                                },
                                _ => {},
                            }
                        }
                    },
                    Err(_) => {},
                }
            },
            Err(_) => {},
        }
    }
}

/// Per-field form of [`lemma_decode_props`].
pub proof fn lemma_decode_field_props(
    sname: &'static str,
    fields: Seq<Field>,
    bits: Seq<bool>,
    pos: int,
    i: int,
    acc: Seq<Val>,
)
    requires
        forall|k: int| 0 <= k < fields.len() ==> #[trigger] field_shape_ok(fields, k),
        fields_ty_wf(fields, 0),
        0 <= i < fields.len(),
        acc.len() == i,
        slots_valid(fields, acc, 0),
        0 <= pos <= bits.len(),
    ensures
        match spec_decode_field(sname, fields, bits, pos, i, acc) {
            Ok((v, p)) => {
                &&& slot_ok(fields, i, v)
                &&& slot_paired(fields, i, acc, v)
                &&& pos <= p <= bits.len()
                &&& p - pos <= field_max_bits(fields, i)
            },
            Err(e) => pos + field_max_bits(fields, i) <= bits.len() ==> !eob_flavored(e),
        },
    decreases fields, 2nat, 0nat,
{
    lemma_fields_ty_wf_index(fields, i);
    assert(field_shape_ok(fields, i));
    match fields[i].kind {
        FieldKind::Scalar { ty } => {
            lemma_decode_props(ty, bits, pos);
        },
        FieldKind::Padding { .. } => {},
        FieldKind::OptionControl { .. } => {},
        FieldKind::ListControl { width, .. } => {
            if pos + width <= bits.len() {
                lemma_bits_to_nat_bound(bits.subrange(pos, pos + width));
            }
        },
        FieldKind::OptionField { control, ty } => {
            if 0 <= control < acc.len() && as_bool(acc[control as int]) {
                lemma_decode_props(ty, bits, pos);
            }
        },
        FieldKind::ListField { control, ty } => {
            let count = if 0 <= control < acc.len() {
                as_uint(acc[control as int])
            } else {
                0
            };
            let w = list_control_width(fields, control as int);
            assert((count as nat) < pow2(w)) by {
                if 0 <= control < acc.len() {
                    lemma_slots_valid_suffix(fields, acc, 0, control as int);
                } else {
                    vstd::arithmetic::power2::lemma_pow2_pos(w);
                }
            }
            lemma_decode_elems_props(ty, bits, pos, count as int, Seq::empty());
            assert((count as int) * ty.spec_max_bits() <= ((pow2(w) - 1) as int)
                * ty.spec_max_bits()) by {
                lemma_mul_inequality(
                    count as int,
                    (pow2(w) - 1) as int,
                    ty.spec_max_bits() as int,
                );
            }
            assert(field_max_bits(fields, i) == ((pow2(w) - 1) as nat) * ty.spec_max_bits());
        },
        FieldKind::Array { len, ty } => {
            lemma_decode_elems_props(ty, bits, pos, len as int, Seq::empty());
            assert(field_max_bits(fields, i) == (len as nat) * ty.spec_max_bits());
        },
    }
}

/// Element form of [`lemma_decode_props`]: each freshly decoded
/// element is valid and consistent, and `remaining` elements consume
/// at most `remaining` times the element maximum.
pub proof fn lemma_decode_elems_props(
    ty: Schema,
    bits: Seq<bool>,
    pos: int,
    remaining: int,
    acc: Seq<Val>,
)
    requires
        ty.wf(),
        0 <= pos <= bits.len(),
    ensures
        match spec_decode_elems(ty, bits, pos, remaining, acc) {
            Ok((es, p)) => {
                &&& es.len() == acc.len() + (if remaining > 0 {
                    remaining
                } else {
                    0
                })
                &&& es.subrange(0, acc.len() as int) == acc
                &&& elems_valid(ty, es, acc.len() as int)
                &&& elems_consistent(ty, es, acc.len() as int)
                &&& pos <= p <= bits.len()
                &&& remaining > 0 ==> p - pos <= remaining * ty.spec_max_bits()
                &&& remaining <= 0 ==> p == pos
            },
            Err(e) => (remaining > 0 && pos + remaining * ty.spec_max_bits() <= bits.len())
                ==> !eob_flavored(e),
        },
    decreases ty, 2nat, remaining,
{
    if remaining <= 0 {
        assert(acc.subrange(0, acc.len() as int) =~= acc);
        lemma_elems_valid_any(ty, acc);
    } else {
        lemma_decode_props(ty, bits, pos);
        assert(remaining * ty.spec_max_bits() == (remaining - 1) * ty.spec_max_bits()
            + ty.spec_max_bits()) by {
            lemma_mul_is_distributive_add_other_way(
                ty.spec_max_bits() as int,
                remaining - 1,
                1,
            );
        }
        match spec_decode(ty, bits, pos) {
            Ok((v, p)) => {
                let acc2 = acc.push(v);
                lemma_decode_elems_props(ty, bits, p, remaining - 1, acc2);
                match spec_decode_elems(ty, bits, p, remaining - 1, acc2) {
                    Ok((es, p2)) => {
                        assert(es.subrange(0, acc.len() as int) =~= acc) by {
                            assert(es.subrange(0, acc.len() as int + 1) == acc2);
                            assert forall|q: int| 0 <= q < acc.len() implies es.subrange(
                                0,
                                acc.len() as int,
                            )[q] == acc[q] by {
                                assert(es.subrange(0, acc.len() as int + 1)[q] == acc2[q]);
                            }
                        }
                        assert(es[acc.len() as int] == v) by {
                            assert(es.subrange(0, acc.len() as int + 1)[acc.len() as int]
                                == acc2[acc.len() as int]);
                        }
                    },
                    Err(_) => {},
                }
            },
            Err(_) => {},
        }
    }
}

/// Validity and consistency past the end of a sequence are vacuous.
proof fn lemma_elems_valid_any(ty: Schema, es: Seq<Val>)
    ensures
        elems_valid(ty, es, es.len() as int),
        elems_consistent(ty, es, es.len() as int),
{
}

/// Enum totality: with enough input, decoding an enum fails exactly
/// when the tag read from the wire is not a declared variant value —
/// and then with `InvalidDiscriminant` carrying that tag — and every
/// declared variant value round-trips exactly.
pub proof fn lemma_enum_totality(s: Schema, bits: Seq<bool>, pos: int)
    requires
        s.wf(),
        s is Enum,
        0 <= pos <= bits.len(),
    ensures
        match s {
            Schema::Enum { name, width, tags } => {
                &&& (pos + width <= bits.len() ==> {
                    let t = bits_to_nat(bits.subrange(pos, pos + width)) as u64;
                    &&& (spec_decode(s, bits, pos) is Err <==> !tags@.contains(t))
                    &&& (!tags@.contains(t) ==> spec_decode(s, bits, pos) == Err::<
                        (Val, int),
                        FromBytesError,
                    >(
                        FromBytesError::ReadEnum {
                            enum_name: name,
                            cause: ReadErrorCause::InvalidDiscriminant {
                                ty: name,
                                got: t as usize,
                            },
                        },
                    ))
                    &&& (tags@.contains(t) ==> spec_decode(s, bits, pos) == Ok::<
                        (Val, int),
                        FromBytesError,
                    >((Val::Enum(t), pos + width)))
                })
                &&& forall|t: u64|
                    tags@.contains(t) ==> (#[trigger] spec_encode(s, Val::Enum(t)) is Ok
                        && spec_decode(s, spec_encode(s, Val::Enum(t))->Ok_0, 0) == Ok::<
                        (Val, int),
                        FromBytesError,
                    >((Val::Enum(t), width as int)))
            },
            _ => true,
        },
{
    match s {
        Schema::Enum { name, width, tags } => {
            assert forall|t: u64| tags@.contains(t) implies (#[trigger] spec_encode(
                s,
                Val::Enum(t),
            ) is Ok && spec_decode(s, spec_encode(s, Val::Enum(t))->Ok_0, 0) == Ok::<
                (Val, int),
                FromBytesError,
            >((Val::Enum(t), width as int))) by {
                let bs = spec_encode(s, Val::Enum(t))->Ok_0;
                assert(Val::Enum(t).valid_for(s));
                assert(bs.len() == width);
                assert(bs.subrange(0, width as int) =~= bs);
                lemma_decode_encoded(s, Val::Enum(t), bs, 0);
            }
        },
        _ => {},
    }
}

/// Truncation: the encoder's output, padded to whole bytes with zeros
/// — or followed by anything else — decodes back to the same value
/// with exactly the written bit count consumed, so re-reading an
/// encoding reproduces its `bits_written`.
pub proof fn lemma_truncation(s: Schema, v: Val, pad: Seq<bool>)
    requires
        s.wf(),
        v.valid_for(s),
        v.consistent_with(s),
    ensures
        spec_encode(s, v) is Ok,
        spec_decode(s, spec_encode(s, v)->Ok_0 + pad, 0) == Ok::<(Val, int), FromBytesError>(
            (v, spec_encode(s, v)->Ok_0.len() as int),
        ),
{
    lemma_encode_ok_iff_consistent(s, v);
    let bs = spec_encode(s, v)->Ok_0;
    assert((bs + pad).subrange(0, bs.len() as int) =~= bs);
    lemma_round_trip(s, v, bs + pad, 0);
}

/// A decoded value always encodes again: decode reconstructs every
/// controlled field consistently with the control it just read, so
/// what comes out of decode is never rejected by encode.
pub proof fn lemma_reencode_succeeds(s: Schema, bits: Seq<bool>, pos: int)
    requires
        s.wf(),
        0 <= pos <= bits.len(),
    ensures
        spec_decode(s, bits, pos) matches Ok(p) ==> spec_encode(s, p.0) is Ok,
{
    lemma_decode_props(s, bits, pos);
    match spec_decode(s, bits, pos) {
        Ok((v, _)) => {
            lemma_encode_ok_iff_consistent(s, v);
        },
        Err(_) => {},
    }
}

/// Re-encoding a decoded value writes exactly the bits decode
/// consumed: the value level.
pub proof fn lemma_reencode_len(s: Schema, bits: Seq<bool>, pos: int)
    requires
        s.wf(),
        0 <= pos <= bits.len(),
    ensures
        match spec_decode(s, bits, pos) {
            Ok((v, p)) => spec_encode(s, v) is Ok && spec_encode(s, v)->Ok_0.len() == p - pos,
            Err(_) => true,
        },
    decreases s, 0nat, 0nat,
{
    lemma_reencode_succeeds(s, bits, pos);
    match s {
        Schema::Wrapper { inner, .. } => {
            lemma_reencode_succeeds(*inner, bits, pos);
            lemma_reencode_len(*inner, bits, pos);
        },
        Schema::Struct { name, fields } => {
            lemma_slots_valid_empty(fields@, 0);
            lemma_reencode_len_fields(name, fields@, bits, pos, 0, Seq::empty());
        },
        _ => {},
    }
}

/// Re-encoding a decoded value writes exactly the bits decode
/// consumed: a struct's fields from `i` on.
pub proof fn lemma_reencode_len_fields(
    sname: &'static str,
    fields: Seq<Field>,
    bits: Seq<bool>,
    pos: int,
    i: int,
    acc: Seq<Val>,
)
    requires
        forall|k: int| 0 <= k < fields.len() ==> #[trigger] field_shape_ok(fields, k),
        fields_ty_wf(fields, 0),
        0 <= i <= fields.len(),
        acc.len() == i,
        slots_valid(fields, acc, 0),
        0 <= pos <= bits.len(),
    ensures
        match spec_decode_fields(sname, fields, bits, pos, i, acc) {
            Ok((vals, p)) => spec_encode_fields(fields, vals, i) is Ok && spec_encode_fields(
                fields,
                vals,
                i,
            )->Ok_0.len() == p - pos,
            Err(_) => true,
        },
    decreases fields, 5nat, fields.len() - i,
{
    lemma_decode_fields_props(sname, fields, bits, pos, i, acc);
    match spec_decode_fields(sname, fields, bits, pos, i, acc) {
        Ok((vals, p)) => {
            lemma_encode_fields_ok_iff_consistent(fields, vals, i);
            assert(spec_encode_fields(fields, vals, i) is Ok);
            if i == fields.len() {
            } else {
                lemma_fields_ty_wf_index(fields, i);
                assert(field_shape_ok(fields, i));
                lemma_decode_field_props(sname, fields, bits, pos, i, acc);
                match spec_decode_field(sname, fields, bits, pos, i, acc) {
                    Ok((v, p1)) => {
                        let acc2 = acc.push(v);
                        lemma_slots_valid_push(fields, acc, v, 0);
                        lemma_decode_fields_props(sname, fields, bits, p1, i + 1, acc2);
                        lemma_reencode_len_fields(sname, fields, bits, p1, i + 1, acc2);
                        assert(vals[i] == v) by {
                            assert(vals.subrange(0, i + 1) == acc2);
                            assert(vals.subrange(0, i + 1)[i] == acc2[i]);
                        }
                        assert(vals.subrange(0, i) =~= acc) by {
                            assert forall|q: int| 0 <= q < i implies vals.subrange(0, i)[q]
                                == acc[q] by {
                                assert(vals.subrange(0, i + 1)[q] == acc2[q]);
                            }
                        }
                        lemma_encode_fields_ok_at(fields, vals, i, i);
                        lemma_reencode_len_field(sname, fields, bits, pos, i, acc, vals, v, p1);
                    },
                    Err(_) => {},
                }
            }
        },
        Err(_) => {},
    }
}

/// Re-encoding a decoded value writes exactly the bits decode
/// consumed: one field, given the decoded slot and final slots.
proof fn lemma_reencode_len_field(
    sname: &'static str,
    fields: Seq<Field>,
    bits: Seq<bool>,
    pos: int,
    i: int,
    acc: Seq<Val>,
    vals: Seq<Val>,
    v: Val,
    p1: int,
)
    requires
        forall|k: int| 0 <= k < fields.len() ==> #[trigger] field_shape_ok(fields, k),
        fields_ty_wf(fields, 0),
        0 <= i < fields.len(),
        acc.len() == i,
        slots_valid(fields, acc, 0),
        0 <= pos <= bits.len(),
        spec_decode_field(sname, fields, bits, pos, i, acc) == Ok::<(Val, int), FromBytesError>(
            (v, p1),
        ),
        vals.len() == fields.len(),
        vals.subrange(0, i) == acc,
        vals[i] == v,
        spec_encode_field(fields, vals, i) is Ok,
    ensures
        spec_encode_field(fields, vals, i)->Ok_0.len() == p1 - pos,
    decreases fields, 4nat, 0nat,
{
    lemma_fields_ty_wf_index(fields, i);
    assert(field_shape_ok(fields, i));
    match fields[i].kind {
        FieldKind::Scalar { ty } => {
            lemma_reencode_len(ty, bits, pos);
        },
        FieldKind::Padding { .. } => {},
        FieldKind::OptionControl { .. } => {},
        FieldKind::ListControl { .. } => {},
        FieldKind::OptionField { control, ty } => {
            assert(acc[control as int] == vals[control as int]) by {
                assert(vals.subrange(0, i)[control as int] == acc[control as int]);
            }
            if 0 <= control < acc.len() && as_bool(acc[control as int]) {
                lemma_reencode_len(ty, bits, pos);
            }
        },
        FieldKind::ListField { control, ty } => {
            let count = if 0 <= control < acc.len() {
                as_uint(acc[control as int])
            } else {
                0
            };
            lemma_reencode_len_elems(ty, bits, pos, count as int, Seq::empty());
        },
        FieldKind::Array { len, ty } => {
            lemma_reencode_len_elems(ty, bits, pos, len as int, Seq::empty());
        },
    }
}

/// Re-encoding decoded elements writes exactly the bits decode
/// consumed.
pub proof fn lemma_reencode_len_elems(
    ty: Schema,
    bits: Seq<bool>,
    pos: int,
    remaining: int,
    acc: Seq<Val>,
)
    requires
        ty.wf(),
        0 <= pos <= bits.len(),
    ensures
        match spec_decode_elems(ty, bits, pos, remaining, acc) {
            Ok((es, p)) => spec_encode_elems(ty, es, acc.len() as int) is Ok
                && spec_encode_elems(ty, es, acc.len() as int)->Ok_0.len() == p - pos,
            Err(_) => true,
        },
    decreases ty, 4nat, remaining,
{
    lemma_decode_elems_props(ty, bits, pos, remaining, acc);
    match spec_decode_elems(ty, bits, pos, remaining, acc) {
        Ok((es, p)) => {
            lemma_encode_elems_ok_iff_consistent(ty, es, acc.len() as int);
            if remaining <= 0 {
            } else {
                lemma_decode_props(ty, bits, pos);
                match spec_decode(ty, bits, pos) {
                    Ok((v, p1)) => {
                        lemma_reencode_len(ty, bits, pos);
                        let acc2 = acc.push(v);
                        lemma_decode_elems_props(ty, bits, p1, remaining - 1, acc2);
                        lemma_reencode_len_elems(ty, bits, p1, remaining - 1, acc2);
                        assert(es[acc.len() as int] == v) by {
                            assert(es.subrange(0, acc.len() as int + 1) == acc2);
                            assert(es.subrange(0, acc.len() as int + 1)[acc.len() as int]
                                == acc2[acc.len() as int]);
                        }
                    },
                    Err(_) => {},
                }
            }
        },
        Err(_) => {},
    }
}

} // verus!
