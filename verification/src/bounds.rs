//! Static bit bounds: every successful encoding of a valid value lies
//! between the layout's minimum and maximum bit counts.

use vstd::prelude::*;
use vstd::arithmetic::power2::pow2;
use vstd::arithmetic::mul::lemma_mul_inequality;
use vstd::arithmetic::mul::lemma_mul_is_commutative;
use vstd::arithmetic::mul::lemma_mul_is_distributive_add_other_way;
use crate::value::as_bool;
use crate::value::as_uint;
use crate::value::elems_of;
use crate::value::presence;
use crate::value::opt_inner;
use crate::codec::spec_encode;
use crate::codec::spec_encode_elems;
use crate::codec::spec_encode_field;
use crate::codec::spec_encode_fields;
use crate::schema::Field;
use crate::schema::FieldKind;
use crate::schema::Schema;
use crate::schema::field_max_bits;
use crate::schema::field_min_bits;
use crate::schema::field_shape_ok;
use crate::schema::fields_max_bits;
use crate::schema::fields_min_bits;
use crate::schema::fields_ty_wf;
use crate::schema::lemma_fields_ty_wf_index;
use crate::schema::list_control_width;
use crate::value::Val;
use crate::value::elems_valid;
use crate::value::slot_valid;
use crate::value::slots_valid;

verus! {

/// Validity of every slot from an earlier index covers a later one.
pub proof fn lemma_slots_valid_suffix(fields: Seq<Field>, vals: Seq<Val>, i: int, j: int)
    requires
        slots_valid(fields, vals, i),
        0 <= i <= j,
    ensures
        slots_valid(fields, vals, j),
        j < fields.len() ==> slot_valid(fields, vals, j),
    decreases j - i,
{
    if j >= fields.len() {
    } else if i < j {
        lemma_slots_valid_suffix(fields, vals, i + 1, j);
    }
}

/// Validity of every element from an earlier index covers a later one.
pub proof fn lemma_elems_valid_suffix(ty: Schema, es: Seq<Val>, k: int, j: int)
    requires
        elems_valid(ty, es, k),
        0 <= k <= j,
    ensures
        elems_valid(ty, es, j),
        j < es.len() ==> es[j].valid_for(ty),
    decreases j - k,
{
    if j >= es.len() {
    } else if k < j {
        lemma_elems_valid_suffix(ty, es, k + 1, j);
    }
}

/// A layout's minimum bit count never exceeds its maximum.
pub proof fn lemma_min_le_max(s: Schema)
    requires
        s.wf(),
    ensures
        s.spec_min_bits() <= s.spec_max_bits(),
    decreases s, 0nat, 0nat,
{
    match s {
        Schema::Wrapper { inner, .. } => lemma_min_le_max(*inner),
        Schema::Struct { fields, .. } => {
            lemma_fields_min_le_max(fields@, 0);
        },
        _ => {},
    }
}

/// Field-by-field form of [`lemma_min_le_max`].
pub proof fn lemma_fields_min_le_max(fields: Seq<Field>, i: int)
    requires
        forall|k: int| 0 <= k < fields.len() ==> #[trigger] field_shape_ok(fields, k),
        fields_ty_wf(fields, 0),
    ensures
        fields_min_bits(fields, i) <= fields_max_bits(fields, i),
    decreases fields, 2nat, fields.len() - i,
{
    if 0 <= i < fields.len() {
        lemma_field_min_le_max(fields, i);
        lemma_fields_min_le_max(fields, i + 1);
    }
}

/// Per-field form of [`lemma_min_le_max`].
pub proof fn lemma_field_min_le_max(fields: Seq<Field>, i: int)
    requires
        forall|k: int| 0 <= k < fields.len() ==> #[trigger] field_shape_ok(fields, k),
        fields_ty_wf(fields, 0),
        0 <= i < fields.len(),
    ensures
        field_min_bits(fields, i) <= field_max_bits(fields, i),
    decreases fields, 1nat, 0nat,
{
    lemma_fields_ty_wf_index(fields, i);
    match fields[i].kind {
        FieldKind::Scalar { ty } => lemma_min_le_max(ty),
        FieldKind::Array { len, ty } => {
            lemma_min_le_max(ty);
            lemma_mul_inequality(
                ty.spec_min_bits() as int,
                ty.spec_max_bits() as int,
                len as int,
            );
            lemma_mul_is_commutative(len as int, ty.spec_min_bits() as int);
            lemma_mul_is_commutative(len as int, ty.spec_max_bits() as int);
        },
        _ => {},
    }
}

/// A successful encoding of a valid value has between the layout's
/// minimum and maximum bit counts.
pub proof fn lemma_encode_len(s: Schema, v: Val)
    requires
        s.wf(),
        v.valid_for(s),
    ensures
        match spec_encode(s, v) {
            Ok(bs) => s.spec_min_bits() <= bs.len() <= s.spec_max_bits(),
            Err(_) => true,
        },
    decreases s, 0nat, 0nat,
{
    match s {
        Schema::Wrapper { inner, .. } => lemma_encode_len(*inner, v),
        Schema::Struct { fields, .. } => match v {
            Val::Struct(vals) => {
                lemma_encode_fields_len(fields@, vals, 0);
            },
            _ => {},
        },
        _ => {},
    }
}

/// Suffix form of [`lemma_encode_len`] for a struct's fields.
pub proof fn lemma_encode_fields_len(fields: Seq<Field>, vals: Seq<Val>, i: int)
    requires
        forall|k: int| 0 <= k < fields.len() ==> #[trigger] field_shape_ok(fields, k),
        fields_ty_wf(fields, 0),
        vals.len() == fields.len(),
        slots_valid(fields, vals, 0),
    ensures
        match spec_encode_fields(fields, vals, i) {
            Ok(rest) => fields_min_bits(fields, i) <= rest.len() <= fields_max_bits(fields, i),
            Err(_) => true,
        },
    decreases fields, 2nat, fields.len() - i,
{
    if 0 <= i < fields.len() {
        lemma_encode_field_len(fields, vals, i);
        lemma_encode_fields_len(fields, vals, i + 1);
    }
}

/// Per-field form of [`lemma_encode_len`].
pub proof fn lemma_encode_field_len(fields: Seq<Field>, vals: Seq<Val>, i: int)
    requires
        forall|k: int| 0 <= k < fields.len() ==> #[trigger] field_shape_ok(fields, k),
        fields_ty_wf(fields, 0),
        vals.len() == fields.len(),
        slots_valid(fields, vals, 0),
        0 <= i < fields.len(),
    ensures
        match spec_encode_field(fields, vals, i) {
            Ok(bs) => field_min_bits(fields, i) <= bs.len() <= field_max_bits(fields, i),
            Err(_) => true,
        },
    decreases fields, 1nat, 0nat,
{
    lemma_fields_ty_wf_index(fields, i);
    lemma_slots_valid_suffix(fields, vals, 0, i);
    assert(field_shape_ok(fields, i));
    match fields[i].kind {
        FieldKind::Scalar { ty } => {
            lemma_encode_len(ty, vals[i]);
        },
        FieldKind::OptionField { control, ty } => {
            if presence(vals[i]) && presence(vals[i]) == as_bool(vals[control as int]) {
                lemma_encode_len(ty, opt_inner(vals[i]));
            }
        },
        FieldKind::ListField { control, ty } => {
            let stored = as_uint(vals[control as int]);
            let es = elems_of(vals[i]);
            if stored as nat == es.len() {
                lemma_encode_elems_len(ty, es, 0);
                lemma_slots_valid_suffix(fields, vals, 0, control as int);
                let w = list_control_width(fields, control as int);
                assert((stored as nat) < pow2(w));
                match spec_encode_elems(ty, es, 0) {
                    Ok(rest) => {
                        assert(es.len() <= pow2(w) - 1);
                        lemma_mul_inequality(
                            es.len() as int,
                            pow2(w) as int - 1,
                            ty.spec_max_bits() as int,
                        );
                    },
                    Err(_) => {},
                }
            }
        },
        FieldKind::Array { len, ty } => {
            let es = elems_of(vals[i]);
            lemma_encode_elems_len(ty, es, 0);
        },
        _ => {},
    }
}

/// A successful encoding of the elements from `k` on has between
/// `(n - k)` times the element minimum and `(n - k)` times the element
/// maximum bits.
pub proof fn lemma_encode_elems_len(ty: Schema, es: Seq<Val>, k: int)
    requires
        ty.wf(),
        elems_valid(ty, es, k),
    ensures
        match spec_encode_elems(ty, es, k) {
            Ok(rest) => {
                &&& (if 0 <= k <= es.len() {
                    (es.len() - k) * ty.spec_min_bits() <= rest.len() <= (es.len() - k)
                        * ty.spec_max_bits()
                } else {
                    rest.len() == 0
                })
            },
            Err(_) => true,
        },
    decreases ty, 1nat, es.len() - k,
{
    if k < 0 || k >= es.len() {
    } else {
        lemma_encode_len(ty, es[k]);
        lemma_encode_elems_len(ty, es, k + 1);
        match spec_encode(ty, es[k]) {
            Ok(bs) => match spec_encode_elems(ty, es, k + 1) {
                Ok(rest) => {
                    let n = es.len() as int;
                    let mn = ty.spec_min_bits() as int;
                    let mx = ty.spec_max_bits() as int;
                    assert((n - k) * mn == (n - k - 1) * mn + mn) by {
                        lemma_mul_is_distributive_add_other_way(mn, n - k - 1, 1);
                    }
                    assert((n - k) * mx == (n - k - 1) * mx + mx) by {
                        lemma_mul_is_distributive_add_other_way(mx, n - k - 1, 1);
                    }
                },
                Err(_) => {},
            },
            Err(_) => {},
        }
    }
}

} // verus!
