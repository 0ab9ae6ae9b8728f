//! The schema compiler's meaning: what encode and decode produce.
//!
//! [`spec_encode`] maps a layout and a value to the exact bit string the
//! encoder emits, or to the exact error it reports; [`spec_decode`] maps
//! a layout, a bit stream and a cursor to the exact value and new cursor
//! the decoder produces, or to the exact error. The executable
//! procedures elsewhere in this crate are proved equal to these
//! functions, and the laws about round trips, bit bounds and failure
//! conditions are proved of them.

use vstd::prelude::*;
use vstd::arithmetic::power2::pow2;
use crate::bits::bits_to_nat;
use crate::bits::scalar_bits;
use crate::bits::UnexpectedEndOfBits;
use crate::error::FromBytesError;
use crate::error::ReadErrorCause;
use crate::error::ToBytesError;
use crate::error::spec_read_array;
use crate::error::spec_read_field;
use crate::error::spec_read_list;
use crate::error::spec_read_option;
use crate::schema::Field;
use crate::schema::FieldKind;
use crate::schema::Schema;
use crate::value::Val;
use crate::value::as_bool;
use crate::value::as_uint;
use crate::value::elems_of;
use crate::value::opt_inner;
use crate::value::presence;

verus! {

/// The label primitive reads carry in `NotEnoughInput` for integers.
pub open spec fn uint_label() -> &'static str {
    "uint"
}

/// The label primitive reads carry in `NotEnoughInput` for booleans.
pub open spec fn bool_label() -> &'static str {
    "bool"
}

/// The label primitive reads carry in `NotEnoughInput` for padding.
pub open spec fn padding_label() -> &'static str {
    "-"
}

/// The end-of-buffer description for reading `n` bits at `pos`.
pub open spec fn spec_eob(n: nat, bits: Seq<bool>, pos: int) -> UnexpectedEndOfBits {
    UnexpectedEndOfBits {
        requested_bits: n as usize,
        available_bits: (bits.len() - pos) as usize,
    }
}

/// The bits a value of layout `s` encodes to, or the error encode
/// reports. The buffer-size failure is no part of this function: a
/// buffer sized from the layout's maximum bit count never sees one.
pub open spec fn spec_encode(s: Schema, v: Val) -> Result<Seq<bool>, ToBytesError>
    decreases s, 0nat, 0nat,
{
    match s {
        Schema::UInt { width } => Ok(scalar_bits(as_uint(v) as nat, width as nat)),
        Schema::Boolean => Ok(seq![as_bool(v)]),
        Schema::Enum { width, .. } => Ok(
            scalar_bits(
                (match v {
                    Val::Enum(t) => t,
                    _ => 0,
                }) as nat,
                width as nat,
            ),
        ),
        Schema::Wrapper { inner, .. } => spec_encode(*inner, v),
        Schema::Struct { fields, .. } => match v {
            Val::Struct(vals) => spec_encode_fields(fields@, vals, 0),
            _ => Ok(Seq::empty()),
        },
    }
}

/// The bits field `i` of a struct encodes to, or the error it reports.
/// Control fields emit the value derived from the field they govern;
/// the governed field then validates its stored control against its
/// live state and fails with `ValidationError` on disagreement. A list
/// length that cannot fit its control's width fails with `ListTooLong`.
pub open spec fn spec_encode_field(fields: Seq<Field>, vals: Seq<Val>, i: int) -> Result<
    Seq<bool>,
    ToBytesError,
>
    decreases fields, 1nat, 0nat,
{
    if i < 0 || i >= fields.len() || vals.len() != fields.len() {
        Ok(Seq::empty())
    } else {
        match fields[i].kind {
            FieldKind::Scalar { ty } => spec_encode(ty, vals[i]),
            FieldKind::Padding { bits } => Ok(Seq::new(bits as nat, |j: int| false)),
            FieldKind::OptionControl { controlled } => Ok(
                seq![presence(vals[controlled as int])],
            ),
            FieldKind::ListControl { width, controlled } => {
                let n = elems_of(vals[controlled as int]).len();
                if n >= pow2(width as nat) {
                    Err(ToBytesError::ListTooLong {
                        max: (pow2(width as nat) - 1) as usize,
                        got: n as usize,
                    })
                } else {
                    Ok(scalar_bits(n, width as nat))
                }
            },
            FieldKind::OptionField { control, ty } => {
                let stored = as_bool(vals[control as int]);
                let live = presence(vals[i]);
                if live != stored {
                    Err(ToBytesError::ValidationError {
                        field_name: fields[i].name,
                        control_value: if stored {
                            1
                        } else {
                            0
                        },
                        live_value: if live {
                            1
                        } else {
                            0
                        },
                    })
                } else if live {
                    spec_encode(ty, opt_inner(vals[i]))
                } else {
                    Ok(Seq::empty())
                }
            },
            FieldKind::ListField { control, ty } => {
                let stored = as_uint(vals[control as int]);
                let es = elems_of(vals[i]);
                if stored as nat != es.len() {
                    Err(ToBytesError::ValidationError {
                        field_name: fields[i].name,
                        control_value: stored,
                        live_value: es.len() as u64,
                    })
                } else {
                    spec_encode_elems(ty, es, 0)
                }
            },
            FieldKind::Array { ty, .. } => spec_encode_elems(ty, elems_of(vals[i]), 0),
        }
    }
}

/// The concatenated encodings of the fields from `i` on, stopping at
/// the first failure.
pub open spec fn spec_encode_fields(fields: Seq<Field>, vals: Seq<Val>, i: int) -> Result<
    Seq<bool>,
    ToBytesError,
>
    decreases fields, 2nat, fields.len() - i,
{
    if i < 0 || i >= fields.len() {
        Ok(Seq::empty())
    } else {
        match spec_encode_field(fields, vals, i) {
            Ok(bs) => match spec_encode_fields(fields, vals, i + 1) {
                Ok(rest) => Ok(bs + rest),
                Err(e) => Err(e),
            },
            Err(e) => Err(e),
        }
    }
}

/// The concatenated encodings of the elements from `k` on, stopping at
/// the first failure.
pub open spec fn spec_encode_elems(ty: Schema, es: Seq<Val>, k: int) -> Result<
    Seq<bool>,
    ToBytesError,
>
    decreases ty, 1nat, es.len() - k,
{
    if k < 0 || k >= es.len() {
        Ok(Seq::empty())
    } else {
        match spec_encode(ty, es[k]) {
            Ok(bs) => match spec_encode_elems(ty, es, k + 1) {
                Ok(rest) => Ok(bs + rest),
                Err(e) => Err(e),
            },
            Err(e) => Err(e),
        }
    }
}

/// The value a layout decodes from `bits` at cursor `pos`, with the new
/// cursor, or the exact error decode reports.
pub open spec fn spec_decode(s: Schema, bits: Seq<bool>, pos: int) -> Result<
    (Val, int),
    FromBytesError,
>
    decreases s, 0nat, 0nat,
{
    match s {
        Schema::UInt { width } => {
            if pos + width > bits.len() {
                Err(
                    FromBytesError::ReadPrimitive(
                        ReadErrorCause::NotEnoughInput {
                            ty: uint_label(),
                            cause: spec_eob(width as nat, bits, pos),
                        },
                    ),
                )
            } else {
                Ok(
                    (
                        Val::Uint(bits_to_nat(bits.subrange(pos, pos + width)) as u64),
                        pos + width,
                    ),
                )
            }
        },
        Schema::Boolean => {
            if pos + 1 > bits.len() {
                Err(
                    FromBytesError::ReadPrimitive(
                        ReadErrorCause::NotEnoughInput {
                            ty: bool_label(),
                            cause: spec_eob(1, bits, pos),
                        },
                    ),
                )
            } else {
                Ok((Val::Bool(bits[pos]), pos + 1))
            }
        },
        Schema::Enum { name, width, tags } => {
            if pos + width > bits.len() {
                Err(
                    FromBytesError::ReadPrimitive(
                        ReadErrorCause::NotEnoughInput {
                            ty: name,
                            cause: spec_eob(width as nat, bits, pos),
                        },
                    ),
                )
            } else {
                let t = bits_to_nat(bits.subrange(pos, pos + width)) as u64;
                if tags@.contains(t) {
                    Ok((Val::Enum(t), pos + width))
                } else {
                    Err(
                        FromBytesError::ReadEnum {
                            enum_name: name,
                            cause: ReadErrorCause::InvalidDiscriminant {
                                ty: name,
                                got: t as usize,
                            },
                        },
                    )
                }
            }
        },
        Schema::Wrapper { inner, .. } => spec_decode(*inner, bits, pos),
        Schema::Struct { name, fields } => match spec_decode_fields(
            name,
            fields@,
            bits,
            pos,
            0,
            Seq::empty(),
        ) {
            Ok((vals, p)) => Ok((Val::Struct(vals), p)),
            Err(e) => Err(e),
        },
    }
}

/// The slot field `i` decodes to, given the already-decoded slots
/// `acc` of the earlier fields: a governed field trusts the control
/// value read earlier and reconstructs itself to match it.
pub open spec fn spec_decode_field(
    sname: &'static str,
    fields: Seq<Field>,
    bits: Seq<bool>,
    pos: int,
    i: int,
    acc: Seq<Val>,
) -> Result<(Val, int), FromBytesError>
    decreases fields, 1nat, 0nat,
{
    if i < 0 || i >= fields.len() {
        Ok((Val::Unit, pos))
    } else {
        match fields[i].kind {
            FieldKind::Scalar { ty } => match spec_decode(ty, bits, pos) {
                Ok(vp) => Ok(vp),
                Err(e) => Err(spec_read_field(e, sname, fields[i].name)),
            },
            FieldKind::Padding { bits: n } => {
                if pos + n > bits.len() {
                    Err(
                        FromBytesError::SkipPadding {
                            struct_name: sname,
                            cause: ReadErrorCause::NotEnoughInput {
                                ty: padding_label(),
                                cause: spec_eob(n as nat, bits, pos),
                            },
                        },
                    )
                } else {
                    Ok((Val::Unit, pos + n))
                }
            },
            FieldKind::OptionControl { controlled } => {
                if pos + 1 > bits.len() {
                    Err(
                        FromBytesError::ReadOptionController {
                            controlled_option_field: fields[controlled as int].name,
                            struct_name: sname,
                            cause: ReadErrorCause::NotEnoughInput {
                                ty: bool_label(),
                                cause: spec_eob(1, bits, pos),
                            },
                        },
                    )
                } else {
                    Ok((Val::Bool(bits[pos]), pos + 1))
                }
            },
            FieldKind::ListControl { width, controlled } => {
                if pos + width > bits.len() {
                    Err(
                        FromBytesError::ReadListLength {
                            field_name: fields[controlled as int].name,
                            struct_name: sname,
                            cause: ReadErrorCause::NotEnoughInput {
                                ty: uint_label(),
                                cause: spec_eob(width as nat, bits, pos),
                            },
                        },
                    )
                } else {
                    Ok(
                        (
                            Val::Uint(bits_to_nat(bits.subrange(pos, pos + width)) as u64),
                            pos + width,
                        ),
                    )
                }
            },
            FieldKind::OptionField { control, ty } => {
                if 0 <= control < acc.len() && as_bool(acc[control as int]) {
                    match spec_decode(ty, bits, pos) {
                        Ok((v, p)) => Ok((Val::Opt(Some(Box::new(v))), p)),
                        Err(e) => Err(spec_read_option(e, sname, fields[i].name)),
                    }
                } else {
                    Ok((Val::Opt(None), pos))
                }
            },
            FieldKind::ListField { control, ty } => {
                let count = if 0 <= control < acc.len() {
                    as_uint(acc[control as int])
                } else {
                    0
                };
                match spec_decode_elems(ty, bits, pos, count as int, Seq::empty()) {
                    Ok((es, p)) => Ok((Val::List(es), p)),
                    Err(e) => Err(spec_read_list(e, sname, fields[i].name, count as usize)),
                }
            },
            FieldKind::Array { len, ty } => match spec_decode_elems(
                ty,
                bits,
                pos,
                len as int,
                Seq::empty(),
            ) {
                Ok((es, p)) => Ok((Val::List(es), p)),
                Err(e) => Err(spec_read_array(e, sname, fields[i].name, len)),
            },
        }
    }
}

/// The slots of the fields from `i` on, appended to `acc`, with the new
/// cursor, stopping at the first failure.
pub open spec fn spec_decode_fields(
    sname: &'static str,
    fields: Seq<Field>,
    bits: Seq<bool>,
    pos: int,
    i: int,
    acc: Seq<Val>,
) -> Result<(Seq<Val>, int), FromBytesError>
    decreases fields, 2nat, fields.len() - i,
{
    if i < 0 || i >= fields.len() {
        Ok((acc, pos))
    } else {
        match spec_decode_field(sname, fields, bits, pos, i, acc) {
            Ok((v, p)) => spec_decode_fields(sname, fields, bits, p, i + 1, acc.push(v)),
            Err(e) => Err(e),
        }
    }
}

/// `remaining` more elements of layout `ty`, appended to `acc`, with
/// the new cursor, stopping at the first failure.
pub open spec fn spec_decode_elems(
    ty: Schema,
    bits: Seq<bool>,
    pos: int,
    remaining: int,
    acc: Seq<Val>,
) -> Result<(Seq<Val>, int), FromBytesError>
    decreases ty, 1nat, remaining,
{
    if remaining <= 0 {
        Ok((acc, pos))
    } else {
        match spec_decode(ty, bits, pos) {
            Ok((v, p)) => spec_decode_elems(ty, bits, p, remaining - 1, acc.push(v)),
            Err(e) => Err(e),
        }
    }
}

} // verus!
