//! The executable decoder, proved equal to [`spec_decode`].
//!
//! Decoding walks the schema in declaration order, reading through a
//! [`BitReader`]. A control field is stored as read and trusted: the
//! optional or list field it governs is reconstructed to match it, so a
//! decoded value never holds a control disagreement.

use vstd::prelude::*;
use vstd::arithmetic::power2::pow2;
use vstd::arithmetic::power2::lemma_pow2_strictly_increases;
use vstd::arithmetic::power2::lemma2_to64;
use vstd::arithmetic::power2::lemma2_to64_rest;
use crate::bits::BitReader;
use crate::bits::UnexpectedEndOfBits;
use crate::bits::bits_to_nat;
use crate::bits::lemma_bits_to_nat_unique;
use crate::bits::nth_bit;
use crate::bits::scalar_bits;
use crate::codec::spec_decode;
use crate::codec::spec_decode_elems;
use crate::codec::spec_decode_field;
use crate::codec::spec_decode_fields;
use crate::error::FromBytesError;
use crate::error::ReadErrorCause;
use crate::schema::FieldKind;
use crate::schema::Schema;
use crate::schema::field_shape_ok;
use crate::value::Val;
use crate::value::Value;
use crate::value::as_bool;
use crate::value::as_uint;
use crate::value::vals_view;

verus! {

broadcast use
    {crate::value::lemma_vals_view_len, crate::value::lemma_vals_view_index, crate::value::lemma_vals_view_push};

/// The boolean a decoded slot carries, with `false` for any other shape.
fn read_bool_of(v: &Value) -> (r: bool)
    ensures
        r == as_bool(v@),
{
    match v {
        Value::Bool(b) => *b,
        _ => false,
    }
}

/// The integer a decoded slot carries, with zero for any other shape.
fn read_uint_of(v: &Value) -> (r: u64)
    ensures
        r == as_uint(v@),
{
    match v {
        Value::Uint(x) => *x,
        _ => 0,
    }
}

/// Whether `t` is one of the declared tags.
pub(crate) fn tags_contain(tags: &Vec<u64>, t: u64) -> (r: bool)
    ensures
        r == tags@.contains(t),
{
    let mut j: usize = 0;
    while j < tags.len()
        invariant
            j <= tags@.len(),
            forall|k: int| 0 <= k < j ==> tags@[k] != t,
        decreases tags@.len() - j,
    {
        if tags[j] == t {
            return true;
        }
        j = j + 1;
    }
    false
}

/// Read an exact-width scalar and relate it to the denoted number.
fn read_scalar(reader: &mut BitReader, width: u64) -> (r: Result<u64, UnexpectedEndOfBits>)
    requires
        old(reader).wf(),
        1 <= width <= 64,
    ensures
        final(reader).wf(),
        final(reader).stream() == old(reader).stream(),
        match r {
            Ok(x) => {
                &&& old(reader).spec_pos() + width <= old(reader).stream().len()
                &&& final(reader).spec_pos() == old(reader).spec_pos() + width
                &&& (x as nat) == bits_to_nat(
                    old(reader).stream().subrange(
                        old(reader).spec_pos() as int,
                        old(reader).spec_pos() + width,
                    ),
                )
                &&& (x as nat) < pow2(width as nat)
            },
            Err(c) => {
                &&& old(reader).spec_pos() + width > old(reader).stream().len()
                &&& *final(reader) == *old(reader)
                &&& c == (UnexpectedEndOfBits {
                    requested_bits: width as usize,
                    available_bits: (old(reader).stream().len() - old(reader).spec_pos()) as usize,
                })
            },
        },
{
    let ghost rpre = *reader;
    match reader.read_bits(width as usize) {
        Ok(x) => {
            proof {
                let sub = rpre.stream().subrange(
                    rpre.spec_pos() as int,
                    rpre.spec_pos() + width,
                );
                assert forall|j: int| 0 <= j < sub.len() implies #[trigger] nth_bit(
                    x as nat,
                    j as nat,
                ) == sub[j] by {
                    assert(scalar_bits(x as nat, width as nat)[j] == nth_bit(x as nat, j as nat));
                }
                lemma_bits_to_nat_unique(sub, x as nat);
            }
            Ok(x)
        },
        Err(c) => Err(c),
    }
}

impl Schema {
    /// Decode one value of this layout from the cursor onward, exactly
    /// as `spec_decode` says: the same value, the same cursor advance,
    /// and on failure the same error, with unread trailing input left
    /// alone.
    pub fn read_abstract_bits(&self, reader: &mut BitReader) -> (r: Result<
        Value,
        FromBytesError,
    >)
        requires
            self.wf(),
            old(reader).wf(),
        ensures
            final(reader).wf(),
            final(reader).stream() == old(reader).stream(),
            final(reader).spec_pos() >= old(reader).spec_pos(),
            match r {
                Ok(v) => spec_decode(
                    *self,
                    old(reader).stream(),
                    old(reader).spec_pos() as int,
                ) matches Ok(p) && p.0 == v@ && p.1 == final(reader).spec_pos(),
                Err(e) => spec_decode(
                    *self,
                    old(reader).stream(),
                    old(reader).spec_pos() as int,
                ) == Err::<(Val, int), FromBytesError>(e),
            },
        decreases *self, 0nat, 0nat,
    {
        let ghost rpre = *reader;
        match self {
            Schema::UInt { width } => match read_scalar(reader, *width) {
                Ok(x) => Ok(Value::Uint(x)),
                Err(c) => Err(
                    FromBytesError::ReadPrimitive(
                        ReadErrorCause::NotEnoughInput { ty: "uint", cause: c },
                    ),
                ),
            },
            Schema::Boolean => match reader.read_bit() {
                Ok(b) => Ok(Value::Bool(b)),
                Err(c) => Err(
                    FromBytesError::ReadPrimitive(
                        ReadErrorCause::NotEnoughInput { ty: "bool", cause: c },
                    ),
                ),
            },
            Schema::Enum { name, width, tags } => match read_scalar(reader, *width) {
                Ok(t) => {
                    if tags_contain(tags, t) {
                        Ok(Value::Enum(t))
                    } else {
                        proof {
                            lemma2_to64();
                            lemma2_to64_rest();
                            if (*width as nat) < 64 {
                                lemma_pow2_strictly_increases(*width as nat, 64);
                            }
                        }
                        Err(
                            FromBytesError::ReadEnum {
                                enum_name: *name,
                                cause: ReadErrorCause::InvalidDiscriminant {
                                    ty: *name,
                                    got: t as usize,
                                },
                            },
                        )
                    }
                },
                Err(c) => Err(
                    FromBytesError::ReadPrimitive(
                        ReadErrorCause::NotEnoughInput { ty: *name, cause: c },
                    ),
                ),
            },
            Schema::Wrapper { inner, .. } => inner.read_abstract_bits(reader),
            Schema::Struct { name, fields } => {
                let ghost fseq = fields@;
                let ghost bits = rpre.stream();
                let ghost p0 = rpre.spec_pos() as int;
                let mut vals: Vec<Value> = Vec::new();
                let mut i: usize = 0;
                proof {
                    assert(vals_view(vals@) =~= Seq::<Val>::empty());
                }
                while i < fields.len()
                    invariant
                        i <= fseq.len(),
                        vals@.len() == i,
                        (*self == Schema::Struct { name: *name, fields: *fields }),
                        rpre == *old(reader),
                        self.wf(),
                        fields@ == fseq,
                        forall|k2: int|
                            0 <= k2 < fseq.len() ==> #[trigger] field_shape_ok(fseq, k2),
                        crate::schema::fields_ty_wf(fseq, 0),
                        reader.wf(),
                        reader.stream() == bits,
                        bits == rpre.stream(),
                        p0 == rpre.spec_pos(),
                        reader.spec_pos() >= rpre.spec_pos(),
                        spec_decode_fields(*name, fseq, bits, p0, 0, Seq::empty())
                            == spec_decode_fields(
                            *name,
                            fseq,
                            bits,
                            reader.spec_pos() as int,
                            i as int,
                            vals_view(vals@),
                        ),
                    decreases fseq.len() - i,
                {
                    let ghost rcur = *reader;
                    let ghost ii = i as int;
                    let ghost acc = vals_view(vals@);
                    proof {
                        assert(field_shape_ok(fseq, ii));
                        crate::schema::lemma_fields_ty_wf_index(fseq, ii);
                    }
                    let ghost fres = spec_decode_field(
                        *name,
                        fseq,
                        bits,
                        rcur.spec_pos() as int,
                        ii,
                        acc,
                    );
                    match &fields[i].kind {
                        FieldKind::Scalar { ty } => {
                            proof {
                                assert(decreases_to!(*self => *fields));
                                assert(decreases_to!(*fields => fseq));
                                assert(decreases_to!(fseq => fseq[ii]));
                                assert(decreases_to!(fseq[ii] => *ty));
                            }
                            match ty.read_abstract_bits(reader) {
                                Ok(v) => {
                                    vals.push(v);
                                },
                                Err(e) => {
                                    return Err(e.read_field(*name, fields[i].name));
                                },
                            }
                        },
                        FieldKind::Padding { bits: n } => {
                            match reader.skip(*n as usize) {
                                Ok(()) => {
                                    vals.push(Value::Unit);
                                },
                                Err(c) => {
                                    return Err(
                                        FromBytesError::SkipPadding {
                                            struct_name: *name,
                                            cause: ReadErrorCause::NotEnoughInput {
                                                ty: "-",
                                                cause: c,
                                            },
                                        },
                                    );
                                },
                            }
                        },
                        FieldKind::OptionControl { controlled } => {
                            match reader.read_bit() {
                                Ok(b) => {
                                    vals.push(Value::Bool(b));
                                },
                                Err(c) => {
                                    return Err(
                                        FromBytesError::ReadOptionController {
                                            controlled_option_field: fields[*controlled].name,
                                            struct_name: *name,
                                            cause: ReadErrorCause::NotEnoughInput {
                                                ty: "bool",
                                                cause: c,
                                            },
                                        },
                                    );
                                },
                            }
                        },
                        FieldKind::ListControl { width, controlled } => {
                            match read_scalar(reader, *width) {
                                Ok(x) => {
                                    vals.push(Value::Uint(x));
                                },
                                Err(c) => {
                                    return Err(
                                        FromBytesError::ReadListLength {
                                            field_name: fields[*controlled].name,
                                            struct_name: *name,
                                            cause: ReadErrorCause::NotEnoughInput {
                                                ty: "uint",
                                                cause: c,
                                            },
                                        },
                                    );
                                },
                            }
                        },
                        FieldKind::OptionField { control, ty } => {
                            proof {
                                assert(decreases_to!(*self => *fields));
                                assert(decreases_to!(*fields => fseq));
                                assert(decreases_to!(fseq => fseq[ii]));
                                assert(decreases_to!(fseq[ii] => *ty));
                            }
                            let present = read_bool_of(&vals[*control]);
                            if present {
                                match ty.read_abstract_bits(reader) {
                                    Ok(v) => {
                                        vals.push(Value::Opt(Some(Box::new(v))));
                                    },
                                    Err(e) => {
                                        return Err(e.read_option(*name, fields[i].name));
                                    },
                                }
                            } else {
                                vals.push(Value::Opt(None));
                            }
                        },
                        FieldKind::ListField { control, ty } => {
                            proof {
                                assert(decreases_to!(*self => *fields));
                                assert(decreases_to!(*fields => fseq));
                                assert(decreases_to!(fseq => fseq[ii]));
                                assert(decreases_to!(fseq[ii] => *ty));
                            }
                            let count = read_uint_of(&vals[*control]);
                            match read_elements(ty, reader, count) {
                                Ok(es) => {
                                    vals.push(Value::List(es));
                                },
                                Err(e) => {
                                    return Err(
                                        e.read_list(*name, fields[i].name, count as usize),
                                    );
                                },
                            }
                        },
                        FieldKind::Array { len, ty } => {
                            proof {
                                assert(decreases_to!(*self => *fields));
                                assert(decreases_to!(*fields => fseq));
                                assert(decreases_to!(fseq => fseq[ii]));
                                assert(decreases_to!(fseq[ii] => *ty));
                            }
                            match read_elements(ty, reader, *len as u64) {
                                Ok(es) => {
                                    vals.push(Value::List(es));
                                },
                                Err(e) => {
                                    return Err(e.read_array(*name, fields[i].name, *len));
                                },
                            }
                        },
                    }
                    proof {
                        assert(fres is Ok);
                        assert(vals_view(vals@) == acc.push(fres->Ok_0.0));
                        assert(reader.spec_pos() == fres->Ok_0.1);
                    }
                    i = i + 1;
                }
                Ok(Value::Struct(vals))
            },
        }
    }
}

/// Read `count` elements of layout `ty`, in order, aggregating the
/// first failure.
fn read_elements(ty: &Schema, reader: &mut BitReader, count: u64) -> (r: Result<
    Vec<Value>,
    FromBytesError,
>)
    requires
        ty.wf(),
        old(reader).wf(),
    ensures
        final(reader).wf(),
        final(reader).stream() == old(reader).stream(),
        final(reader).spec_pos() >= old(reader).spec_pos(),
        match r {
            Ok(es) => {
                &&& spec_decode_elems(
                    *ty,
                    old(reader).stream(),
                    old(reader).spec_pos() as int,
                    count as int,
                    Seq::empty(),
                ) matches Ok(p) && p.0 == vals_view(es@) && p.1 == final(reader).spec_pos()
                &&& es@.len() == count
            },
            Err(e) => spec_decode_elems(
                *ty,
                old(reader).stream(),
                old(reader).spec_pos() as int,
                count as int,
                Seq::empty(),
            ) == Err::<(Seq<Val>, int), FromBytesError>(e),
        },
    decreases *ty, 3nat, 0nat,
{
    let ghost rpre = *reader;
    let ghost bits = rpre.stream();
    let ghost p0 = rpre.spec_pos() as int;
    let mut es: Vec<Value> = Vec::new();
    let mut k: u64 = 0;
    proof {
        assert(vals_view(es@) =~= Seq::<Val>::empty());
    }
    while k < count
        invariant
            k <= count,
            es@.len() == k,
            ty.wf(),
            rpre == *old(reader),
            reader.wf(),
            reader.stream() == bits,
            bits == rpre.stream(),
            p0 == rpre.spec_pos(),
            reader.spec_pos() >= rpre.spec_pos(),
            spec_decode_elems(*ty, bits, p0, count as int, Seq::empty()) == spec_decode_elems(
                *ty,
                bits,
                reader.spec_pos() as int,
                count - k,
                vals_view(es@),
            ),
        decreases count - k,
    {
        let ghost acc = vals_view(es@);
        match ty.read_abstract_bits(reader) {
            Ok(v) => {
                es.push(v);
                proof {
                    assert(vals_view(es@) == acc.push(v@));
                }
            },
            Err(e) => {
                return Err(e);
            },
        }
        k = k + 1;
    }
    Ok(es)
}

} // verus!
