//! The executable encoder, proved equal to [`spec_encode`].
//!
//! Encoding walks the schema in declaration order, writing through a
//! [`BitWriter`]. With room for the layout's maximum bit count the
//! result and the bits written are exactly those of `spec_encode`;
//! against a smaller buffer a buffer-size failure may come back
//! instead, and then the buffer was indeed smaller than that maximum.

use vstd::prelude::*;
use vstd::arithmetic::power2::pow2;
use vstd::arithmetic::mul::lemma_mul_inequality;
use vstd::arithmetic::mul::lemma_mul_is_distributive_add_other_way;
use crate::bits::BitWriter;
use crate::bits::pow2_u64;
use crate::bounds::lemma_elems_valid_suffix;
use crate::bounds::lemma_encode_field_len;
use crate::bounds::lemma_encode_len;
use crate::bounds::lemma_slots_valid_suffix;
use crate::codec::spec_encode;
use crate::codec::spec_encode_elems;
use crate::codec::spec_encode_field;
use crate::codec::spec_encode_fields;
use crate::error::ToBytesError;
use crate::schema::FieldKind;
use crate::schema::Schema;
use crate::schema::field_max_bits;
use crate::schema::field_shape_ok;
use crate::schema::fields_max_bits;
use crate::schema::fields_ty_wf;
use crate::schema::lemma_fields_ty_wf_index;
use crate::schema::list_control_width;
use crate::value::Val;
use crate::value::Value;
use crate::value::elems_valid;
use crate::value::has_inner;
use crate::value::opt_inner;
use crate::value::slots_valid;
use crate::value::take_bool;
use crate::value::take_elems;
use crate::value::take_enum;
use crate::value::take_inner;
use crate::value::take_slots;
use crate::value::take_uint;
use crate::value::vals_view;

verus! {

broadcast use {crate::value::lemma_vals_view_len, crate::value::lemma_vals_view_index, crate::bits::BitWriter::lemma_bits_len};

impl Schema {
    /// Encode `value` through `writer`, in declaration order, failing
    /// fast: the first field whose control disagrees with its live
    /// state aborts the whole encode with that field's error, exactly
    /// as `spec_encode` says. A buffer-size failure can only come back
    /// when the buffer had less room than the layout's maximum bit
    /// count.
    pub fn write_abstract_bits(&self, value: &Value, writer: &mut BitWriter) -> (r: Result<
        (),
        ToBytesError,
    >)
        requires
            self.wf(),
            value@.valid_for(*self),
            old(writer).wf(),
        ensures
            final(writer).wf(),
            final(writer).capacity() == old(writer).capacity(),
            final(writer).spec_pos() >= old(writer).spec_pos(),
            match r {
                Ok(()) => spec_encode(*self, value@) matches Ok(bs) && final(writer).bits()
                    == old(writer).bits() + bs,
                Err(e) => {
                    ||| (spec_encode(*self, value@) matches Err(e2) && e == e2)
                    ||| (e is BufferTooSmall && old(writer).spec_pos() + self.spec_max_bits()
                        > old(writer).capacity())
                },
            },
        decreases *self, 0nat, 0nat,
    {
        let ghost sv = *self;
        let ghost wpre = *writer;
        match self {
            Schema::UInt { width } => {
                let x = take_uint(value);
                match writer.write_bits(*width as usize, x) {
                    Ok(()) => Ok(()),
                    Err(c) => Err(ToBytesError::BufferTooSmall { ty: "uint", cause: c }),
                }
            },
            Schema::Boolean => {
                let b = take_bool(value);
                match writer.write_bit(b) {
                    Ok(()) => {
                        proof {
                            assert(wpre.bits().push(b) =~= wpre.bits() + seq![b]);
                        }
                        Ok(())
                    },
                    Err(c) => Err(ToBytesError::BufferTooSmall { ty: "bool", cause: c }),
                }
            },
            Schema::Enum { name, width, tags } => {
                let t = take_enum(value);
                proof {
                    let idx = choose|j: int| 0 <= j < tags@.len() && tags@[j] == t;
                    assert(tags@[idx] == t);
                    assert((tags@[idx] as nat) < pow2(*width as nat));
                }
                match writer.write_bits(*width as usize, t) {
                    Ok(()) => Ok(()),
                    Err(c) => Err(ToBytesError::BufferTooSmall { ty: *name, cause: c }),
                }
            },
            Schema::Wrapper { inner, .. } => inner.write_abstract_bits(value, writer),
            Schema::Struct { name, fields } => {
                let vals = take_slots(value);
                let ghost fseq = fields@;
                let ghost valsv = vals_view(vals@);
                proof {
                    assert(value@ == Val::Struct(valsv));
                    assert(spec_encode(sv, value@) == spec_encode_fields(fseq, valsv, 0));
                    assert(sv.spec_max_bits() == fields_max_bits(fseq, 0));
                }
                let ghost mut written: Seq<bool> = Seq::empty();
                let mut i: usize = 0;
                proof {
                    assert(wpre.bits() + written =~= wpre.bits());
                }
                while i < fields.len()
                    invariant
                        i <= fseq.len(),
                        (*self == Schema::Struct { name: *name, fields: *fields }),
                        wpre == *old(writer),
                        spec_encode(*self, value@) == spec_encode_fields(fseq, valsv, 0),
                        self.wf(),
                        self.spec_max_bits() == fields_max_bits(fseq, 0),
                        fields@ == fseq,
                        vals@.len() == fseq.len(),
                        valsv == vals_view(vals@),
                        valsv.len() == fseq.len(),
                        forall|k2: int|
                            0 <= k2 < fseq.len() ==> #[trigger] field_shape_ok(fseq, k2),
                        fields_ty_wf(fseq, 0),
                        slots_valid(fseq, valsv, 0),
                        writer.wf(),
                        writer.capacity() == wpre.capacity(),
                        writer.spec_pos() >= wpre.spec_pos(),
                        writer.bits() == wpre.bits() + written,
                        writer.spec_pos() == wpre.spec_pos() + written.len(),
                        written.len() + fields_max_bits(fseq, i as int) <= fields_max_bits(
                            fseq,
                            0,
                        ),
                        spec_encode_fields(fseq, valsv, 0) == (match spec_encode_fields(
                            fseq,
                            valsv,
                            i as int,
                        ) {
                            Ok(rest) => Ok::<Seq<bool>, ToBytesError>(written + rest),
                            Err(e) => Err(e),
                        }),
                    decreases fseq.len() - i,
                {
                    let ghost wcur = *writer;
                    let ghost ii = i as int;
                    proof {
                        lemma_fields_ty_wf_index(fseq, ii);
                        lemma_slots_valid_suffix(fseq, valsv, 0, ii);
                        lemma_encode_field_len(fseq, valsv, ii);
                        assert(field_shape_ok(fseq, ii));
                        assert(fields_max_bits(fseq, ii) == field_max_bits(fseq, ii)
                            + fields_max_bits(fseq, ii + 1));
                    }
                    let ghost fres = spec_encode_field(fseq, valsv, ii);
                    match &fields[i].kind {
                        FieldKind::Scalar { ty } => {
                            proof {
                                assert(valsv[ii] == vals@[ii]@);
                                assert(fres == spec_encode(*ty, valsv[ii]));
                                assert(decreases_to!(*self => *fields));
                                assert(decreases_to!(*fields => fseq));
                                assert(decreases_to!(fseq => fseq[ii]));
                                assert(decreases_to!(fseq[ii] => *ty));
                            }
                            match ty.write_abstract_bits(&vals[i], writer) {
                                Ok(()) => {},
                                Err(e) => {
                                    proof {
                                        let se = spec_encode(*ty, valsv[ii]);
                                        if !(se is Err && e == se->Err_0) {
                                            assert(e is BufferTooSmall && wcur.spec_pos()
                                                + ty.spec_max_bits() > wcur.capacity());
                                        }
                                    }
                                    return Err(e);
                                },
                            }
                        },
                        FieldKind::Padding { bits } => {
                            match writer.skip(*bits as usize) {
                                Ok(()) => {},
                                Err(c) => {
                                    return Err(
                                        ToBytesError::BufferTooSmall { ty: *name, cause: c },
                                    );
                                },
                            }
                        },
                        FieldKind::OptionControl { controlled } => {
                            proof {
                                lemma_slots_valid_suffix(fseq, valsv, 0, *controlled as int);
                            }
                            let b = has_inner(&vals[*controlled]);
                            match writer.write_bit(b) {
                                Ok(()) => {
                                    proof {
                                        assert(wcur.bits().push(b) =~= wcur.bits() + seq![b]);
                                    }
                                },
                                Err(c) => {
                                    return Err(
                                        ToBytesError::BufferTooSmall { ty: *name, cause: c },
                                    );
                                },
                            }
                        },
                        FieldKind::ListControl { width, controlled } => {
                            proof {
                                lemma_slots_valid_suffix(fseq, valsv, 0, *controlled as int);
                            }
                            let es = take_elems(&vals[*controlled]);
                            let n = es.len();
                            if *width < 64 {
                                let lim: u64 = pow2_u64(*width as usize);
                                if n as u64 >= lim {
                                    return Err(
                                        ToBytesError::ListTooLong {
                                            max: (lim - 1) as usize,
                                            got: n,
                                        },
                                    );
                                }
                            } else {
                                proof {
                                    vstd::arithmetic::power2::lemma2_to64_rest();
                                }
                            }
                            match writer.write_bits(*width as usize, n as u64) {
                                Ok(()) => {},
                                Err(c) => {
                                    return Err(
                                        ToBytesError::BufferTooSmall { ty: *name, cause: c },
                                    );
                                },
                            }
                        },
                        FieldKind::OptionField { control, ty } => {
                            proof {
                                lemma_slots_valid_suffix(fseq, valsv, 0, *control as int);
                            }
                            let stored = take_bool(&vals[*control]);
                            let live = has_inner(&vals[i]);
                            if live != stored {
                                return Err(
                                    ToBytesError::ValidationError {
                                        field_name: fields[i].name,
                                        control_value: if stored {
                                            1
                                        } else {
                                            0
                                        },
                                        live_value: if live {
                                            1
                                        } else {
                                            0
                                        },
                                    },
                                );
                            }
                            if live {
                                let inner_val = take_inner(&vals[i]);
                                proof {
                                    assert(inner_val@ == opt_inner(valsv[ii]));
                                    assert(fres == spec_encode(*ty, opt_inner(valsv[ii])));
                                    assert(decreases_to!(*self => *fields));
                                    assert(decreases_to!(*fields => fseq));
                                    assert(decreases_to!(fseq => fseq[ii]));
                                    assert(decreases_to!(fseq[ii] => *ty));
                                }
                                match ty.write_abstract_bits(inner_val, writer) {
                                    Ok(()) => {},
                                    Err(e) => {
                                        proof {
                                            let se = spec_encode(*ty, opt_inner(valsv[ii]));
                                            if !(se is Err && e == se->Err_0) {
                                                assert(e is BufferTooSmall && wcur.spec_pos()
                                                    + ty.spec_max_bits() > wcur.capacity());
                                            }
                                        }
                                        return Err(e);
                                    },
                                }
                            } else {
                                proof {
                                    assert(wcur.bits() + Seq::<bool>::empty() =~= wcur.bits());
                                }
                            }
                        },
                        FieldKind::ListField { control, ty } => {
                            proof {
                                lemma_slots_valid_suffix(fseq, valsv, 0, *control as int);
                            }
                            let stored = take_uint(&vals[*control]);
                            let es = take_elems(&vals[i]);
                            if stored != es.len() as u64 {
                                return Err(
                                    ToBytesError::ValidationError {
                                        field_name: fields[i].name,
                                        control_value: stored,
                                        live_value: es.len() as u64,
                                    },
                                );
                            }
                            let ghost w = list_control_width(fseq, *control as int);
                            proof {
                                assert((stored as nat) < pow2(w));
                            }
                            proof {
                                assert(decreases_to!(*self => *fields));
                                assert(decreases_to!(*fields => fseq));
                                assert(decreases_to!(fseq => fseq[ii]));
                                assert(decreases_to!(fseq[ii] => *ty));
                            }
                            match write_elements(ty, es, writer) {
                                Ok(()) => {
                                    proof {
                                        assert(fres == spec_encode_elems(
                                            *ty,
                                            vals_view(es@),
                                            0,
                                        ));
                                    }
                                },
                                Err(e) => {
                                    proof {
                                        let se = spec_encode_elems(*ty, vals_view(es@), 0);
                                        if se is Err && e == se->Err_0 {
                                            assert(fres == se);
                                        } else {
                                            assert(e is BufferTooSmall && wcur.spec_pos()
                                                + es@.len() * ty.spec_max_bits()
                                                > wcur.capacity());
                                            assert(es@.len() as int * ty.spec_max_bits() as int
                                                <= (pow2(w) - 1) * ty.spec_max_bits() as int) by {
                                                lemma_mul_inequality(
                                                    es@.len() as int,
                                                    pow2(w) as int - 1,
                                                    ty.spec_max_bits() as int,
                                                );
                                            }
                                            assert(field_max_bits(fseq, ii) == ((pow2(w) - 1)
                                                as nat) * ty.spec_max_bits());
                                        }
                                    }
                                    return Err(e);
                                },
                            }
                        },
                        FieldKind::Array { len, ty } => {
                            let es = take_elems(&vals[i]);
                            proof {
                                assert(es@.len() == *len);
                                assert(decreases_to!(*self => *fields));
                                assert(decreases_to!(*fields => fseq));
                                assert(decreases_to!(fseq => fseq[ii]));
                                assert(decreases_to!(fseq[ii] => *ty));
                            }
                            match write_elements(ty, es, writer) {
                                Ok(()) => {},
                                Err(e) => {
                                    proof {
                                        let se = spec_encode_elems(*ty, vals_view(es@), 0);
                                        if se is Err && e == se->Err_0 {
                                            assert(fres == se);
                                        } else {
                                            assert(e is BufferTooSmall && wcur.spec_pos()
                                                + es@.len() * ty.spec_max_bits()
                                                > wcur.capacity());
                                        }
                                    }
                                    return Err(e);
                                },
                            }
                        },
                    }
                    proof {
                        let bs = fres->Ok_0;
                        assert(fres is Ok);
                        assert(writer.bits() =~= wcur.bits() + bs);
                        let wold = written;
                        written = written + bs;
                        assert(writer.bits() =~= wpre.bits() + written);
                        let r2 = spec_encode_fields(fseq, valsv, ii + 1);
                        if r2 is Ok {
                            let rest = r2->Ok_0;
                            assert(wold + (bs + rest) =~= written + rest);
                        }
                    }
                    i = i + 1;
                }
                proof {
                    assert(written + Seq::<bool>::empty() =~= written);
                }
                Ok(())
            },
        }
    }
}

/// Encode every element of `es` with layout `ty`, in index order.
fn write_elements(ty: &Schema, es: &Vec<Value>, writer: &mut BitWriter) -> (r: Result<
    (),
    ToBytesError,
>)
    requires
        ty.wf(),
        elems_valid(*ty, vals_view(es@), 0),
        old(writer).wf(),
    ensures
        final(writer).wf(),
        final(writer).capacity() == old(writer).capacity(),
        final(writer).spec_pos() >= old(writer).spec_pos(),
        match r {
            Ok(()) => spec_encode_elems(*ty, vals_view(es@), 0) matches Ok(bs)
                && final(writer).bits() == old(writer).bits() + bs,
            Err(e) => {
                ||| (spec_encode_elems(*ty, vals_view(es@), 0) matches Err(e2) && e == e2)
                ||| (e is BufferTooSmall && old(writer).spec_pos() + es@.len()
                    * ty.spec_max_bits() > old(writer).capacity())
            },
        },
    decreases *ty, 3nat, 0nat,
{
    let ghost esv = vals_view(es@);
    let ghost wpre = *writer;
    let ghost mut written: Seq<bool> = Seq::empty();
    let mut k: usize = 0;
    proof {
        assert(wpre.bits() + written =~= wpre.bits());
    }
    while k < es.len()
        invariant
            k <= es@.len(),
            wpre == *old(writer),
            ty.wf(),
            esv == vals_view(es@),
            esv.len() == es@.len(),
            elems_valid(*ty, esv, 0),
            writer.wf(),
            writer.capacity() == wpre.capacity(),
            writer.spec_pos() >= wpre.spec_pos(),
            writer.bits() == wpre.bits() + written,
            writer.spec_pos() == wpre.spec_pos() + written.len(),
            written.len() <= k * ty.spec_max_bits(),
            spec_encode_elems(*ty, esv, 0) == (match spec_encode_elems(*ty, esv, k as int) {
                Ok(rest) => Ok::<Seq<bool>, ToBytesError>(written + rest),
                Err(e) => Err(e),
            }),
        decreases es@.len() - k,
    {
        let ghost wcur = *writer;
        let ghost kk = k as int;
        proof {
            lemma_elems_valid_suffix(*ty, esv, 0, kk);
            lemma_encode_len(*ty, esv[kk]);
            assert(esv[kk] == es@[kk]@);
        }
        match ty.write_abstract_bits(&es[k], writer) {
            Ok(()) => {},
            Err(e) => {
                proof {
                    let se = spec_encode(*ty, esv[kk]);
                    if !(se is Err && e == se->Err_0) {
                        assert(e is BufferTooSmall && wcur.spec_pos() + ty.spec_max_bits()
                            > wcur.capacity());
                        assert((kk + 1) * ty.spec_max_bits() as int <= es@.len() as int
                            * ty.spec_max_bits() as int) by {
                            lemma_mul_inequality(
                                kk + 1,
                                es@.len() as int,
                                ty.spec_max_bits() as int,
                            );
                        }
                        assert((kk + 1) * ty.spec_max_bits() as int == kk
                            * ty.spec_max_bits() as int + ty.spec_max_bits()) by {
                            lemma_mul_is_distributive_add_other_way(
                                ty.spec_max_bits() as int,
                                kk,
                                1,
                            );
                        }
                    }
                }
                return Err(e);
            },
        }
        proof {
            let bs = spec_encode(*ty, esv[kk])->Ok_0;
            let wold = written;
            written = written + bs;
            assert(writer.bits() =~= wpre.bits() + written);
            assert((kk + 1) * ty.spec_max_bits() as int == kk * ty.spec_max_bits() as int
                + ty.spec_max_bits()) by {
                lemma_mul_is_distributive_add_other_way(ty.spec_max_bits() as int, kk, 1);
            }
            let r2 = spec_encode_elems(*ty, esv, kk + 1);
            if r2 is Ok {
                let rest = r2->Ok_0;
                assert(wold + (bs + rest) =~= written + rest);
            }
        }
        k = k + 1;
    }
    proof {
        assert(written + Seq::<bool>::empty() =~= written);
    }
    Ok(())
}

} // verus!
