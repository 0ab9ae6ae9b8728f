//! The per-layout generated contract: encode to bytes, decode from
//! bytes, and the static bit bounds, together with an executable
//! well-formedness check for schemas built at run time.

use vstd::prelude::*;
use vstd::arithmetic::power2::pow2;
use vstd::arithmetic::power2::lemma_pow2_strictly_increases;
use vstd::arithmetic::power2::lemma2_to64;
use vstd::arithmetic::power2::lemma2_to64_rest;
use vstd::arithmetic::div_mod::lemma_fundamental_div_mod;
use vstd::arithmetic::mul::lemma_mul_inequality;
use vstd::arithmetic::mul::lemma_mul_is_commutative;
use crate::bits::BitReader;
use crate::bits::BitWriter;
use crate::bits::pow2_u64;
use crate::bits::stream_of;
use crate::codec::spec_decode;
use crate::codec::spec_encode;
use crate::error::FromBytesError;
use crate::error::ToBytesError;
use crate::schema::Field;
use crate::schema::FieldKind;
use crate::schema::Schema;
use crate::schema::field_max_bits;
use crate::schema::field_min_bits;
use crate::schema::field_shape_ok;
use crate::schema::field_ty_wf;
use crate::schema::fields_max_bits;
use crate::schema::fields_min_bits;
use crate::schema::fields_ty_wf;
use crate::schema::lemma_fields_ty_wf_index;
use crate::schema::list_control_width;
use crate::value::Val;
use crate::value::Value;
use crate::value::elems_valid;
use crate::value::slot_ok;
use crate::value::slot_valid;
use crate::value::slots_valid;
use crate::value::vals_view;

verus! {

broadcast use
    {crate::bits::BitWriter::lemma_bits_len, crate::value::lemma_vals_view_len, crate::value::lemma_vals_view_index};

/// A tail of well-typed fields follows from its members being well typed.
proof fn lemma_fields_ty_wf_from_forall(fields: Seq<Field>, i: int)
    requires
        0 <= i,
        forall|j: int| i <= j < fields.len() ==> #[trigger] field_ty_wf(fields[j]),
    ensures
        fields_ty_wf(fields, i),
    decreases fields.len() - i,
{
    if i < fields.len() {
        assert(field_ty_wf(fields[i]));
        lemma_fields_ty_wf_from_forall(fields, i + 1);
    }
}

impl Schema {
    /// The layout's greatest encoded size in bits, `MAX_BITS`.
    pub fn max_bits(&self) -> (r: usize)
        requires
            self.wf(),
            self.spec_max_bits() <= usize::MAX,
        ensures
            r == self.spec_max_bits(),
        decreases *self, 1nat, 0nat,
    {
        match self {
            Schema::UInt { width } => *width as usize,
            Schema::Boolean => 1,
            Schema::Enum { width, .. } => *width as usize,
            Schema::Wrapper { inner, .. } => inner.max_bits(),
            Schema::Struct { name, fields } => {
                let ghost fseq = fields@;
                let mut total: usize = 0;
                let mut i: usize = 0;
                while i < fields.len()
                    invariant
                        i <= fseq.len(),
                        (*self == Schema::Struct { name: *name, fields: *fields }),
                        self.wf(),
                        fields@ == fseq,
                        forall|k2: int|
                            0 <= k2 < fseq.len() ==> #[trigger] field_shape_ok(fseq, k2),
                        fields_ty_wf(fseq, 0),
                        total + fields_max_bits(fseq, i as int) == fields_max_bits(fseq, 0),
                        fields_max_bits(fseq, 0) <= usize::MAX,
                    decreases fseq.len() - i,
                {
                    let ghost ii = i as int;
                    proof {
                        lemma_fields_ty_wf_index(fseq, ii);
                        assert(field_shape_ok(fseq, ii));
                        assert(fields_max_bits(fseq, ii) == field_max_bits(fseq, ii)
                            + fields_max_bits(fseq, ii + 1));
                        assert(decreases_to!(*self => *fields));
                        assert(decreases_to!(*fields => fseq));
                        assert(decreases_to!(fseq => fseq[ii]));
                    }
                    let c: usize = match &fields[i].kind {
                        FieldKind::Scalar { ty } => ty.max_bits(),
                        FieldKind::Padding { bits } => *bits as usize,
                        FieldKind::OptionControl { .. } => 1,
                        FieldKind::ListControl { width, .. } => *width as usize,
                        FieldKind::OptionField { ty, .. } => ty.max_bits(),
                        FieldKind::ListField { control, ty } => {
                            let ghost w = list_control_width(fseq, *control as int);
                            proof {
                                assert(field_shape_ok(fseq, *control as int));
                                assert(1 <= w <= 64);
                                lemma2_to64();
                                lemma2_to64_rest();
                                lemma_pow2_strictly_increases(0, w);
                                vstd::arithmetic::power2::lemma_pow2_pos(w);
                                assert(field_max_bits(fseq, ii) == ((pow2(w) - 1) as nat)
                                    * ty.spec_max_bits());
                                assert(ty.spec_max_bits() <= field_max_bits(fseq, ii)) by {
                                    let m0 = ty.spec_max_bits() as int;
                                    let lw = (pow2(w) - 1) as int;
                                    vstd::arithmetic::mul::lemma_mul_basics(m0);
                                    lemma_mul_inequality(1, lw, m0);
                                    lemma_mul_is_commutative(1, m0);
                                    lemma_mul_is_commutative(lw, m0);
                                }
                            }
                            let m = ty.max_bits();
                            if m == 0 {
                                0
                            } else {
                                let maxw = match &fields[*control].kind {
                                    FieldKind::ListControl { width, .. } => *width,
                                    _ => vstd::pervasive::unreached(),
                                };
                                let maxlen: u64 = if maxw == 64 {
                                    u64::MAX
                                } else {
                                    pow2_u64(maxw as usize) - 1
                                };
                                proof {
                                    assert(maxlen as nat == (pow2(w) - 1) as nat);
                                    assert((pow2(w) - 1) as nat <= field_max_bits(fseq, ii)) by {
                                        let m0 = ty.spec_max_bits() as int;
                                        let lw = (pow2(w) - 1) as int;
                                        vstd::arithmetic::mul::lemma_mul_basics(lw);
                                        lemma_mul_inequality(1, m0, lw);
                                        lemma_mul_is_commutative(1, lw);
                                        lemma_mul_is_commutative(m0, lw);
                                    }
                                }
                                (maxlen as usize) * m
                            }
                        },
                        FieldKind::Array { len, ty } => {
                            if *len == 0 {
                                proof {
                                    vstd::arithmetic::mul::lemma_mul_basics(
                                        ty.spec_max_bits() as int,
                                    );
                                }
                                0
                            } else {
                                proof {
                                    assert(ty.spec_max_bits() * 1 <= ty.spec_max_bits() * (
                                    *len as int)) by {
                                        lemma_mul_inequality(
                                            1,
                                            *len as int,
                                            ty.spec_max_bits() as int,
                                        );
                                        lemma_mul_is_commutative(1, ty.spec_max_bits() as int);
                                        lemma_mul_is_commutative(
                                            *len as int,
                                            ty.spec_max_bits() as int,
                                        );
                                    }
                                    assert(field_max_bits(fseq, ii) == (*len as nat)
                                        * ty.spec_max_bits());
                                    lemma_mul_is_commutative(
                                        *len as int,
                                        ty.spec_max_bits() as int,
                                    );
                                }
                                let m = ty.max_bits();
                                *len * m
                            }
                        },
                    };
                    total = total + c;
                    i = i + 1;
                }
                total
            },
        }
    }

    /// The layout's least encoded size in bits, `MIN_BITS`.
    pub fn min_bits(&self) -> (r: usize)
        requires
            self.wf(),
            self.spec_min_bits() <= usize::MAX,
        ensures
            r == self.spec_min_bits(),
        decreases *self, 1nat, 0nat,
    {
        match self {
            Schema::UInt { width } => *width as usize,
            Schema::Boolean => 1,
            Schema::Enum { width, .. } => *width as usize,
            Schema::Wrapper { inner, .. } => inner.min_bits(),
            Schema::Struct { name, fields } => {
                let ghost fseq = fields@;
                let mut total: usize = 0;
                let mut i: usize = 0;
                while i < fields.len()
                    invariant
                        i <= fseq.len(),
                        (*self == Schema::Struct { name: *name, fields: *fields }),
                        self.wf(),
                        fields@ == fseq,
                        forall|k2: int|
                            0 <= k2 < fseq.len() ==> #[trigger] field_shape_ok(fseq, k2),
                        fields_ty_wf(fseq, 0),
                        total + fields_min_bits(fseq, i as int) == fields_min_bits(fseq, 0),
                        fields_min_bits(fseq, 0) <= usize::MAX,
                    decreases fseq.len() - i,
                {
                    let ghost ii = i as int;
                    proof {
                        lemma_fields_ty_wf_index(fseq, ii);
                        assert(field_shape_ok(fseq, ii));
                        assert(fields_min_bits(fseq, ii) == field_min_bits(fseq, ii)
                            + fields_min_bits(fseq, ii + 1));
                        assert(decreases_to!(*self => *fields));
                        assert(decreases_to!(*fields => fseq));
                        assert(decreases_to!(fseq => fseq[ii]));
                    }
                    let c: usize = match &fields[i].kind {
                        FieldKind::Scalar { ty } => ty.min_bits(),
                        FieldKind::Padding { bits } => *bits as usize,
                        FieldKind::OptionControl { .. } => 1,
                        FieldKind::ListControl { width, .. } => *width as usize,
                        FieldKind::OptionField { .. } => 0,
                        FieldKind::ListField { .. } => 0,
                        FieldKind::Array { len, ty } => {
                            if *len == 0 {
                                proof {
                                    vstd::arithmetic::mul::lemma_mul_basics(
                                        ty.spec_min_bits() as int,
                                    );
                                }
                                0
                            } else {
                                proof {
                                    assert(ty.spec_min_bits() * 1 <= ty.spec_min_bits() * (
                                    *len as int)) by {
                                        lemma_mul_inequality(
                                            1,
                                            *len as int,
                                            ty.spec_min_bits() as int,
                                        );
                                        lemma_mul_is_commutative(1, ty.spec_min_bits() as int);
                                        lemma_mul_is_commutative(
                                            *len as int,
                                            ty.spec_min_bits() as int,
                                        );
                                    }
                                    assert(field_min_bits(fseq, ii) == (*len as nat)
                                        * ty.spec_min_bits());
                                    lemma_mul_is_commutative(
                                        *len as int,
                                        ty.spec_min_bits() as int,
                                    );
                                }
                                let m = ty.min_bits();
                                *len * m
                            }
                        },
                    };
                    total = total + c;
                    i = i + 1;
                }
                total
            },
        }
    }

    /// Encode a value of this layout into exactly
    /// `ceil(bits_written / 8)` bytes, unused trailing bits left zero.
    /// The result — bytes or error — is exactly `spec_encode`'s: in
    /// particular the buffer-size failure never comes back, since the
    /// buffer is sized from the layout's maximum bit count.
    pub fn to_abstract_bits(&self, value: &Value) -> (r: Result<Vec<u8>, ToBytesError>)
        requires
            self.wf(),
            value@.valid_for(*self),
            self.spec_max_bits() + 16 <= usize::MAX,
        ensures
            match r {
                Ok(bytes) => {
                    &&& spec_encode(*self, value@) matches Ok(bs)
                    &&& bytes@.len() == (bs.len() + 7) / 8
                    &&& forall|j: int| 0 <= j < bs.len() ==> stream_of(bytes@)[j] == bs[j]
                    &&& forall|j: int|
                        bs.len() <= j < 8 * bytes@.len() ==> !stream_of(bytes@)[j]
                },
                Err(e) => spec_encode(*self, value@) == Err::<Seq<bool>, ToBytesError>(e),
            },
    {
        let cap_bits = self.max_bits();
        let n_bytes = (cap_bits + 7) / 8;
        proof {
            lemma_fundamental_div_mod(cap_bits as int + 7, 8);
            assert(8 * n_bytes <= cap_bits + 7);
            assert(8 * n_bytes >= cap_bits);
        }
        let mut writer = BitWriter::new(n_bytes);
        match self.write_abstract_bits(value, &mut writer) {
            Ok(()) => {
                proof {
                    let bs = spec_encode(*self, value@)->Ok_0;
                    assert(writer.bits() =~= bs);
                }
                Ok(writer.into_vec())
            },
            Err(e) => Err(e),
        }
    }

    /// Decode a value of this layout from the start of `bytes`,
    /// exactly as `spec_decode` says. Unread trailing bytes are not an
    /// error.
    pub fn from_abstract_bits(&self, bytes: &[u8]) -> (r: Result<Value, FromBytesError>)
        requires
            self.wf(),
            8 * bytes@.len() + 8 <= usize::MAX,
        ensures
            match r {
                Ok(v) => spec_decode(*self, stream_of(bytes@), 0) matches Ok(p) && p.0 == v@,
                Err(e) => spec_decode(*self, stream_of(bytes@), 0) == Err::<
                    (crate::value::Val, int),
                    FromBytesError,
                >(e),
            },
    {
        let mut reader = BitReader::new(bytes);
        self.read_abstract_bits(&mut reader)
    }

    /// Whether one field's local shape is acceptable: widths in range
    /// and control references paired with the field they govern.
    fn field_shape_check(fields: &Vec<Field>, i: usize) -> (r: bool)
        requires
            i < fields@.len(),
        ensures
            r == field_shape_ok(fields@, i as int),
    {
        match &fields[i].kind {
            FieldKind::Scalar { .. } => true,
            FieldKind::Padding { bits } => 1 <= *bits && *bits <= 64,
            FieldKind::OptionControl { controlled } => {
                if i < *controlled && *controlled < fields.len() {
                    match &fields[*controlled].kind {
                        FieldKind::OptionField { control, .. } => *control == i,
                        _ => false,
                    }
                } else {
                    false
                }
            },
            FieldKind::ListControl { width, controlled } => {
                if 1 <= *width && *width <= 64 && i < *controlled && *controlled
                    < fields.len() {
                    match &fields[*controlled].kind {
                        FieldKind::ListField { control, .. } => *control == i,
                        _ => false,
                    }
                } else {
                    false
                }
            },
            FieldKind::OptionField { control, .. } => {
                if *control < i {
                    match &fields[*control].kind {
                        FieldKind::OptionControl { controlled } => *controlled == i,
                        _ => false,
                    }
                } else {
                    false
                }
            },
            FieldKind::ListField { control, .. } => {
                if *control < i {
                    match &fields[*control].kind {
                        FieldKind::ListControl { controlled, .. } => *controlled == i,
                        _ => false,
                    }
                } else {
                    false
                }
            },
            FieldKind::Array { .. } => true,
        }
    }

    /// Whether this layout is well formed: the executable form of
    /// [`Schema::wf`], for schemas assembled at run time.
    pub fn is_well_formed(&self) -> (r: bool)
        ensures
            r == self.wf(),
        decreases *self, 1nat, 0nat,
    {
        match self {
            Schema::UInt { width } => 1 <= *width && *width <= 64,
            Schema::Boolean => true,
            Schema::Enum { name, width, tags } => {
                if !(1 <= *width && *width <= 64 && tags.len() >= 1) {
                    return false;
                }
                proof {
                    lemma2_to64();
                    lemma2_to64_rest();
                    if (*width as nat) < 64 {
                        lemma_pow2_strictly_increases(*width as nat, 64);
                    }
                }
                if *width == 64 {
                    return true;
                }
                let lim: u64 = pow2_u64(*width as usize);
                let mut j: usize = 0;
                while j < tags.len()
                    invariant
                        j <= tags@.len(),
                        tags@.len() >= 1,
                        (*self == Schema::Enum { name: *name, width: *width, tags: *tags }),
                        1 <= *width <= 64,
                        lim as nat == pow2(*width as nat),
                        forall|k: int|
                            0 <= k < j ==> (#[trigger] tags@[k] as nat) < pow2(*width as nat),
                    decreases tags@.len() - j,
                {
                    if tags[j] >= lim {
                        proof {
                            if self.wf() {
                                assert((tags@[j as int] as nat) < pow2(*width as nat));
                            }
                        }
                        return false;
                    }
                    j = j + 1;
                }
                true
            },
            Schema::Wrapper { inner, .. } => inner.is_well_formed(),
            Schema::Struct { name, fields } => {
                let ghost fseq = fields@;
                if fields.len() == 0 {
                    return false;
                }
                let mut i: usize = 0;
                while i < fields.len()
                    invariant
                        i <= fseq.len(),
                        (*self == Schema::Struct { name: *name, fields: *fields }),
                        fields@ == fseq,
                        forall|k: int| 0 <= k < i ==> #[trigger] field_shape_ok(fseq, k),
                        forall|k: int| 0 <= k < i ==> #[trigger] field_ty_wf(fseq[k]),
                    decreases fseq.len() - i,
                {
                    let ghost ii = i as int;
                    proof {
                        match self {
                            Schema::Struct { name: n2, fields: f2 } => {
                                assert(*f2 == *fields);
                                assert(decreases_to!(*self => *f2));
                            },
                            _ => {
                                assert(false);
                            },
                        }
                        assert(decreases_to!(*self => *fields));
                        assert(decreases_to!(*fields => fseq));
                        assert(decreases_to!(fseq => fseq[ii]));
                    }
                    if !Self::field_shape_check(fields, i) {
                        return false;
                    }
                    let ty_ok = match &fields[i].kind {
                        FieldKind::Scalar { ty } => ty.is_well_formed(),
                        FieldKind::OptionField { ty, .. } => ty.is_well_formed(),
                        FieldKind::ListField { ty, .. } => ty.is_well_formed(),
                        FieldKind::Array { ty, .. } => ty.is_well_formed(),
                        _ => true,
                    };
                    if !ty_ok {
                        proof {
                            if fields_ty_wf(fseq, 0) {
                                lemma_fields_ty_wf_index(fseq, ii);
                            }
                        }
                        return false;
                    }
                    i = i + 1;
                }
                proof {
                    lemma_fields_ty_wf_from_forall(fseq, 0);
                }
                true
            },
        }
    }
}

/// A tail of valid slots follows from its members being valid.
proof fn lemma_slots_valid_from_forall(fields: Seq<Field>, vals: Seq<Val>, i: int)
    requires
        0 <= i,
        forall|j: int| i <= j < fields.len() ==> #[trigger] slot_valid(fields, vals, j),
    ensures
        slots_valid(fields, vals, i),
    decreases fields.len() - i,
{
    if i < fields.len() {
        assert(slot_valid(fields, vals, i));
        lemma_slots_valid_from_forall(fields, vals, i + 1);
    }
}

/// A tail of valid elements follows from its members being valid.
proof fn lemma_elems_valid_from_forall(ty: Schema, es: Seq<Val>, k: int)
    requires
        0 <= k,
        forall|j: int| k <= j < es.len() ==> #[trigger] es[j].valid_for(ty),
    ensures
        elems_valid(ty, es, k),
    decreases es.len() - k,
{
    if k < es.len() {
        assert(es[k].valid_for(ty));
        lemma_elems_valid_from_forall(ty, es, k + 1);
    }
}

/// Whether `x` fits in `width` bits.
fn fits_width(x: u64, width: u64) -> (r: bool)
    requires
        1 <= width <= 64,
    ensures
        r == ((x as nat) < pow2(width as nat)),
{
    proof {
        lemma2_to64();
        lemma2_to64_rest();
        if (width as nat) < 64 {
            lemma_pow2_strictly_increases(width as nat, 64);
        }
    }
    if width == 64 {
        true
    } else {
        x < pow2_u64(width as usize)
    }
}

/// Whether every element conforms to the element layout.
fn elems_conform(ty: &Schema, es: &Vec<Value>) -> (r: bool)
    requires
        ty.wf(),
    ensures
        r == elems_valid(*ty, vals_view(es@), 0),
    decreases *ty, 2nat, 0nat,
{
    let ghost esv = vals_view(es@);
    let mut k: usize = 0;
    while k < es.len()
        invariant
            k <= es@.len(),
            ty.wf(),
            esv == vals_view(es@),
            esv.len() == es@.len(),
            forall|j: int| 0 <= j < k ==> #[trigger] esv[j].valid_for(*ty),
        decreases es@.len() - k,
    {
        if !es[k].conforms_to(ty) {
            proof {
                if elems_valid(*ty, esv, 0) {
                    crate::bounds::lemma_elems_valid_suffix(*ty, esv, 0, k as int);
                }
            }
            return false;
        }
        k = k + 1;
    }
    proof {
        lemma_elems_valid_from_forall(*ty, esv, 0);
    }
    true
}

impl Value {
    /// Whether this value conforms to layout `s`: the executable form
    /// of [`Val::valid_for`], so a caller can establish what encode
    /// requires before asking for bytes.
    pub fn conforms_to(&self, s: &Schema) -> (r: bool)
        requires
            s.wf(),
        ensures
            r == self@.valid_for(*s),
        decreases *s, 1nat, 0nat,
    {
        match s {
            Schema::UInt { width } => match self {
                Value::Uint(x) => fits_width(*x, *width),
                Value::Bool(_) => false,
                Value::Unit => false,
                Value::Opt(_) => false,
                Value::List(_) => false,
                Value::Struct(_) => false,
                Value::Enum(_) => false,
            },
            Schema::Boolean => match self {
                Value::Bool(_) => true,
                Value::Uint(_) => false,
                Value::Unit => false,
                Value::Opt(_) => false,
                Value::List(_) => false,
                Value::Struct(_) => false,
                Value::Enum(_) => false,
            },
            Schema::Enum { tags, .. } => match self {
                Value::Enum(t) => crate::decode::tags_contain(tags, *t),
                Value::Uint(_) => false,
                Value::Bool(_) => false,
                Value::Unit => false,
                Value::Opt(_) => false,
                Value::List(_) => false,
                Value::Struct(_) => false,
            },
            Schema::Wrapper { inner, .. } => self.conforms_to(inner),
            Schema::Struct { name, fields } => match self {
                Value::Struct(vals) => Self::slots_conform(s, name, fields, vals),
                Value::Uint(_) => false,
                Value::Bool(_) => false,
                Value::Unit => false,
                Value::Opt(_) => false,
                Value::List(_) => false,
                Value::Enum(_) => false,
            },
        }
    }

    /// Whether a struct value's slots line up with the fields.
    #[verifier::rlimit(100)]
    #[verifier::spinoff_prover]
    fn slots_conform(
        s: &Schema,
        name: &&'static str,
        fields: &Vec<Field>,
        vals: &Vec<Value>,
    ) -> (r: bool)
        requires
            s.wf(),
            (*s == Schema::Struct { name: *name, fields: *fields }),
        ensures
            r == Val::Struct(vals_view(vals@)).valid_for(*s),
        decreases *s, 0nat, 0nat,
    {
        let ghost fseq = fields@;
        let ghost valsv = vals_view(vals@);
        if vals.len() != fields.len() {
            return false;
        }
        let mut i: usize = 0;
        while i < fields.len()
            invariant
                i <= fseq.len(),
                s.wf(),
                (*s == Schema::Struct { name: *name, fields: *fields }),
                fields@ == fseq,
                valsv == vals_view(vals@),
                valsv.len() == fseq.len(),
                vals@.len() == fseq.len(),
                forall|j: int| 0 <= j < i ==> #[trigger] slot_valid(fseq, valsv, j),
            decreases fseq.len() - i,
        {
            let ghost ii = i as int;
            proof {
                match s {
                    Schema::Struct { name: n2, fields: f2 } => {
                        assert(*f2 == *fields);
                        assert(decreases_to!(*s => *f2));
                    },
                    _ => {
                        assert(false);
                    },
                }
                assert(decreases_to!(*s => *fields));
                assert(decreases_to!(*fields => fseq));
                assert(decreases_to!(fseq => fseq[ii]));
                lemma_fields_ty_wf_index(fseq, ii);
                assert(field_shape_ok(fseq, ii));
            }
            let ok = match &fields[i].kind {
                FieldKind::Scalar { ty } => vals[i].conforms_to(ty),
                FieldKind::Padding { .. } => match &vals[i] {
                    Value::Unit => true,
                    Value::Uint(_) => false,
                    Value::Bool(_) => false,
                    Value::Opt(_) => false,
                    Value::List(_) => false,
                    Value::Struct(_) => false,
                    Value::Enum(_) => false,
                },
                FieldKind::OptionControl { .. } => match &vals[i] {
                    Value::Bool(_) => true,
                    Value::Uint(_) => false,
                    Value::Unit => false,
                    Value::Opt(_) => false,
                    Value::List(_) => false,
                    Value::Struct(_) => false,
                    Value::Enum(_) => false,
                },
                FieldKind::ListControl { width, .. } => match &vals[i] {
                    Value::Uint(x) => fits_width(*x, *width),
                    Value::Bool(_) => false,
                    Value::Unit => false,
                    Value::Opt(_) => false,
                    Value::List(_) => false,
                    Value::Struct(_) => false,
                    Value::Enum(_) => false,
                },
                FieldKind::OptionField { ty, .. } => match &vals[i] {
                    Value::Opt(o) => match o {
                        Some(b) => b.conforms_to(ty),
                        None => true,
                    },
                    Value::Uint(_) => false,
                    Value::Bool(_) => false,
                    Value::Unit => false,
                    Value::List(_) => false,
                    Value::Struct(_) => false,
                    Value::Enum(_) => false,
                },
                FieldKind::ListField { ty, .. } => match &vals[i] {
                    Value::List(es) => elems_conform(ty, es),
                    Value::Uint(_) => false,
                    Value::Bool(_) => false,
                    Value::Unit => false,
                    Value::Opt(_) => false,
                    Value::Struct(_) => false,
                    Value::Enum(_) => false,
                },
                FieldKind::Array { len, ty } => match &vals[i] {
                    Value::List(es) => es.len() == *len && elems_conform(ty, es),
                    Value::Uint(_) => false,
                    Value::Bool(_) => false,
                    Value::Unit => false,
                    Value::Opt(_) => false,
                    Value::Struct(_) => false,
                    Value::Enum(_) => false,
                },
            };
            if !ok {
                proof {
                    assert(!slot_ok(fseq, ii, valsv[ii])) by {
                        match fseq[ii].kind {
                            FieldKind::Scalar { ty } => {
                                assert(!valsv[ii].valid_for(ty));
                            },
                            FieldKind::Padding { .. } => {
                                assert(!(valsv[ii] is Unit));
                            },
                            FieldKind::OptionControl { .. } => {
                                assert(!(valsv[ii] is Bool));
                            },
                            FieldKind::ListControl { .. } => {},
                            FieldKind::OptionField { .. } => {},
                            FieldKind::ListField { .. } => {},
                            FieldKind::Array { .. } => {},
                        }
                    }
                    if slots_valid(fseq, valsv, 0) {
                        crate::bounds::lemma_slots_valid_suffix(fseq, valsv, 0, ii);
                    }
                }
                return false;
            }
            i = i + 1;
        }
        proof {
            lemma_slots_valid_from_forall(fseq, valsv, 0);
        }
        true
    }
}

} // verus!
