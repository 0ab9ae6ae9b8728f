//! The schema model: a structural, declaration-derived description of a
//! type's wire layout.
//!
//! A [`Schema`] is an exact-width unsigned integer, a boolean, an enum
//! with a fixed-width discriminant and declared tags, a transparent
//! wrapper around one inner layout, or a struct: an ordered field list in
//! which an earlier control field may govern the presence of a later
//! optional field or the length of a later list field. Control
//! relationships are recorded on both ends, by field index, and
//! [`Schema::wf`] ties the two ends together.

use vstd::prelude::*;
use vstd::arithmetic::power2::pow2;

verus! {

/// One named slot in a struct's wire layout.
#[derive(Debug, PartialEq, Eq)]
pub struct Field {
    /// The field's identifier, used in error context.
    pub name: &'static str,
    /// How the field is laid out on the wire.
    pub kind: FieldKind,
}

/// The layout kind of one struct field.
#[derive(Debug, PartialEq, Eq)]
pub enum FieldKind {
    /// A plain stored value with the given layout.
    Scalar { ty: Schema },
    /// Reserved bits carrying no value, skipped in both directions.
    Padding { bits: u64 },
    /// A stored boolean that dictates the presence of the later optional
    /// field at index `controlled`. One bit on the wire.
    OptionControl { controlled: usize },
    /// A stored integer of `width` bits that dictates the element count
    /// of the later list field at index `controlled`.
    ListControl { width: u64, controlled: usize },
    /// An optional value whose presence the earlier boolean control at
    /// index `control` dictates. Occupies no bits when absent.
    OptionField { control: usize, ty: Schema },
    /// A variable-length sequence whose element count the earlier integer
    /// control at index `control` dictates.
    ListField { control: usize, ty: Schema },
    /// A fixed-length homogeneous sequence of `len` elements.
    Array { len: usize, ty: Schema },
}

/// A type's wire layout.
#[derive(Debug, PartialEq, Eq)]
pub enum Schema {
    /// An exact-width unsigned integer of 1 to 64 bits.
    UInt { width: u64 },
    /// A single bit holding a boolean.
    Boolean,
    /// A fixed-width discriminant with the set of declared tag values.
    Enum { name: &'static str, width: u64, tags: Vec<u64> },
    /// A transparent wrapper: full delegation to the single inner layout.
    Wrapper { name: &'static str, inner: Box<Schema> },
    /// An ordered list of fields, encoded in declaration order.
    Struct { name: &'static str, fields: Vec<Field> },
}

/// The local, non-recursive conditions on field `i` of a struct: widths
/// in range, and control references paired up with the field they govern.
pub open spec fn field_shape_ok(fields: Seq<Field>, i: int) -> bool {
    match fields[i].kind {
        FieldKind::Scalar { .. } => true,
        FieldKind::Padding { bits } => 1 <= bits <= 64,
        FieldKind::OptionControl { controlled } => {
            &&& i < controlled < fields.len()
            &&& match fields[controlled as int].kind {
                FieldKind::OptionField { control, .. } => control == i,
                _ => false,
            }
        },
        FieldKind::ListControl { width, controlled } => {
            &&& 1 <= width <= 64
            &&& i < controlled < fields.len()
            &&& match fields[controlled as int].kind {
                FieldKind::ListField { control, .. } => control == i,
                _ => false,
            }
        },
        FieldKind::OptionField { control, .. } => {
            &&& control < i
            &&& match fields[control as int].kind {
                FieldKind::OptionControl { controlled } => controlled == i,
                _ => false,
            }
        },
        FieldKind::ListField { control, .. } => {
            &&& control < i
            &&& match fields[control as int].kind {
                FieldKind::ListControl { controlled, .. } => controlled == i,
                _ => false,
            }
        },
        FieldKind::Array { .. } => true,
    }
}

/// The layout nested in one field kind, if any, is well formed.
pub open spec fn field_ty_wf(f: Field) -> bool
    decreases f, 0nat, 0nat,
{
    match f.kind {
        FieldKind::Scalar { ty } => ty.wf(),
        FieldKind::OptionField { ty, .. } => ty.wf(),
        FieldKind::ListField { ty, .. } => ty.wf(),
        FieldKind::Array { ty, .. } => ty.wf(),
        _ => true,
    }
}

/// Every layout nested in `fields[i..]` is well formed.
pub open spec fn fields_ty_wf(fields: Seq<Field>, i: int) -> bool
    decreases fields, 1nat, fields.len() - i,
{
    if i < 0 || i >= fields.len() {
        true
    } else {
        field_ty_wf(fields[i]) && fields_ty_wf(fields, i + 1)
    }
}

/// From the whole list being well typed, each member is.
pub proof fn lemma_fields_ty_wf_index(fields: Seq<Field>, i: int)
    requires
        fields_ty_wf(fields, 0),
        0 <= i < fields.len(),
    ensures
        field_ty_wf(fields[i]),
{
    lemma_fields_ty_wf_suffix(fields, 0, i);
}

/// `fields_ty_wf` at an earlier index covers every later suffix.
pub proof fn lemma_fields_ty_wf_suffix(fields: Seq<Field>, i: int, j: int)
    requires
        fields_ty_wf(fields, i),
        0 <= i <= j < fields.len(),
    ensures
        fields_ty_wf(fields, j),
        field_ty_wf(fields[j]),
    decreases j - i,
{
    if i < j {
        lemma_fields_ty_wf_suffix(fields, i + 1, j);
    }
}

impl Schema {
    /// Well-formedness: widths lie in 1 to 64, every enum tag fits its
    /// declared width, every control reference points at a matching
    /// later field that points back, and nested layouts are well formed.
    pub open spec fn wf(self) -> bool
        decreases self, 0nat, 0nat,
    {
        match self {
            Schema::UInt { width } => 1 <= width <= 64,
            Schema::Boolean => true,
            Schema::Enum { width, tags, .. } => {
                &&& 1 <= width <= 64
                &&& tags@.len() >= 1
                &&& forall|i: int|
                    0 <= i < tags@.len() ==> (#[trigger] tags@[i] as nat) < pow2(width as nat)
            },
            Schema::Wrapper { inner, .. } => (*inner).wf(),
            Schema::Struct { fields, .. } => {
                &&& fields@.len() >= 1
                &&& forall|i: int| 0 <= i < fields@.len() ==> #[trigger] field_shape_ok(fields@, i)
                &&& fields_ty_wf(fields@, 0)
            },
        }
    }

    /// The least number of bits any value of this layout occupies.
    pub open spec fn spec_min_bits(self) -> nat
        decreases self, 0nat, 0nat,
    {
        match self {
            Schema::UInt { width } => width as nat,
            Schema::Boolean => 1,
            Schema::Enum { width, .. } => width as nat,
            Schema::Wrapper { inner, .. } => (*inner).spec_min_bits(),
            Schema::Struct { fields, .. } => fields_min_bits(fields@, 0),
        }
    }

    /// The greatest number of bits any value of this layout occupies.
    pub open spec fn spec_max_bits(self) -> nat
        decreases self, 0nat, 0nat,
    {
        match self {
            Schema::UInt { width } => width as nat,
            Schema::Boolean => 1,
            Schema::Enum { width, .. } => width as nat,
            Schema::Wrapper { inner, .. } => (*inner).spec_max_bits(),
            Schema::Struct { fields, .. } => fields_max_bits(fields@, 0),
        }
    }
}

/// The least bit count contributed by field `i`: a scalar's own width,
/// padding and control widths, nothing for optional and list bodies.
pub open spec fn field_min_bits(fields: Seq<Field>, i: int) -> nat
    decreases fields, 0nat, 0nat,
{
    if i < 0 || i >= fields.len() {
        0
    } else {
        match fields[i].kind {
        FieldKind::Scalar { ty } => ty.spec_min_bits(),
        FieldKind::Padding { bits } => bits as nat,
        FieldKind::OptionControl { .. } => 1,
        FieldKind::ListControl { width, .. } => width as nat,
        FieldKind::OptionField { .. } => 0,
        FieldKind::ListField { .. } => 0,
        FieldKind::Array { len, ty } => (len as nat) * ty.spec_min_bits(),
        }
    }
}

/// The least bit count of the fields from `i` on.
pub open spec fn fields_min_bits(fields: Seq<Field>, i: int) -> nat
    decreases fields, 1nat, fields.len() - i,
{
    if i < 0 || i >= fields.len() {
        0
    } else {
        field_min_bits(fields, i) + fields_min_bits(fields, i + 1)
    }
}

/// The width of the list control that governs field `i`, under `wf`.
pub open spec fn list_control_width(fields: Seq<Field>, control: int) -> nat {
    match fields[control].kind {
        FieldKind::ListControl { width, .. } => width as nat,
        _ => 0,
    }
}

/// The greatest bit count contributed by field `i`: an optional body
/// counts its full inner size, a list body its inner size times the
/// longest length its control can express.
pub open spec fn field_max_bits(fields: Seq<Field>, i: int) -> nat
    decreases fields, 0nat, 0nat,
{
    if i < 0 || i >= fields.len() {
        0
    } else {
        match fields[i].kind {
        FieldKind::Scalar { ty } => ty.spec_max_bits(),
        FieldKind::Padding { bits } => bits as nat,
        FieldKind::OptionControl { .. } => 1,
        FieldKind::ListControl { width, .. } => width as nat,
        FieldKind::OptionField { ty, .. } => ty.spec_max_bits(),
        FieldKind::ListField { control, ty } => ((pow2(
            list_control_width(fields, control as int),
        ) - 1) as nat) * ty.spec_max_bits(),
        FieldKind::Array { len, ty } => (len as nat) * ty.spec_max_bits(),
        }
    }
}

/// The greatest bit count of the fields from `i` on.
pub open spec fn fields_max_bits(fields: Seq<Field>, i: int) -> nat
    decreases fields, 1nat, fields.len() - i,
{
    if i < 0 || i >= fields.len() {
        0
    } else {
        field_max_bits(fields, i) + fields_max_bits(fields, i + 1)
    }
}

} // verus!
