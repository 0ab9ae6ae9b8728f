//! Runtime values interpreted against a [`Schema`].
//!
//! A struct value carries one slot per schema field, in declaration
//! order: stored control fields keep their own slot, and padding holds
//! the empty unit value. The executable form is [`Value`]; its
//! mathematical form is [`Val`], with sequences in place of vectors,
//! and `@` maps one to the other. Validity ([`Val::valid_for`]) is
//! shape conformance alone — it does not tie a control field to the
//! field it governs, since hand-built values may disagree and encode
//! must reject them at run time. That agreement is
//! [`Val::consistent_with`].

use vstd::prelude::*;
use vstd::arithmetic::power2::pow2;
use crate::schema::Field;
use crate::schema::FieldKind;
use crate::schema::Schema;

verus! {

/// A runtime value shaped by some schema.
#[derive(Debug, PartialEq, Eq)]
pub enum Value {
    /// An exact-width unsigned integer.
    Uint(u64),
    /// A boolean.
    Bool(bool),
    /// The contents of a padding slot: no value at all.
    Unit,
    /// An optional value.
    Opt(Option<Box<Value>>),
    /// The elements of a list or fixed array field, in order.
    List(Vec<Value>),
    /// One slot per field of a struct schema, in declaration order.
    Struct(Vec<Value>),
    /// An enum value: the declared tag it carries.
    Enum(u64),
}

/// The mathematical form of a [`Value`].
pub enum Val {
    /// An exact-width unsigned integer.
    Uint(u64),
    /// A boolean.
    Bool(bool),
    /// The contents of a padding slot.
    Unit,
    /// An optional value.
    Opt(Option<Box<Val>>),
    /// The elements of a list or fixed array field, in order.
    List(Seq<Val>),
    /// One slot per field of a struct schema, in declaration order.
    Struct(Seq<Val>),
    /// An enum value: the declared tag it carries.
    Enum(u64),
}

/// The views of a vector of values, element by element.
pub open spec fn vals_view(vs: Seq<Value>) -> Seq<Val>
    decreases vs, 0nat,
{
    if vs.len() == 0 {
        Seq::empty()
    } else {
        vals_view(vs.drop_last()).push(vs.last()@)
    }
}

/// A vector's view has one element per entry.
pub broadcast proof fn lemma_vals_view_len(vs: Seq<Value>)
    ensures
        #[trigger] vals_view(vs).len() == vs.len(),
    decreases vs.len(),
{
    if vs.len() == 0 {
        assert(vals_view(vs) == Seq::<Val>::empty());
    } else {
        lemma_vals_view_len(vs.drop_last());
        assert(vals_view(vs) == vals_view(vs.drop_last()).push(vs.last()@));
    }
}

/// The view of entry `i` is element `i` of the view.
pub broadcast proof fn lemma_vals_view_index(vs: Seq<Value>, i: int)
    requires
        0 <= i < vs.len(),
    ensures
        #[trigger] vals_view(vs)[i] == vs[i]@,
    decreases vs.len(),
{
    let dl = vs.drop_last();
    lemma_vals_view_len(dl);
    assert(vals_view(vs) == vals_view(dl).push(vs.last()@));
    if i < vs.len() - 1 {
        lemma_vals_view_index(dl, i);
        assert(dl[i] == vs[i]);
        assert(vals_view(dl).push(vs.last()@)[i] == vals_view(dl)[i]);
    } else {
        assert(i == vs.len() - 1);
        assert(vals_view(dl).push(vs.last()@)[i] == vs.last()@);
        assert(vs.last() == vs[i]);
    }
}

/// Appending an entry appends its view.
pub broadcast proof fn lemma_vals_view_push(vs: Seq<Value>, x: Value)
    ensures
        #[trigger] vals_view(vs.push(x)) == vals_view(vs).push(x@),
{
    let p = vs.push(x);
    assert(p.drop_last() =~= vs);
    assert(p.last() == x);
    assert(vals_view(p) == vals_view(p.drop_last()).push(p.last()@));
}

impl View for Value {
    type V = Val;

    open spec fn view(&self) -> Val
        decreases self, 1nat,
    {
        match self {
            Value::Uint(x) => Val::Uint(*x),
            Value::Bool(b) => Val::Bool(*b),
            Value::Unit => Val::Unit,
            Value::Opt(o) => match o {
                Some(b) => Val::Opt(Some(Box::new((**b)@))),
                None => Val::Opt(None),
            },
            Value::List(v) => Val::List(vals_view(v@)),
            Value::Struct(v) => Val::Struct(vals_view(v@)),
            Value::Enum(t) => Val::Enum(*t),
        }
    }
}

impl Val {
    /// Shape conformance of `self` against layout `s`: integers fit
    /// their widths, enum tags are declared, arrays have their exact
    /// length, struct slots line up with fields, padding slots are
    /// unit. Control agreement is deliberately not part of this.
    pub open spec fn valid_for(self, s: Schema) -> bool
        decreases s, 0nat, 0nat,
    {
        match s {
            Schema::UInt { width } => match self {
                Val::Uint(v) => (v as nat) < pow2(width as nat),
                _ => false,
            },
            Schema::Boolean => self is Bool,
            Schema::Enum { tags, .. } => match self {
                Val::Enum(t) => tags@.contains(t),
                _ => false,
            },
            Schema::Wrapper { inner, .. } => self.valid_for(*inner),
            Schema::Struct { fields, .. } => match self {
                Val::Struct(vals) => {
                    &&& vals.len() == fields@.len()
                    &&& slots_valid(fields@, vals, 0)
                },
                _ => false,
            },
        }
    }

    /// Control agreement of `self` against layout `s`: every boolean
    /// control equals the presence of the optional field it governs, and
    /// every integer control equals the length of the list it governs,
    /// recursively. Encode succeeds exactly on valid, consistent values.
    pub open spec fn consistent_with(self, s: Schema) -> bool
        decreases s, 0nat, 0nat,
    {
        match s {
            Schema::Wrapper { inner, .. } => self.consistent_with(*inner),
            Schema::Struct { fields, .. } => match self {
                Val::Struct(vals) => slots_consistent(fields@, vals, 0),
                _ => true,
            },
            _ => true,
        }
    }
}

/// Validity of one would-be slot value against field `i`.
pub open spec fn slot_ok(fields: Seq<Field>, i: int, v: Val) -> bool
    decreases fields, 0nat, 0nat,
{
    if i < 0 || i >= fields.len() {
        true
    } else {
        match fields[i].kind {
            FieldKind::Scalar { ty } => v.valid_for(ty),
            FieldKind::Padding { .. } => v is Unit,
            FieldKind::OptionControl { .. } => v is Bool,
            FieldKind::ListControl { width, .. } => match v {
                Val::Uint(v) => (v as nat) < pow2(width as nat),
                _ => false,
            },
            FieldKind::OptionField { ty, .. } => match v {
                Val::Opt(o) => match o {
                    Some(b) => (*b).valid_for(ty),
                    None => true,
                },
                _ => false,
            },
            FieldKind::ListField { ty, .. } => match v {
                Val::List(elems) => elems_valid(ty, elems, 0),
                _ => false,
            },
            FieldKind::Array { len, ty } => match v {
                Val::List(elems) => {
                    &&& elems.len() == len
                    &&& elems_valid(ty, elems, 0)
                },
                _ => false,
            },
        }
    }
}

/// Validity of the one slot `vals[i]` against field `i`.
pub open spec fn slot_valid(fields: Seq<Field>, vals: Seq<Val>, i: int) -> bool
    decreases fields, 1nat, 0nat,
{
    if i < 0 || i >= fields.len() || i >= vals.len() {
        true
    } else {
        slot_ok(fields, i, vals[i])
    }
}

/// Validity of every slot from `i` on.
pub open spec fn slots_valid(fields: Seq<Field>, vals: Seq<Val>, i: int) -> bool
    decreases fields, 1nat, fields.len() - i,
{
    if i < 0 || i >= fields.len() {
        true
    } else {
        slot_valid(fields, vals, i) && slots_valid(fields, vals, i + 1)
    }
}

/// Validity of every element from `k` on against the element layout.
pub open spec fn elems_valid(ty: Schema, elems: Seq<Val>, k: int) -> bool
    decreases ty, 1nat, elems.len() - k,
{
    if k < 0 || k >= elems.len() {
        true
    } else {
        elems[k].valid_for(ty) && elems_valid(ty, elems, k + 1)
    }
}

/// Control agreement at the one slot `vals[i]`: checked at the governed
/// field, against the stored control slot it names.
pub open spec fn slot_consistent(fields: Seq<Field>, vals: Seq<Val>, i: int) -> bool
    decreases fields, 0nat, 0nat,
{
    if i < 0 || i >= fields.len() || i >= vals.len() {
        true
    } else {
        match fields[i].kind {
            FieldKind::Scalar { ty } => vals[i].consistent_with(ty),
            FieldKind::OptionField { control, ty } => {
                &&& match (vals[control as int], vals[i]) {
                    (Val::Bool(b), Val::Opt(o)) => b == (o is Some),
                    _ => true,
                }
                &&& match vals[i] {
                    Val::Opt(o) => match o {
                        Some(b) => (*b).consistent_with(ty),
                        None => true,
                    },
                    _ => true,
                }
            },
            FieldKind::ListField { control, ty } => {
                &&& match (vals[control as int], vals[i]) {
                    (Val::Uint(c), Val::List(elems)) => c == elems.len(),
                    _ => true,
                }
                &&& match vals[i] {
                    Val::List(elems) => elems_consistent(ty, elems, 0),
                    _ => true,
                }
            },
            FieldKind::Array { ty, .. } => match vals[i] {
                Val::List(elems) => elems_consistent(ty, elems, 0),
                _ => true,
            },
            _ => true,
        }
    }
}

/// Control agreement of every slot from `i` on.
pub open spec fn slots_consistent(fields: Seq<Field>, vals: Seq<Val>, i: int) -> bool
    decreases fields, 1nat, fields.len() - i,
{
    if i < 0 || i >= fields.len() {
        true
    } else {
        slot_consistent(fields, vals, i) && slots_consistent(fields, vals, i + 1)
    }
}

/// Control agreement of every element from `k` on.
pub open spec fn elems_consistent(ty: Schema, elems: Seq<Val>, k: int) -> bool
    decreases ty, 1nat, elems.len() - k,
{
    if k < 0 || k >= elems.len() {
        true
    } else {
        elems[k].consistent_with(ty) && elems_consistent(ty, elems, k + 1)
    }
}

/// The boolean a value carries, if it is a boolean.
pub open spec fn as_bool(v: Val) -> bool {
    match v {
        Val::Bool(b) => b,
        _ => false,
    }
}

/// The integer a value carries, if it is an integer.
pub open spec fn as_uint(v: Val) -> u64 {
    match v {
        Val::Uint(x) => x,
        _ => 0,
    }
}

/// Whether an optional value is present.
pub open spec fn presence(v: Val) -> bool {
    match v {
        Val::Opt(o) => o is Some,
        _ => false,
    }
}

/// The inner value of a present optional value.
pub open spec fn opt_inner(v: Val) -> Val {
    match v {
        Val::Opt(o) => match o {
            Some(b) => *b,
            None => Val::Unit,
        },
        _ => Val::Unit,
    }
}

/// The elements a list or array value carries.
pub open spec fn elems_of(v: Val) -> Seq<Val> {
    match v {
        Val::List(es) => es,
        _ => Seq::empty(),
    }
}

/// The exec form of [`as_uint`].
pub fn take_uint(v: &Value) -> (r: u64)
    requires
        v@ is Uint,
    ensures
        v@ == Val::Uint(r),
{
    match v {
        Value::Uint(x) => *x,
        Value::Bool(_) => vstd::pervasive::unreached(),
        Value::Unit => vstd::pervasive::unreached(),
        Value::Opt(_) => vstd::pervasive::unreached(),
        Value::List(_) => vstd::pervasive::unreached(),
        Value::Struct(_) => vstd::pervasive::unreached(),
        Value::Enum(_) => vstd::pervasive::unreached(),
    }
}

/// The exec form of [`as_bool`].
pub fn take_bool(v: &Value) -> (r: bool)
    requires
        v@ is Bool,
    ensures
        v@ == Val::Bool(r),
{
    match v {
        Value::Bool(b) => *b,
        Value::Uint(_) => vstd::pervasive::unreached(),
        Value::Unit => vstd::pervasive::unreached(),
        Value::Opt(_) => vstd::pervasive::unreached(),
        Value::List(_) => vstd::pervasive::unreached(),
        Value::Struct(_) => vstd::pervasive::unreached(),
        Value::Enum(_) => vstd::pervasive::unreached(),
    }
}

/// The exec form of reading an enum value's tag.
pub fn take_enum(v: &Value) -> (r: u64)
    requires
        v@ is Enum,
    ensures
        v@ == Val::Enum(r),
{
    match v {
        Value::Enum(t) => *t,
        Value::Uint(_) => vstd::pervasive::unreached(),
        Value::Bool(_) => vstd::pervasive::unreached(),
        Value::Unit => vstd::pervasive::unreached(),
        Value::Opt(_) => vstd::pervasive::unreached(),
        Value::List(_) => vstd::pervasive::unreached(),
        Value::Struct(_) => vstd::pervasive::unreached(),
    }
}

/// The exec form of [`presence`].
pub fn has_inner(v: &Value) -> (r: bool)
    requires
        v@ is Opt,
    ensures
        r == presence(v@),
{
    match v {
        Value::Opt(o) => match o {
            Some(_) => true,
            None => false,
        },
        Value::Uint(_) => vstd::pervasive::unreached(),
        Value::Bool(_) => vstd::pervasive::unreached(),
        Value::Unit => vstd::pervasive::unreached(),
        Value::List(_) => vstd::pervasive::unreached(),
        Value::Struct(_) => vstd::pervasive::unreached(),
        Value::Enum(_) => vstd::pervasive::unreached(),
    }
}

/// The exec form of [`opt_inner`], for a present optional value.
pub fn take_inner(v: &Value) -> (r: &Value)
    requires
        v@ is Opt,
        presence(v@),
    ensures
        r@ == opt_inner(v@),
{
    match v {
        Value::Opt(o) => match o {
            Some(b) => &**b,
            None => vstd::pervasive::unreached(),
        },
        Value::Uint(_) => vstd::pervasive::unreached(),
        Value::Bool(_) => vstd::pervasive::unreached(),
        Value::Unit => vstd::pervasive::unreached(),
        Value::List(_) => vstd::pervasive::unreached(),
        Value::Struct(_) => vstd::pervasive::unreached(),
        Value::Enum(_) => vstd::pervasive::unreached(),
    }
}

/// The exec form of [`elems_of`].
pub fn take_elems(v: &Value) -> (r: &Vec<Value>)
    requires
        v@ is List,
    ensures
        v@ == Val::List(vals_view(r@)),
        elems_of(v@) == vals_view(r@),
{
    match v {
        Value::List(es) => es,
        Value::Uint(_) => vstd::pervasive::unreached(),
        Value::Bool(_) => vstd::pervasive::unreached(),
        Value::Unit => vstd::pervasive::unreached(),
        Value::Opt(_) => vstd::pervasive::unreached(),
        Value::Struct(_) => vstd::pervasive::unreached(),
        Value::Enum(_) => vstd::pervasive::unreached(),
    }
}

/// The exec form of reading a struct value's slots.
pub fn take_slots(v: &Value) -> (r: &Vec<Value>)
    requires
        v@ is Struct,
    ensures
        v@ == Val::Struct(vals_view(r@)),
{
    match v {
        Value::Struct(vs) => vs,
        Value::Uint(_) => vstd::pervasive::unreached(),
        Value::Bool(_) => vstd::pervasive::unreached(),
        Value::Unit => vstd::pervasive::unreached(),
        Value::Opt(_) => vstd::pervasive::unreached(),
        Value::List(_) => vstd::pervasive::unreached(),
        Value::Enum(_) => vstd::pervasive::unreached(),
    }
}

} // verus!
