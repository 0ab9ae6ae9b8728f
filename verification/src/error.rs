//! Error taxonomy for encoding and decoding.
//!
//! Decode failures start as a bare [`ReadErrorCause`] wrapped in
//! [`FromBytesError::ReadPrimitive`]; as they ascend through a struct's
//! read logic, the context methods on [`FromBytesError`] replace that
//! innermost form with a variant naming the struct and field (and, for
//! lists and arrays, the attempted element count) while preserving the
//! cause. Encode failures are [`ToBytesError`] values.

use vstd::prelude::*;
use crate::bits::BufferTooSmall;
use crate::bits::UnexpectedEndOfBits;

verus! {

/// The innermost cause of a decode failure.
#[derive(Debug, Clone, Copy, PartialEq, Eq)]
pub enum ReadErrorCause {
    /// An enum tag read from the wire matches no declared variant.
    InvalidDiscriminant { ty: &'static str, got: usize },
    /// The input ended before a primitive read could finish.
    NotEnoughInput { ty: &'static str, cause: UnexpectedEndOfBits },
}

/// A decode failure, with positional context layered on as it ascends.
#[derive(Debug, Clone, Copy, PartialEq, Eq)]
pub enum FromBytesError {
    /// Reserved padding bits could not be skipped over.
    SkipPadding { struct_name: &'static str, cause: ReadErrorCause },
    /// A plain field of a struct could not be read.
    ReadField { field_name: &'static str, struct_name: &'static str, cause: ReadErrorCause },
    /// The value of a present optional field could not be read.
    ReadOption { field_name: &'static str, struct_name: &'static str, cause: ReadErrorCause },
    /// The boolean controlling an optional field could not be read.
    ReadOptionController {
        controlled_option_field: &'static str,
        struct_name: &'static str,
        cause: ReadErrorCause,
    },
    /// The length controlling a list field could not be read.
    ReadListLength { field_name: &'static str, struct_name: &'static str, cause: ReadErrorCause },
    /// One of `list_len` list elements could not be read.
    ReadList {
        list_len: usize,
        field_name: &'static str,
        struct_name: &'static str,
        cause: ReadErrorCause,
    },
    /// One of `array_len` array elements could not be read.
    ReadArray {
        array_len: usize,
        field_name: &'static str,
        struct_name: &'static str,
        cause: ReadErrorCause,
    },
    /// An enum could not be read, most often an undeclared discriminant.
    ReadEnum { enum_name: &'static str, cause: ReadErrorCause },
    /// A bare primitive failure, not yet attributed to any field.
    ReadPrimitive(ReadErrorCause),
}

/// What [`FromBytesError::skip_padding`] returns.
pub open spec fn spec_skip_padding(e: FromBytesError, struct_name: &'static str) -> FromBytesError {
    match e {
        FromBytesError::ReadPrimitive(cause) => FromBytesError::SkipPadding { struct_name, cause },
        _ => e,
    }
}

/// What [`FromBytesError::read_field`] returns.
pub open spec fn spec_read_field(
    e: FromBytesError,
    struct_name: &'static str,
    field_name: &'static str,
) -> FromBytesError {
    match e {
        FromBytesError::ReadPrimitive(cause) => FromBytesError::ReadField {
            field_name,
            struct_name,
            cause,
        },
        _ => e,
    }
}

/// What [`FromBytesError::read_option`] returns.
pub open spec fn spec_read_option(
    e: FromBytesError,
    struct_name: &'static str,
    field_name: &'static str,
) -> FromBytesError {
    match e {
        FromBytesError::ReadPrimitive(cause) => FromBytesError::ReadOption {
            field_name,
            struct_name,
            cause,
        },
        _ => e,
    }
}

/// What [`FromBytesError::read_option_controller`] returns.
pub open spec fn spec_read_option_controller(
    e: FromBytesError,
    struct_name: &'static str,
    controlled_option_field: &'static str,
) -> FromBytesError {
    match e {
        FromBytesError::ReadPrimitive(cause) => FromBytesError::ReadOptionController {
            controlled_option_field,
            struct_name,
            cause,
        },
        _ => e,
    }
}

/// What [`FromBytesError::read_list_length`] returns.
pub open spec fn spec_read_list_length(
    e: FromBytesError,
    struct_name: &'static str,
    field_name: &'static str,
) -> FromBytesError {
    match e {
        FromBytesError::ReadPrimitive(cause) => FromBytesError::ReadListLength {
            field_name,
            struct_name,
            cause,
        },
        _ => e,
    }
}

/// What [`FromBytesError::read_list`] returns.
pub open spec fn spec_read_list(
    e: FromBytesError,
    struct_name: &'static str,
    field_name: &'static str,
    list_len: usize,
) -> FromBytesError {
    match e {
        FromBytesError::ReadPrimitive(cause) => FromBytesError::ReadList {
            list_len,
            field_name,
            struct_name,
            cause,
        },
        _ => e,
    }
}

/// What [`FromBytesError::read_array`] returns.
pub open spec fn spec_read_array(
    e: FromBytesError,
    struct_name: &'static str,
    field_name: &'static str,
    array_len: usize,
) -> FromBytesError {
    match e {
        FromBytesError::ReadPrimitive(cause) => FromBytesError::ReadArray {
            array_len,
            field_name,
            struct_name,
            cause,
        },
        _ => e,
    }
}

impl FromBytesError {
    /// Attribute a bare primitive failure to skipped padding in `struct_name`.
    pub fn skip_padding(self, struct_name: &'static str) -> (r: Self)
        ensures
            r == spec_skip_padding(self, struct_name),
    {
        if let Self::ReadPrimitive(cause) = self {
            Self::SkipPadding { struct_name, cause }
        } else {
            self
        }
    }

    /// Attribute a bare primitive failure to a plain field.
    pub fn read_field(self, struct_name: &'static str, field_name: &'static str) -> (r: Self)
        ensures
            r == spec_read_field(self, struct_name, field_name),
    {
        if let Self::ReadPrimitive(cause) = self {
            Self::ReadField { field_name, struct_name, cause }
        } else {
            self
        }
    }

    /// Attribute a bare primitive failure to an optional field's value.
    pub fn read_option(self, struct_name: &'static str, field_name: &'static str) -> (r: Self)
        ensures
            r == spec_read_option(self, struct_name, field_name),
    {
        if let Self::ReadPrimitive(cause) = self {
            Self::ReadOption { field_name, struct_name, cause }
        } else {
            self
        }
    }

    /// Attribute a bare primitive failure to an option's control bit.
    pub fn read_option_controller(
        self,
        struct_name: &'static str,
        controlled_option_field: &'static str,
    ) -> (r: Self)
        ensures
            r == spec_read_option_controller(self, struct_name, controlled_option_field),
    {
        if let Self::ReadPrimitive(cause) = self {
            Self::ReadOptionController { controlled_option_field, struct_name, cause }
        } else {
            self
        }
    }

    /// Attribute a bare primitive failure to a list's length field.
    pub fn read_list_length(
        self,
        struct_name: &'static str,
        field_name: &'static str,
    ) -> (r: Self)
        ensures
            r == spec_read_list_length(self, struct_name, field_name),
    {
        if let Self::ReadPrimitive(cause) = self {
            Self::ReadListLength { field_name, struct_name, cause }
        } else {
            self
        }
    }

    /// Attribute a bare primitive failure to an element of a list.
    pub fn read_list(
        self,
        struct_name: &'static str,
        field_name: &'static str,
        list_len: usize,
    ) -> (r: Self)
        ensures
            r == spec_read_list(self, struct_name, field_name, list_len),
    {
        if let Self::ReadPrimitive(cause) = self {
            Self::ReadList { list_len, field_name, struct_name, cause }
        } else {
            self
        }
    }

    /// Attribute a bare primitive failure to an element of a fixed array.
    pub fn read_array(
        self,
        struct_name: &'static str,
        field_name: &'static str,
        array_len: usize,
    ) -> (r: Self)
        ensures
            r == spec_read_array(self, struct_name, field_name, array_len),
    {
        if let Self::ReadPrimitive(cause) = self {
            Self::ReadArray { array_len, field_name, struct_name, cause }
        } else {
            self
        }
    }
}

/// An encode failure.
#[derive(Debug, Clone, Copy, PartialEq, Eq)]
pub enum ToBytesError {
    /// A list's live length exceeds what its control field can represent.
    ListTooLong { max: usize, got: usize },
    /// The write buffer sized from the type's maximum bit count proved
    /// too small: an implementation bug, never a normal user error.
    BufferTooSmall { ty: &'static str, cause: BufferTooSmall },
    /// A controlled field's live state disagrees with its control field:
    /// an option's presence against its boolean, or a list's length
    /// against its length field. Names the offending field and carries
    /// both values (booleans as 0 or 1).
    ValidationError { field_name: &'static str, control_value: u64, live_value: u64 },
}

} // verus!
