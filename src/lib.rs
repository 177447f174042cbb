//! Encode values into the SCALE byte format, guided by the shape of a target
//! type described in a type registry rather than by the value's own type.
//!
//! A value presents its logical shape ([`Value`]); a [`Registry`] describes
//! target types by identifier. Encoding reconciles the two: numbers are
//! range-checked into the target width, single-field wrappers and
//! one-element tuples are passed through on either side, fields are matched
//! by name or by position, and variants are matched by name.
pub mod encode;
pub mod error;
pub mod format;
pub mod laws;
pub mod model;
pub mod registry;
pub mod value;

pub use encode::{find_single_entry_with_same_repr, skip_through_single_unnamed_fields};
pub use error::{Context, Error, ErrorKind, Kind, Location};
pub use registry::{BitsOrderFormat, BitsStoreFormat, Field, Primitive, Registry, TypeDef, VariantDef};
pub use value::{Composite, CompositeField, Value, Variant};
