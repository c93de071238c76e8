//! A B-field: a space-efficient, probabilistic map from byte-string keys to
//! small non-negative integer values.
//!
//! The encoding engine has three layers:
//! * a combinatorial marker codec that bijectively maps an integer to a
//!   fixed-weight bit pattern and back (`rank` / `unrank`),
//! * a bit-array member that lays markers out at hash-derived offsets and
//!   answers three-valued lookups,
//! * a cascade of members of geometrically decreasing size that diverts
//!   colliding keys to later members.

pub mod binomial;
pub mod bitmath;
pub mod combinatorial;
pub mod bitstore;
pub mod bfield_member;
pub mod bfield;

pub use bfield::BField;
pub use bfield_member::{BFieldLookup, BFieldMember, BFieldParams, BFieldVal};
pub use binomial::{binomial, checked_binomial};
pub use combinatorial::{next_rank, rank, unrank};
