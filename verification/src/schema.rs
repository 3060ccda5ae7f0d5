//! The information-schema catalogue: reserved names, numeric tags, and the
//! shapes of catalogue entries.
//!
//! The numeric tags are a non-normative placeholder: the store routes by
//! string-named prefixes only, never by these numbers.

use vstd::prelude::*;

verus! {

/// The reserved schema holding the catalogue itself.
pub const INFORMATION_SCHEMA: u32 = 0x0000;

/// The schema user collections live under when none is named.
pub const DEFAULT_SCHEMA: u32 = 0x0001;

/// Catalogue table tags.
pub const SCHEMA: u32 = 0x0000;

pub const TABLE: u32 = 0x0001;

pub const TABLE_PRIVILIGES: u32 = 0x0002;

pub const REFERENTIAL_CONSTRAINTS: u32 = 0x0002;

pub const CHECK_CONSTRAINTS: u32 = 0x0002;

pub const TABLE_CONSTRAINTS: u32 = 0x0002;

/// The two-byte pad between key components: `::`.
pub const PADDING: [u8; 2] = [58, 58];

/// A database: a named set of tables.
pub struct Database {
    pub name: String,
    pub tables: Vec<Table>,
}

/// A table: a named set of indexes and constraints.
pub struct Table {
    pub name: String,
    pub indexes: Vec<Index>,
    pub constraints: Vec<Constraint>,
}

/// A table constraint; its shape is not settled yet.
pub struct Constraint {}

/// How an index organises its keys.
#[allow(non_camel_case_types)]
pub enum IndexType {
    NON_CLUSTERED,
    CLUSTERED,
    UNIQUE,
}

/// A named index of a table.
pub struct Index {
    pub name: String,
    pub index_type: IndexType,
}

} // verus!
