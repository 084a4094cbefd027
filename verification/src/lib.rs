//! A minimal in-memory tabular data engine: schema-typed nullable columns,
//! row storage, column projection, numeric range filtering, SQL LIKE pattern
//! matching, left outer join, and fixed-width textual rendering.

pub mod num;
pub mod value;
pub mod pattern;
pub mod table;
pub mod render;
