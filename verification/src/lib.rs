//! An in-memory product catalog that answers combined-criteria queries, either
//! by scanning every record or by intersecting per-attribute position indexes.
//! Both ways are proved to give the same records in the same order.

pub mod candidates;
pub mod index;
pub mod product;
pub mod query;
pub mod store;
pub mod text;
