//! Reduced ordered binary decision diagrams with complement edges: a
//! hash-consed node table, conditioning and the other logical operations,
//! model enumeration and model counting, and a small teaching manager used
//! for graph drawing.

pub mod repr;
pub mod builder;
pub mod extras;
pub mod util;
pub mod sdd_manager;
pub mod count;
