//! The semantic graph: function signatures and bodies, dependency edges and
//! invalidation.

pub mod ids;
pub mod node;
pub mod table;
pub mod deps;
pub mod invalidate;
pub mod store;
pub mod transpose;
