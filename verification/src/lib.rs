//! Exact Laurent-polynomial arithmetic, a genus-tracking disjoint-set
//! structure, link diagrams with their Kauffman-bracket state sum, and a
//! smoothing/cobordism algebra built on the same disjoint-set core.

pub mod cobordism;
pub mod link;
pub mod poly;
pub mod set_union;
