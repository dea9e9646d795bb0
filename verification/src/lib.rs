//! Orders in which the vertices of a boolean hypercube are visited, and the
//! Montgomery arithmetic of a small prime field.
pub mod bits;
pub mod hypercube;
pub mod order_strategy;
pub mod fermat;
pub mod fields;
