//! A fixed-capacity singly-linked list built over a preallocated arena of
//! slots. Slots are chained through small integer indices instead of
//! pointers: every slot is always on exactly one of two chains, the free
//! chain (slots available for allocation) or the occupied chain (slots
//! holding live values, in list order).

pub mod laws;
pub mod list;
pub mod order;
pub mod render;
