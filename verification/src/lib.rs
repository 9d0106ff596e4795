//! Heap allocation strategies for a freestanding kernel, modelled over an
//! arena of plain addresses: a bump allocator, a first-fit free-list
//! allocator, and a segregated fixed-size-block allocator that falls back to
//! the free-list strategy, together with the cooperative task types that
//! consume the heap.

pub mod allocator;
pub mod task;
