//! A small collection of verified utilities: a generic row-major grid with
//! an 8-neighbour traversal and Conway's Game of Life on top of it, the
//! k-combinations of a slice, a monotonic min-tracking queue, and the
//! intersection of two line sets.

pub mod combinations;
pub mod comm;
pub mod conway;
pub mod min_queue;
