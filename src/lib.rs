//! A small dense N-dimensional array engine: C-ordered strided buffers,
//! coordinate and linear index tables, broadcasting elementwise operations and
//! batched matrix multiplication, all with verified contracts.

pub mod array;
pub mod broadcast;
pub mod element;
pub mod geometry;
pub mod matmul;
pub mod ops;

pub use array::{Array, ArrayError, ArrayIndices, LinearIndices};
pub use broadcast::{nr_add, nr_mul, BinaryOp};
pub use element::Element;
pub use matmul::nr_matmul;
pub use ops::{nr_arange, nr_random, nr_reshape_new};
