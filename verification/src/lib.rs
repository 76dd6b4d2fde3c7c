//! A dense, row-major matrix library: flat storage with (row, column)
//! indexing, shape-checked elementwise and linear-algebra operators,
//! double-ended iteration over rows, columns and cells, randomized fill,
//! and a structured codec for the flat buffer plus its two dimensions.

mod arith;
mod codec;
mod dense;
mod error;
mod iter;
mod laws;
pub mod matrix;
mod rng;

pub use arith::div_trunc;
pub use arith::dot;
pub use arith::dot_prefix;
pub use arith::dotdiv;
pub use arith::dotdiv_prefix;
pub use arith::pow_spec;
pub use arith::sum_prefix;
pub use codec::dec_int;
pub use codec::dec_nat;
pub use codec::encodes;
pub use codec::joined;
pub use codec::json_bytes;
pub use codec::lemma_json_bytes_injective;
pub use dense::lemma_flat_bound;
pub use dense::lemma_flat_injective;
pub use dense::Matrix;
pub use error::MatxError;
pub use iter::Cells;
pub use iter::Columns;
pub use iter::Rows;
pub use laws::lemma_double_ended_partition;
pub use laws::lemma_reverse_involution;
pub use laws::lemma_rows_round_trip;
