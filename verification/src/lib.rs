//! Batched dense matrix multiplication on flat row-major buffers.
//!
//! The element arithmetic is a parameter ([`Scalar`], [`Narrow`]); everything
//! built on it is stated over sequences and proved:
//!
//! - [`simd`]: registers of a fixed number of lanes;
//! - [`kernel`]: the dot-product, multiply-accumulate and narrowing kernels;
//! - [`gemm`]: the batching engine behind [`batched_sgemm`] and
//!   [`batched_sgemm_t`];
//! - [`tensor`]: tensors with a shape, and the shape checks of [`matmul`];
//! - [`pool`]: the layout of the worker pool and the sharing of rows among
//!   its workers;
//! - [`exact`]: what the kernels compute where sums may be regrouped.
pub mod exact;
pub mod gemm;
pub mod kernel;
pub mod pool;
pub mod scalar;
pub mod simd;
pub mod tensor;

pub use gemm::{
    apart, batched_sgemm, batched_sgemm_t, fits, gemm_row, gemm_row_t, row_offsets,
};
pub use kernel::{
    dot_lanes, dot_lanes_widened, f32_to_f16, mad_lanes, vec_dot_f16, vec_dot_f32, vec_mad_f32,
};
pub use pool::{plan_pool, share, unit_row, Acquired, Pool, PoolLayout};
pub use scalar::{mul_add, Narrow, Scalar};
pub use simd::{reduce_block, zero_block, Register, STEP, UNROLL, WIDTH};
pub use tensor::{checked_volume, gemm_shape, matmul, Error, GemmShape, Tensor};
