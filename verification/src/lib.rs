//! An approximate-match caching library for high-dimensional vector keys.
//!
//! The caches answer: given a query key and a per-entry tolerance, return a
//! previously inserted value whose key lies within that tolerance of the
//! query — or admit a miss. Inference pipelines use this to short-circuit
//! recomputation on near-duplicate inputs.
//!
//! Floating-point values cross the library boundary as their raw IEEE 754
//! single-precision bit patterns (`u32`): keys hand their fuzziness in as a
//! bit pattern, tolerances arrive as bit patterns, and everything the caches
//! decide is an IEEE comparison, defined and verified over the bits in
//! [`float_bits`]. The floating-point arithmetic itself — distance kernels
//! and the random hyperplane projector — stays with the embedder, which
//! pairs it with the bounded caches and the LSH dispatcher found here.

pub mod approximate_cache;
pub mod comp;
pub mod fifo_cache;
pub mod float_bits;
pub mod linked_list;
pub mod list_node;
pub mod lru_cache;
pub mod lsh_cache;
pub mod unbounded_linear_cache;
