//! Verified core of a k-NN fraud-scoring service: request parsing, the
//! reference-dataset format, nearest-neighbour search and the pre-built
//! answers.

pub mod time;
pub mod proto;
pub mod dataset;

pub mod text;
pub mod preprocess;
pub mod simd;
pub mod knn;
pub mod memscan;
pub mod wire;
pub mod http;
pub mod handler;
pub mod mcc;
pub mod normalize;
pub mod payload;
pub mod responses;
pub mod lb;
