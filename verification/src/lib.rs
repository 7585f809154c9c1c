//! Word-level forced alignment.

pub mod attention;
pub mod audio;
pub mod backend;
pub mod batch;
pub mod binary16;
pub mod binary32;
pub mod binary64;
pub mod chars;
pub mod config;
pub mod conv;
pub mod decimal;
pub mod inference;
pub mod interpolation;
pub mod launch;
pub mod mel;
pub mod model;
pub mod precision;
pub mod product;
pub mod prompt;
pub mod request;
pub mod resampler;
pub mod rope;
pub mod rounding;
pub mod tensor;
pub mod text;
pub mod text_io;
pub mod timestamp;
pub mod tokenizer;
pub mod weights;
