//! JSONPath selection over the binary JSON format JSONB.

pub mod constants;
mod container;
mod correspondence;
pub mod document;
pub mod error;
mod eval;
pub mod filter_laws;
pub mod laws;
pub mod layout_laws;
pub mod number;
pub mod number_laws;
pub mod order_laws;
pub mod outcome;
mod output;
pub mod output_laws;
pub mod path;
pub mod path_laws;
pub mod position_laws;
pub mod raw;
pub mod readback;
pub mod selector;
pub mod semantics;
pub mod sound_laws;
mod soundness;
pub mod text;
mod validate;
pub mod wire;
