//! Structured-data inspection, repair and transformation primitives.

pub mod text;
pub mod adapter;
pub mod sequence;
pub mod numeric;
pub mod json;
pub mod judgment;
pub mod number;
pub mod repair;
mod repair_reader;
pub mod strict_json;
pub mod json_ops;
pub mod transform;
pub mod csv_repair;
pub mod textlist;
pub mod tabular;
pub mod coerce;
pub mod schema;
pub mod formats;
pub mod grounding;
pub mod yaml;
