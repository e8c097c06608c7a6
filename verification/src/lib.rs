pub mod value;
pub mod value_ops;
pub mod text;
pub mod query;
pub mod query_model;
pub mod adapters;
pub mod error;
pub mod csv_adapter;
pub mod validation;
pub mod cli;
pub mod laws;
