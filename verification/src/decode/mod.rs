//! The schema-driven decoder: from the subrecords of a record to JSON.
pub mod context;
pub mod derived;
pub mod laws;
pub mod meaning;
pub mod model_info;
pub mod order;
pub mod records;
pub mod rules;
pub mod scalars;
pub mod scope;
pub mod shape;
pub mod vmad;
pub mod walk;
pub mod written;
