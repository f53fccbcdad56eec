//! Length norms: one small number per document and field.

pub mod norm_values_writer;
