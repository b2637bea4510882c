//! Bounds on the objective, put into compiled models.
pub mod json;
pub mod json_laws;
