pub mod constants;
pub mod tree;
pub mod walk;
pub mod text;
pub mod rules;
pub mod parents;
pub mod control;
pub mod laws;
