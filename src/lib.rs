pub mod text;
pub mod finding;
pub mod tree;
pub mod rules;
pub mod engine;
pub mod users;
