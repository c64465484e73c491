pub mod store;
pub mod text;
pub mod todo;
