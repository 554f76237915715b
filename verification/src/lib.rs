pub mod text;
pub mod slim;
pub mod tokens;
pub mod json;
pub mod search;
pub mod tools;
pub mod protocol;
pub mod laws;
