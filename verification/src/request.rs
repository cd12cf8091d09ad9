pub mod http;
pub mod prompt;
