pub mod analysis;
pub mod request;
pub mod text;
