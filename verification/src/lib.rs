pub mod text;
pub mod bytes;
pub mod error;
pub mod escape;
pub mod dsl;
pub mod xml;
pub mod mdx;
pub mod titles;
