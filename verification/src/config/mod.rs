pub mod parser;
pub mod writer;
pub mod tree;
pub mod modules;
pub mod loader;
pub mod validator;
pub mod round_trip;
