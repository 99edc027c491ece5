//! Verified text logic of three Chinese light-novel sources.
pub mod text;
pub mod markdown;
pub mod model;
pub mod url;
pub mod wenku8;
pub mod gbk;
pub mod linovelib;
pub mod lightnovelfun;
