//! A matrix-multiplication engine that splits a product into one dot-product
//! task per output cell, lets independent workers compute the tasks, and
//! reassembles the replies into a row-major result; plus a small named-counter
//! store.
pub mod error;
pub mod matrix;
pub mod metrics;
pub mod render;
pub mod vector;
