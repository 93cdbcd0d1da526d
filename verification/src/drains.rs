//! The drain indexes: streaming classifiers routing lines into log groups.

pub mod simple;
