pub mod abi;
pub mod catalog;
pub mod ddl;
pub mod dml;
pub mod error;
pub mod exec;
pub mod expr;
pub mod float;
pub mod format;
pub mod hash;
pub mod json;
pub mod laws;
pub mod order;
pub mod plan;
pub mod vector;
pub mod wire;
