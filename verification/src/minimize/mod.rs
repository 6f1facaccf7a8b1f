pub mod cache;
pub mod ddmin;
pub mod dependency;
pub mod table;
pub mod engine;
