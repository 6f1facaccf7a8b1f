pub mod action;
pub mod session;
pub mod snapshot;
pub mod trial;
