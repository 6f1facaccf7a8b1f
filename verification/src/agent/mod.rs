pub mod control;
pub mod diagnosis;
