pub mod openai_compatible;
pub mod usage;
