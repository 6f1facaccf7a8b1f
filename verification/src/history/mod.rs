pub mod output;
pub mod redaction;
pub mod paths;
