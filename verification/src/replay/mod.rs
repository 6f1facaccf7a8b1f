pub mod executor;
pub mod oracle;
pub mod runner;
