pub mod digest;
pub mod domain;
pub mod ids;
pub mod minimize;
pub mod order;
pub mod paths;
pub mod replay;
pub mod shell;
pub mod text;
pub mod textmap;
pub mod llm;
pub mod config;
pub mod history;
pub mod agent;
pub mod sandbox;
pub mod recorder;
pub mod patch;
pub mod service;
