use vstd::prelude::*;

pub mod text;
pub mod tts;
pub mod document;
pub mod provider;
pub mod anthropic;
pub mod server;
pub mod backend;
pub mod error;
pub mod scrape;
pub mod clean;
pub mod pdf;
pub mod synth;
pub mod storage;
pub mod summarize;
pub mod cli;

pub use document::{Document, Usage};
pub use provider::Provider;
