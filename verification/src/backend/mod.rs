pub mod config;
pub mod episodes;
pub mod feeds;
pub mod worker;
pub mod rss;
pub mod tts;
pub mod clean;
