pub mod config;
pub mod feeds;
pub mod pipeline;
pub mod rss;
pub mod worker;
