pub mod text;
pub mod order;
pub mod models;
pub mod sorting;
pub mod installer;
pub mod platform;
pub mod activation;
pub mod services;
pub mod runtimes;
pub mod feeds;
pub mod progress;
pub mod cache;
