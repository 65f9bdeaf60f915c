pub mod cache;
pub mod error;
pub mod lifecycle;
pub mod models;
pub mod metadata;
pub mod hot;
pub mod tape;
pub mod archive;
pub mod notification;
pub mod recall;
pub mod handler;
pub mod config;
