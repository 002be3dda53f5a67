//! Activation gateway for lightly used web services.
pub mod address;
pub mod config;
pub mod document;
pub mod gate;
pub mod headers;
pub mod host;
pub mod lifecycle;
pub mod monitor;
pub mod plain_http;
pub mod plist;
pub mod proxy;
pub mod quality;
pub mod response;
pub mod setup;
pub mod text;
pub mod wake;
