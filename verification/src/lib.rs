//! Verified core of a WiFi provisioning portal: URL-encoded form coding,
//! a minimal HTTP/1.1 request parser and response writer, configuration
//! field handling, and an in-memory storage backend.

pub mod error;
pub mod text;
pub mod number;
pub mod form;
pub mod http;
pub mod storage;
pub mod config;
pub mod html;
