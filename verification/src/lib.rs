//! Verified core of a gateway for bounded, self-hosted web research.
pub mod backends;
pub mod config;
pub mod envelope;
pub mod health;
pub mod ip;
pub mod json;
pub mod mcp;
pub mod order;
pub mod policy;
pub mod sessions;
pub mod store;
pub mod text;
pub mod weburl;
