//! The tools that the gateway offers.
pub mod browser;
pub mod bundle;
pub mod domain;
pub mod fetch;
pub mod outcome;
pub mod passages;
pub mod relevance;
pub mod search;
pub mod terms;
pub mod tools;
pub mod urls;
