//! Argos Engine: the verified core of a keyless web metasearch server.
//!
//! The library holds the logic of the engine: configuration parsing, token
//! budgets, provider result parsing, domain and relevance gates, the fair
//! merge of provider answers, provider health bookkeeping and wave
//! selection. Network I/O, the MCP server and process management live in
//! `app/`, which hands plain values to these functions.
#![allow(unused_imports)]

pub mod text;
pub mod types;
pub mod error;
pub mod limits;
pub mod config;
pub mod web;
pub mod quality;
pub mod providers;
pub mod metasearch;
pub mod searxng;
pub mod stack;
pub mod tools;
