//! Core of an OpenAI-compatible reverse proxy: weighted upstream routing with
//! cooldown-aware selection, a circuit breaker with exponential backoff,
//! prepaid token billing, request metrics and the request pipeline's decisions.

pub mod admin;
pub mod billing;
pub mod breaker;
pub mod config;
pub mod gzip;
pub mod json;
pub mod keys;
pub mod metrics;
pub mod proxy;
pub mod router;
pub mod routes;
pub mod sets;
pub mod snapshot;
pub mod state;
pub mod storage;
pub mod text;
pub mod usage;
