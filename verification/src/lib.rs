//! Verified core of the OpenSnow data warehouse server: SQL statement shapes,
//! PostgreSQL wire-protocol framing and placeholder handling, configuration,
//! and the decision logic of authentication and session handling.

pub mod auth;
pub mod config;
pub mod engine;
pub mod error;
pub mod text;
pub mod order;
pub mod pgwire;
pub mod rest;
pub mod sql;
