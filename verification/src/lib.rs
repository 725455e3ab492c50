//! Observes CI pipeline activity on a GitLab-shaped forge, reconciles each
//! observation against a fact table and a pre-aggregated per-day statistics
//! table, and answers dashboard queries from either. The store, the upsert
//! engine, the calendar arithmetic, and the query logic are verified; the
//! HTTP transport and the runtime plumbing live outside the library.

pub mod aggregate;
pub mod calendar;
pub mod config;
pub mod filter;
pub mod gitlab_types;
pub mod models;
pub mod monitor;
pub mod queries;
pub mod store;
pub mod strutil;
