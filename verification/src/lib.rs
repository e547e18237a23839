//! A task-tracking library: named tasks identified by numeric ids, stored
//! behind a uniform repository contract with an in-memory backend and a
//! durable SQLite-backed backend.

pub mod database;
pub mod json;
pub mod model;
pub mod repository;
pub mod service;
