//! Cooperative tasks: which task is polled next. Polling itself is the
//! caller's business.

pub mod simple_executor;
