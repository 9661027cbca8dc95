//! An in-memory publish/subscribe core: a registry that maps product
//! categories to the subscribers registered for them, a dispatcher that
//! summarises per-subscriber delivery outcomes, and a thin service layer
//! that validates input and translates registry outcomes for an adapter
//! such as an HTTP controller.
//!
//! Network delivery is the caller's business: the library hands out a
//! snapshot of the subscribers to notify, and turns the outcomes the
//! caller observed into a dispatch report.

pub mod subscriber;
pub mod registry;
pub mod dispatch;
pub mod service;
