//! A lazy, glitch-free reactive propagation engine.
//!
//! The engine is a dependency graph of typed state cells ("signals"),
//! derived cells ("computed"), and side-effect endpoints ("effects",
//! including an asynchronous "task" variant), processed once per host
//! tick in a fixed sequence of phases:
//!
//! 1. reap finished asynchronous tasks,
//! 2. establish new subscriptions,
//! 3. apply external writes,
//! 4. propagate the computed wave,
//! 5. run deferred effects.
//!
//! The host drives the phases in order and supplies the derivation and
//! effect bodies; the engine decides which node runs, at most once per
//! tick, and how changes propagate.

pub mod signals;
pub mod api;
pub mod systems;
pub mod laws;
