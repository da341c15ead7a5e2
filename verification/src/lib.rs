//! Password recovery for encrypted documents: candidate producers, the
//! feeder that hands candidates to a pool of workers, and the bookkeeping
//! that the workers need.
//!
//! Every producer is specified by the sequence of candidates it has yet to
//! hand out; each call of `next` takes the head of that sequence.
//!
//! - `producer`: the search strategies, and the choice among them.
//! - `engine`: the feeder and its channels.
//! - `cracker`: the document's bytes and the cache of a worker.
//! - `arguments`: what a run is asked to do.
//! - `patterns`: templates that follow from what is known of a person.
//! - `decimal`: decimal numerals as bytes.

pub mod arguments;
pub mod cracker;
pub mod decimal;
pub mod engine;
pub mod patterns;
pub mod producer;
