//! A recursive directory copy, planned step by step.
//!
//! The copy of a directory tree is a conversation between a [`copier::Copier`] and
//! whoever holds the file system. The copier asks for one thing at a time (an
//! [`protocol::Action`]), is told how it went (an [`protocol::Event`]), and decides
//! what to ask next. It never touches a file system itself, so every decision of the
//! traversal is verified.
//!
//! - `names`: entry names and relative paths.
//! - `protocol`: actions, events and failures.
//! - `machine`: the traversal as a state machine, in specification form.
//! - `copier`: the same in executable form.
//! - `world`: a model of the two trees and of how a file system may answer.
//! - `progress`, `safety`, `run`, `bound`, `clear`: what holds along a run.
//! - `laws`: what a copy does to any file system that behaves as the model says.

pub mod names;
pub mod protocol;
pub mod machine;
pub mod copier;
pub mod world;
pub mod progress;
pub mod safety;
pub mod run;
pub mod bound;
pub mod clear;
pub mod laws;
