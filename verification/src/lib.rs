//! Verified core of an SDK for building agents on top of a local execution
//! harness: the data model, the tool-call safety policy engine, conversation
//! bookkeeping, hook dispatch decisions, tool registries and request building
//! for the Gemini REST API.

pub mod conversation;
pub mod direct;
pub mod hooks;
pub mod path;
pub mod policy;
pub mod session;
pub mod tools;
pub mod triggers;
pub mod types;
pub mod version;
