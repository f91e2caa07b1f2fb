//! Sessions of chat messages in a directory of files, conversation ids of channels, and the rotation
//! of log files.
//!
//! The library decides; it does not touch the file system. What it asks for and what it is told of
//! the outcome are values, so that every decision has a contract.

pub mod channel_laws;
pub mod channel_session;
pub mod dates;
pub mod directory;
pub mod history;
pub mod identity;
pub mod keys;
pub mod locks;
pub mod message_laws;
pub mod operation_laws;
pub mod rotate;
pub mod rotation;
pub mod rotation_laws;
pub mod script;
pub mod session_store;
pub mod store_laws;
pub mod text;
pub mod text_laws;
pub mod turns;
