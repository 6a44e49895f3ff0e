//! The server-to-server layer of a chat homeserver: how peers are found,
//! how their signing keys are fetched and backed off from, how the auth
//! chain of events is computed and cached, and how inbound transactions,
//! joins and invites are checked.

pub mod acl;
pub mod auth_chain;
pub mod config;
pub mod dest;
pub mod dispatch;
pub mod error;
pub mod join;
pub mod keys;
pub mod text;
pub mod transaction;
