//! A verified core for a service that tracks physical accessibility aids
//! ("access points") at geocoded locations, lets clients report status
//! changes, and notifies subscribed users when a point they track changes
//! state.
//!
//! The crate holds the entity registries with their invariants, the
//! status-report pipeline, the push-notification dispatch decisions, and the
//! persistence codec.  File and network transport stay outside: the library
//! hands documents and prepared messages to its caller as plain values.

pub mod ap;
pub mod codec_ap;
pub mod codec_user;
pub mod user;
pub mod errors;
pub mod notification;
pub mod report;
pub mod text;
