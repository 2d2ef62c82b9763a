//! Verified protocol core of a client for the `confd` configuration service.
//!
//! The service speaks length-prefixed JSON over a Unix domain socket. This
//! crate holds everything the client decides and computes: how a frame
//! is laid out, which paths are subscribed, which inbound messages reach a
//! handler and when a subscription's loop ends. It performs no I/O; the caller
//! moves bytes between a socket and the functions here.

pub mod client;
pub mod confd;
pub mod dispatch;
pub mod error;
pub mod json;
pub mod path;
pub mod registry;

pub use client::{Client, ClientBuilder};
pub use error::{Error, IoFailure, JsonFailure};
pub use json::{Message, SubscriptionRequest};
