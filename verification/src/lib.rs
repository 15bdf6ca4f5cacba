//! A verified core for a small HTTP file server.
//!
//! The library holds the server's decision logic: the path jail that keeps
//! client-supplied paths inside a configured root, percent and HTML encoding
//! for directory listings, HTTP basic-auth parsing and validation, CORS and
//! routing decisions, range-request planning, and the upload naming and size
//! policy.  Filesystem and network work stays outside; the functions here
//! compute, from plain values, exactly what that outside work should do.

pub mod auth;
pub mod config;
pub mod files;
pub mod ignore;
pub mod listing;
pub mod paths;
pub mod percent;
pub mod range;
pub mod router;
pub mod strutil;
pub mod upload;

use vstd::prelude::*;

verus! {

/// The server's name, used in the auth realm and in generated pages.
pub const SERVER_NAME: &'static str = "soop3";

/// The request methods the server distinguishes.
#[derive(Clone, Copy, Debug, PartialEq, Eq, Structural)]
pub enum Method {
    Get,
    Head,
    Post,
    Options,
    Other,
}

} // verus!
