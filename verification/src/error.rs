//! The error taxonomy of the gateway, as callers see it.

use vstd::prelude::*;

verus! {

/// Every failure the gateway surfaces.  Transport and protocol failures
/// abort only the connection that raised them; registry-level errors are
/// returned synchronously to the caller.
#[derive(Debug)]
pub enum NeovimError {
    /// Connecting or reading/writing the transport failed; carries the cause.
    Transport(String),
    /// A malformed frame arrived; the connection is torn down.
    Protocol(String),
    /// The peer closed, or teardown raced a call.
    ConnectionClosed,
    /// An operation that needs a live connection was called without one.
    NotConnected,
    /// `connect` was called while already connected.
    AlreadyConnected,
    /// No connection is registered under the given id.
    ConnectionNotFound(String),
    /// The remote call returned an application-level error message.
    Api(String),
    /// A dynamic tool's name collides with a static tool's.
    NameConflict(String),
    /// No tool of the given name exists, statically or dynamically.
    ToolNotFound(String),
    /// A call's arguments are missing or malformed.
    InvalidParams(String),
    /// No resource exists under the given URI.
    ResourceNotFound(String),
}

impl NeovimError {
    /// A short stable name for the error's kind.
    pub fn kind(&self) -> (r: &'static str)
        ensures
            r@.len() > 0,
    {
        proof {
            reveal_strlit("transport");
            reveal_strlit("protocol");
            reveal_strlit("connection_closed");
            reveal_strlit("not_connected");
            reveal_strlit("already_connected");
            reveal_strlit("connection_not_found");
            reveal_strlit("api");
            reveal_strlit("name_conflict");
            reveal_strlit("tool_not_found");
            reveal_strlit("invalid_params");
            reveal_strlit("resource_not_found");
        }
        match self {
            NeovimError::Transport(_) => "transport",
            NeovimError::Protocol(_) => "protocol",
            NeovimError::ConnectionClosed => "connection_closed",
            NeovimError::NotConnected => "not_connected",
            NeovimError::AlreadyConnected => "already_connected",
            NeovimError::ConnectionNotFound(_) => "connection_not_found",
            NeovimError::Api(_) => "api",
            NeovimError::NameConflict(_) => "name_conflict",
            NeovimError::ToolNotFound(_) => "tool_not_found",
            NeovimError::InvalidParams(_) => "invalid_params",
            NeovimError::ResourceNotFound(_) => "resource_not_found",
        }
    }
}

} // verus!
