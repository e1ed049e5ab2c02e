//! The gateway facade: translates tool calls and resource reads into
//! registry, router and client operations.  Transport reads and writes
//! stay with the embedding program; every function here computes a
//! decision, a request frame, or a snapshot.

use vstd::prelude::*;

use crate::client::{
    diags_model, ClientEvent, Diagnostic, DocumentIdentifier, NeovimClient, Position, Range,
};
use crate::error::NeovimError;
use crate::registry::{ConnEntry, ConnectionRegistry, GenOutcome};
use crate::router::{build_tool_router, DynamicTool, HybridToolRouter, ToolDispatch, ToolListing};
use vstd::string::{StringSliceAdditionalSpecFns, StrSliceExecFns};

verus! {

broadcast use vstd::std_specs::vec::axiom_vec_index_decreases, vstd::seq::axiom_seq_index_decreases;


/// The connect tool's parameters: a socket path or a TCP address.
pub struct ConnectNvimRequest {
    pub target: String,
}

/// Parameters naming one connection.
pub struct ConnectionRequest {
    pub connection_id: String,
}

/// Parameters naming one buffer of one connection.
pub struct BufferConnectionRequest {
    pub connection_id: String,
    pub id: u64,
}

/// Parameters for running remote code on one connection.
pub struct ExecuteLuaConnectionRequest {
    pub connection_id: String,
    pub code: String,
}

/// Parameters for an LSP range request: a buffer, a language server
/// name, and a zero-based cursor range.
pub struct BufferLSPConnectionParams {
    pub connection_id: String,
    pub id: u64,
    pub lsp_client_name: String,
    pub line: u64,
    pub character: u64,
    pub end_line: u64,
    pub end_character: u64,
}

/// What a successful connect reports, plus the already-framed request
/// that arms the diagnostics notification, for the caller to send.
pub struct ConnectReply {
    pub connection_id: String,
    pub target: String,
    pub setup_msgid: u32,
    pub setup_request: Vec<u8>,
}

/// What a successful disconnect reports.
pub struct DisconnectReply {
    pub connection_id: String,
    pub target: String,
}

/// The gateway: the connection registry and the hybrid tool router.
pub struct NeovimMcpServer {
    nvim_clients: ConnectionRegistry,
    hybrid_router: HybridToolRouter,
}

impl NeovimMcpServer {
    /// The connection registry.
    pub closed spec fn registry(self) -> ConnectionRegistry {
        self.nvim_clients
    }

    /// The tool router.
    pub closed spec fn router(self) -> HybridToolRouter {
        self.hybrid_router
    }

    /// The gateway invariant.
    pub open spec fn wf(self) -> bool {
        self.registry().wf() && self.router().wf() && (forall|id: Seq<char>|
            (#[trigger] self.registry().client_of(id)) matches Some(c) ==> c.wf())
    }

    /// A fresh gateway: no connections, only the static tools.
    pub fn new() -> (s: Self)
        ensures
            s.wf(),
            s.registry().entries_view() == Seq::<ConnEntry>::empty(),
            s.router().names_view() == Seq::<crate::router::NameEntry>::empty(),
    {
        let s = NeovimMcpServer {
            nvim_clients: ConnectionRegistry::new(),
            hybrid_router: HybridToolRouter::new(build_tool_router()),
        };
        proof {
            assert forall|id: Seq<char>| ((#[trigger] s.registry().client_of(id))
                matches Some(c) ==> c.wf()) by {
            }
        }
        s
    }

    /// Derives the short id a connect to `target` would register.
    pub fn generate_shorter_connection_id(&self, target: &str) -> (r: Result<
        String,
        NeovimError,
    >)
        ensures
            (r matches Ok(id) ==> !self.registry().contains_id(id@)),
            (r matches Err(NeovimError::AlreadyConnected) ==> crate::registry::gen_search(
                self.registry().entries_view(),
                target@,
                6,
            ) is SameTarget),
    {
        self.nvim_clients.generate_shorter_connection_id(target)
    }

    /// Registers a connection-specific tool; `NameConflict` if the name
    /// shadows a static tool, in which case nothing changes.
    pub fn register_dynamic_tool(&mut self, connection_id: &str, tool: DynamicTool) -> (r:
        Result<(), NeovimError>)
        requires
            old(self).wf(),
        ensures
            final(self).wf(),
            final(self).registry() == old(self).registry(),
            old(self).router().static_view().has_name(tool.name@) ==> (r matches Err(
                NeovimError::NameConflict(_),
            )) && *final(self) == *old(self),
            !old(self).router().static_view().has_name(tool.name@) ==> (r matches Ok(_))
                && final(self).router().dyn_tool(tool.name@, connection_id@)
                    == Some(crate::router::tm(tool))
                && (forall|n: Seq<char>, c: Seq<char>| (n, c) != (tool.name@, connection_id@)
                    ==> #[trigger] final(self).router().dyn_tool(n, c)
                        == old(self).router().dyn_tool(n, c)),
    {
        self.hybrid_router.register_dynamic_tool(connection_id, tool)
    }

    /// Removes every dynamic tool of one connection.
    pub fn unregister_dynamic_tools(&mut self, connection_id: &str)
        requires
            old(self).wf(),
        ensures
            final(self).wf(),
            final(self).registry() == old(self).registry(),
            forall|n: Seq<char>| #[trigger] final(self).router().dyn_tool(n, connection_id@)
                is None,
            forall|n: Seq<char>, c: Seq<char>| c != connection_id@
                ==> #[trigger] final(self).router().dyn_tool(n, c)
                    == old(self).router().dyn_tool(n, c),
    {
        self.hybrid_router.unregister_dynamic_tools(connection_id)
    }

    /// Handles the connect tool: derives the connection id (rejecting a
    /// target that is already connected), applies the transport outcome,
    /// arms the diagnostics notification, and registers the connection.
    pub fn connect(&mut self, target: &str, transport: Result<(), String>) -> (r: Result<
        ConnectReply,
        NeovimError,
    >)
        requires
            old(self).wf(),
        ensures
            final(self).wf(),
            (r matches Ok(reply) ==> {
                &&& final(self).registry().contains_id(reply.connection_id@)
                &&& reply.target@ == target@
                &&& crate::registry::gen_search(
                    old(self).registry().entries_view(),
                    target@,
                    6,
                ) == crate::registry::GenOutcome::Fresh(reply.connection_id@)
                &&& (forall|other: Seq<char>| other != reply.connection_id@
                    ==> #[trigger] final(self).registry().client_of(other)
                        == old(self).registry().client_of(other))
                &&& (final(self).registry().client_of(reply.connection_id@) matches Some(c)
                    && c.is_connected() && c.target_view() == Some(target@)
                    && c.cache_entries() == Seq::<crate::client::CacheEntry>::empty()
                    && c.rpc_state().subscribed(crate::client::diagnostics_method()))
                &&& reply.setup_request@ == crate::codec::enc(crate::rpc::frame_model(
                    crate::client::lua_request_model(
                        reply.setup_msgid as int,
                        crate::client::setup_diagnostics_code(),
                        Seq::empty(),
                    ),
                ))
                &&& final(self).router() == old(self).router()
            }),
            (transport matches Err(_)) && !(crate::registry::gen_search(
                old(self).registry().entries_view(),
                target@,
                6,
            ) is SameTarget) && !(crate::registry::gen_search(
                old(self).registry().entries_view(),
                target@,
                6,
            ) is Exhausted) ==> (r matches Err(NeovimError::Transport(_))),
            crate::registry::gen_search(
                old(self).registry().entries_view(),
                target@,
                6,
            ) is SameTarget ==> (r matches Err(NeovimError::AlreadyConnected))
                && *final(self) == *old(self),
            crate::registry::gen_search(
                old(self).registry().entries_view(),
                target@,
                6,
            ) is Fresh && (transport matches Ok(_)) ==> r is Ok,
    {
        let connection_id = match self.nvim_clients.generate_shorter_connection_id(target) {
            Ok(id) => id,
            Err(e) => {
                return Err(e);
            },
        };
        let mut client = NeovimClient::new();
        match client.connect(target, transport) {
            Ok(_) => {},
            Err(e) => {
                return Err(e);
            },
        }
        let (setup_msgid, setup_request) = match client.setup_diagnostics_changed_autocmd() {
            Ok(p) => p,
            Err(e) => {
                return Err(e);
            },
        };
        let entry = ConnEntry { id: connection_id.clone(), client };
        let ghost entry_snap = entry;
        let inserted = self.nvim_clients.insert_if_absent(entry);
        proof {
            assert(inserted);
            assert forall|id: Seq<char>| ((#[trigger] self.registry().client_of(id))
                matches Some(c) ==> c.wf()) by {
                if id != entry_snap.id@ {
                    assert(self.registry().client_of(id)
                        == old(self).registry().client_of(id));
                }
            }
        }
        let target_owned: String = target.to_owned();
        Ok(ConnectReply { connection_id, target: target_owned, setup_msgid, setup_request })
    }

    /// Handles the connect tool for a TCP address; the semantics are
    /// those of `connect`, the transport kind being the caller's.
    pub fn connect_tcp(&mut self, target: &str, transport: Result<(), String>) -> (r: Result<
        ConnectReply,
        NeovimError,
    >)
        requires
            old(self).wf(),
        ensures
            final(self).wf(),
            (r matches Ok(reply) ==> {
                &&& final(self).registry().contains_id(reply.connection_id@)
                &&& reply.target@ == target@
                &&& crate::registry::gen_search(
                    old(self).registry().entries_view(),
                    target@,
                    6,
                ) == crate::registry::GenOutcome::Fresh(reply.connection_id@)
                &&& (forall|other: Seq<char>| other != reply.connection_id@
                    ==> #[trigger] final(self).registry().client_of(other)
                        == old(self).registry().client_of(other))
                &&& (final(self).registry().client_of(reply.connection_id@) matches Some(c)
                    && c.is_connected() && c.target_view() == Some(target@)
                    && c.cache_entries() == Seq::<crate::client::CacheEntry>::empty()
                    && c.rpc_state().subscribed(crate::client::diagnostics_method()))
                &&& reply.setup_request@ == crate::codec::enc(crate::rpc::frame_model(
                    crate::client::lua_request_model(
                        reply.setup_msgid as int,
                        crate::client::setup_diagnostics_code(),
                        Seq::empty(),
                    ),
                ))
                &&& final(self).router() == old(self).router()
            }),
            (transport matches Err(_)) && !(crate::registry::gen_search(
                old(self).registry().entries_view(),
                target@,
                6,
            ) is SameTarget) && !(crate::registry::gen_search(
                old(self).registry().entries_view(),
                target@,
                6,
            ) is Exhausted) ==> (r matches Err(NeovimError::Transport(_))),
            crate::registry::gen_search(
                old(self).registry().entries_view(),
                target@,
                6,
            ) is SameTarget ==> (r matches Err(NeovimError::AlreadyConnected))
                && *final(self) == *old(self),
            crate::registry::gen_search(
                old(self).registry().entries_view(),
                target@,
                6,
            ) is Fresh && (transport matches Ok(_)) ==> r is Ok,
    {
        self.connect(target, transport)
    }

    /// Handles the disconnect tool: removes the connection, tears its
    /// client down, and garbage-collects the connection's dynamic tools.
    /// `ConnectionNotFound` exactly when the id is unknown.
    pub fn disconnect(&mut self, connection_id: &String) -> (r: Result<
        DisconnectReply,
        NeovimError,
    >)
        requires
            old(self).wf(),
        ensures
            final(self).wf(),
            !old(self).registry().contains_id(connection_id@) ==> (r matches Err(
                NeovimError::ConnectionNotFound(_),
            )) && *final(self) == *old(self),
            old(self).registry().contains_id(connection_id@) ==> {
                &&& (r matches Ok(reply) && reply.connection_id@ == connection_id@
                    && (old(self).registry().client_of(connection_id@) matches Some(c)
                        ==> (c.target_view() matches Some(t) ==> reply.target@ == t)
                            && (c.target_view() is None ==> reply.target@ == "Unknown"@)))
                &&& !final(self).registry().contains_id(connection_id@)
                &&& (forall|other: Seq<char>| other != connection_id@
                    ==> #[trigger] final(self).registry().client_of(other)
                        == old(self).registry().client_of(other))
                &&& (forall|n: Seq<char>| #[trigger] final(self).router().dyn_tool(
                    n,
                    connection_id@,
                ) is None)
                &&& (forall|n: Seq<char>, c: Seq<char>| c != connection_id@
                    ==> #[trigger] final(self).router().dyn_tool(n, c)
                        == old(self).router().dyn_tool(n, c))
            },
    {
        proof {
            reveal_strlit("Unknown");
        }
        let entry = match self.nvim_clients.remove_and_take(connection_id) {
            Ok(entry) => entry,
            Err(e) => {
                return Err(e);
            },
        };
        let mut client = entry.client;
        let target = match client.target() {
            Some(t) => t,
            None => String::from_str("Unknown"),
        };
        match client.disconnect() {
            Ok(_) => {},
            Err(_) => {},
        }
        self.hybrid_router.unregister_dynamic_tools(connection_id.as_str());
        proof {
            assert forall|id: Seq<char>| ((#[trigger] self.registry().client_of(id))
                matches Some(c) ==> c.wf()) by {
                if id != connection_id@ {
                    assert(self.registry().client_of(id)
                        == old(self).registry().client_of(id));
                }
            }
        }
        Ok(DisconnectReply { connection_id: entry.id, target })
    }

    /// Handles the list-buffers tool: frames the request that lists the
    /// open buffers of this connection.
    pub fn list_buffers(&mut self, connection_id: &String) -> (r: Result<
        (u32, Vec<u8>),
        NeovimError,
    >)
        requires
            old(self).wf(),
        ensures
            final(self).wf(),
            final(self).router() == old(self).router(),
            !old(self).registry().contains_id(connection_id@) ==> (r matches Err(
                NeovimError::ConnectionNotFound(_),
            )) && *final(self) == *old(self),
            old(self).registry().contains_id(connection_id@) ==> {
                &&& final(self).registry().contains_id(connection_id@)
                &&& (forall|other: Seq<char>| other != connection_id@
                    ==> #[trigger] final(self).registry().client_of(other)
                        == old(self).registry().client_of(other))
                &&& (old(self).registry().client_of(connection_id@) matches Some(c)
                    && !c.is_connected() ==> (r matches Err(NeovimError::NotConnected)))
                &&& (old(self).registry().client_of(connection_id@) matches Some(c)
                    ==> (c.is_connected() && !c.rpc_state().is_closed()
                    && c.rpc_state().next() < u32::MAX ==> (r matches Ok(p) && {
                    let (msgid, bytes) = p;
                    &&& msgid as int == c.rpc_state().next()
                    &&& (final(self).registry().client_of(connection_id@) matches Some(c1)
                        && c1.rpc_state().pending_set()
                            == c.rpc_state().pending_set().insert(msgid as int))
                    &&& bytes@ == crate::codec::enc(crate::rpc::frame_model(
                        crate::client::lua_request_model(
                            msgid as int,
                            crate::client::get_buffers_code(),
                            Seq::empty(),
                        ),
                    ))
                })))
            },
    {
        let entry = match self.nvim_clients.remove_and_take(connection_id) {
            Ok(entry) => entry,
            Err(e) => {
                return Err(e);
            },
        };
        let mut client = entry.client;
        let out = client.get_buffers();
        let restored = ConnEntry { id: entry.id, client };
        let inserted = self.nvim_clients.insert_if_absent(restored);
        proof {
            assert(inserted);
            lemma_clients_wf(*old(self), *self, connection_id@);
        }
        out
    }

    /// Handles the exec-lua tool: frames the request that runs `code`
    /// remotely.  Empty code is rejected with `Api`.
    pub fn exec_lua(&mut self, connection_id: &String, code: &str) -> (r: Result<
        (u32, Vec<u8>),
        NeovimError,
    >)
        requires
            old(self).wf(),
        ensures
            final(self).wf(),
            final(self).router() == old(self).router(),
            !old(self).registry().contains_id(connection_id@) ==> (r matches Err(
                NeovimError::ConnectionNotFound(_),
            )) && *final(self) == *old(self),
            old(self).registry().contains_id(connection_id@) ==> {
                &&& final(self).registry().contains_id(connection_id@)
                &&& (forall|other: Seq<char>| other != connection_id@
                    ==> #[trigger] final(self).registry().client_of(other)
                        == old(self).registry().client_of(other))
                &&& (code@.len() == 0 ==> (r matches Err(NeovimError::Api(_))))
                &&& (old(self).registry().client_of(connection_id@) matches Some(c)
                    ==> (code@.len() > 0 && code.spec_bytes().len() <= u32::MAX
                    && c.is_connected() && !c.rpc_state().is_closed()
                    && c.rpc_state().next() < u32::MAX ==> (r matches Ok(p) && {
                    let (msgid, bytes) = p;
                    &&& msgid as int == c.rpc_state().next()
                    &&& (final(self).registry().client_of(connection_id@) matches Some(c1)
                        && c1.rpc_state().pending_set()
                            == c.rpc_state().pending_set().insert(msgid as int))
                    &&& bytes@ == crate::codec::enc(crate::rpc::frame_model(
                        crate::client::lua_request_model(
                            msgid as int,
                            code.spec_bytes(),
                            Seq::empty(),
                        ),
                    ))
                })))
            },
    {
        let entry = match self.nvim_clients.remove_and_take(connection_id) {
            Ok(entry) => entry,
            Err(e) => {
                return Err(e);
            },
        };
        let mut client = entry.client;
        let out = client.execute_lua(code);
        let restored = ConnEntry { id: entry.id, client };
        let inserted = self.nvim_clients.insert_if_absent(restored);
        proof {
            assert(inserted);
            lemma_clients_wf(*old(self), *self, connection_id@);
        }
        out
    }

    /// Handles the buffer-diagnostics tool: a pure read of the
    /// connection's diagnostics cache — empty if no notification for the
    /// buffer has arrived, never an error.
    pub fn buffer_diagnostics(&self, connection_id: &String, id: u64) -> (r: Result<
        Vec<Diagnostic>,
        NeovimError,
    >)
        requires
            self.wf(),
        ensures
            !self.registry().contains_id(connection_id@) ==> (r matches Err(
                NeovimError::ConnectionNotFound(_),
            )),
            self.registry().contains_id(connection_id@)
                ==> (r matches Ok(ds) && (self.registry().client_of(connection_id@)
                matches Some(c) && diags_model(ds@) == c.buffer_diags(id as int))),
    {
        match self.nvim_clients.find_index(connection_id) {
            None => Err(NeovimError::ConnectionNotFound(connection_id.clone())),
            Some(i) => {
                let entry = self.nvim_clients.entry_at(i);
                Ok(entry.client.get_buffer_diagnostics(id))
            },
        }
    }

    /// A snapshot of one connection's whole diagnostics cache.
    pub fn workspace_diagnostics(&self, connection_id: &String) -> (r: Result<
        Vec<(u64, Vec<Diagnostic>)>,
        NeovimError,
    >)
        requires
            self.wf(),
        ensures
            !self.registry().contains_id(connection_id@) ==> (r matches Err(
                NeovimError::ConnectionNotFound(_),
            )),
            self.registry().contains_id(connection_id@) ==> (r matches Ok(ws)
                && (self.registry().client_of(connection_id@) matches Some(c)
                    && ws@.len() == c.cache_entries().len()
                    && (forall|j: int| 0 <= j < ws@.len() ==> (#[trigger] ws@[j]).0
                        == c.cache_entries()[j].buffer_id
                        && diags_model(ws@[j].1@)
                            == diags_model(c.cache_entries()[j].diags@)))),
    {
        match self.nvim_clients.find_index(connection_id) {
            None => Err(NeovimError::ConnectionNotFound(connection_id.clone())),
            Some(i) => {
                let entry = self.nvim_clients.entry_at(i);
                Ok(entry.client.get_workspace_diagnostics())
            },
        }
    }

    /// Handles the lsp-clients tool: frames the request that lists LSP
    /// clients.
    pub fn lsp_clients(&mut self, connection_id: &String) -> (r: Result<
        (u32, Vec<u8>),
        NeovimError,
    >)
        requires
            old(self).wf(),
        ensures
            final(self).wf(),
            final(self).router() == old(self).router(),
            !old(self).registry().contains_id(connection_id@) ==> (r matches Err(
                NeovimError::ConnectionNotFound(_),
            )) && *final(self) == *old(self),
            old(self).registry().contains_id(connection_id@) ==> {
                &&& final(self).registry().contains_id(connection_id@)
                &&& (forall|other: Seq<char>| other != connection_id@
                    ==> #[trigger] final(self).registry().client_of(other)
                        == old(self).registry().client_of(other))
                &&& (old(self).registry().client_of(connection_id@) matches Some(c)
                    ==> (c.is_connected() && !c.rpc_state().is_closed()
                    && c.rpc_state().next() < u32::MAX ==> (r matches Ok(p) && {
                    let (msgid, bytes) = p;
                    &&& msgid as int == c.rpc_state().next()
                    &&& (final(self).registry().client_of(connection_id@) matches Some(c1)
                        && c1.rpc_state().pending_set()
                            == c.rpc_state().pending_set().insert(msgid as int))
                    &&& bytes@ == crate::codec::enc(crate::rpc::frame_model(
                        crate::client::lua_request_model(
                            msgid as int,
                            crate::client::lsp_clients_code(),
                            Seq::empty(),
                        ),
                    ))
                })))
            },
    {
        let entry = match self.nvim_clients.remove_and_take(connection_id) {
            Ok(entry) => entry,
            Err(e) => {
                return Err(e);
            },
        };
        let mut client = entry.client;
        let out = client.lsp_get_clients();
        let restored = ConnEntry { id: entry.id, client };
        let inserted = self.nvim_clients.insert_if_absent(restored);
        proof {
            assert(inserted);
            lemma_clients_wf(*old(self), *self, connection_id@);
        }
        out
    }

    /// Handles the buffer-code-actions tool: frames the request for code
    /// actions over the given zero-based range, passed through
    /// unchanged.
    pub fn buffer_code_actions(
        &mut self,
        connection_id: &String,
        id: u64,
        lsp_client_name: &str,
        line: u64,
        character: u64,
        end_line: u64,
        end_character: u64,
    ) -> (r: Result<(u32, Vec<u8>), NeovimError>)
        requires
            old(self).wf(),
        ensures
            final(self).wf(),
            final(self).router() == old(self).router(),
            !old(self).registry().contains_id(connection_id@) ==> (r matches Err(
                NeovimError::ConnectionNotFound(_),
            )) && *final(self) == *old(self),
            old(self).registry().contains_id(connection_id@) ==> {
                &&& final(self).registry().contains_id(connection_id@)
                &&& (forall|other: Seq<char>| other != connection_id@
                    ==> #[trigger] final(self).registry().client_of(other)
                        == old(self).registry().client_of(other))
                &&& (old(self).registry().client_of(connection_id@) matches Some(c)
                    ==> (lsp_client_name.spec_bytes().len() <= u32::MAX
                    && c.is_connected() && !c.rpc_state().is_closed()
                    && c.rpc_state().next() < u32::MAX ==> (r matches Ok(p) && {
                    let (msgid, bytes) = p;
                    &&& msgid as int == c.rpc_state().next()
                    &&& (final(self).registry().client_of(connection_id@) matches Some(c1)
                        && c1.rpc_state().pending_set()
                            == c.rpc_state().pending_set().insert(msgid as int))
                    &&& bytes@ == crate::codec::enc(crate::rpc::frame_model(
                        crate::client::lua_request_model(
                            msgid as int,
                            crate::client::lsp_code_actions_code(),
                            seq![
                                crate::value::ValueModel::Str(lsp_client_name.spec_bytes()),
                                crate::value::ValueModel::UInt(id as int),
                                crate::value::ValueModel::UInt(line as int),
                                crate::value::ValueModel::UInt(character as int),
                                crate::value::ValueModel::UInt(end_line as int),
                                crate::value::ValueModel::UInt(end_character as int),
                            ],
                        ),
                    ))
                })))
            },
    {
        let entry = match self.nvim_clients.remove_and_take(connection_id) {
            Ok(entry) => entry,
            Err(e) => {
                return Err(e);
            },
        };
        let mut client = entry.client;
        let start = Position { line, character };
        let end = Position { line: end_line, character: end_character };
        let range = Range { start, end };
        let out = client.lsp_get_code_actions(
            lsp_client_name,
            DocumentIdentifier::from_buffer_id(id),
            range,
        );
        let restored = ConnEntry { id: entry.id, client };
        let inserted = self.nvim_clients.insert_if_absent(restored);
        proof {
            assert(inserted);
            lemma_clients_wf(*old(self), *self, connection_id@);
        }
        out
    }

    /// Handles the get-targets tool over an already-scanned target list:
    /// an empty scan is an error rather than an empty result.
    pub fn get_targets(&self, targets: Vec<String>) -> (r: Result<Vec<String>, NeovimError>)
        ensures
            targets@.len() == 0 ==> (r matches Err(NeovimError::InvalidParams(_))),
            targets@.len() > 0 ==> (r matches Ok(ts) && ts == targets),
    {
        if targets.len() == 0 {
            Err(NeovimError::InvalidParams(String::from_str("No Neovim targets found")))
        } else {
            Ok(targets)
        }
    }

    /// Lists every tool, static and dynamic, sorted by name.
    pub fn list_tools(&self) -> (r: Vec<ToolListing>)
        requires
            self.wf(),
        ensures
            crate::router::sorted_listings(r@),
            crate::router::listing_models(r@).to_multiset()
                == self.router().expected_listing().to_multiset(),
    {
        self.hybrid_router.list_all_tools()
    }

    /// Resolves a tool call: a dynamic name needs its connection id
    /// (`InvalidParams` when absent, `ConnectionNotFound` when unknown);
    /// otherwise the call falls through to the static set, and a name in
    /// neither fails with `ToolNotFound`.
    pub fn call_tool(&self, tool_name: &String, connection_id: Option<&String>) -> (r: Result<
        ToolDispatch,
        NeovimError,
    >)
        requires
            self.wf(),
        ensures
            connection_id is None && self.router().has_dynamic(tool_name@) ==> (r matches Err(
                NeovimError::InvalidParams(_),
            )),
            connection_id matches Some(c) ==> {
                &&& (self.router().has_dynamic(tool_name@)
                    && !self.registry().contains_id(c@) ==> (r matches Err(
                    NeovimError::ConnectionNotFound(_),
                )))
                &&& (self.router().has_dynamic(tool_name@)
                    && self.registry().contains_id(c@)
                    && self.router().dyn_tool(tool_name@, c@) is Some ==> (r matches Ok(
                    ToolDispatch::Dynamic(t),
                ) && self.router().dyn_tool(tool_name@, c@) == Some(crate::router::tm(t))))
                &&& (self.router().has_dynamic(tool_name@)
                    && self.registry().contains_id(c@)
                    && self.router().dyn_tool(tool_name@, c@) is None ==> (r matches Err(
                    NeovimError::ToolNotFound(_),
                )))
            },
            !self.router().has_dynamic(tool_name@)
                && self.router().static_view().has_name(tool_name@)
                ==> r matches Ok(ToolDispatch::Static),
            !self.router().has_dynamic(tool_name@)
                && !self.router().static_view().has_name(tool_name@)
                ==> r matches Err(NeovimError::ToolNotFound(_)),
    {
        match connection_id {
            Some(c) => {
                if self.hybrid_router.has_dynamic_tool(tool_name) {
                    match self.nvim_clients.find_index(c) {
                        Some(_) => self.hybrid_router.call_tool(tool_name, Some(c)),
                        None => Err(NeovimError::ConnectionNotFound(c.clone())),
                    }
                } else {
                    self.hybrid_router.call_tool(tool_name, Some(c))
                }
            },
            None => self.hybrid_router.call_tool(tool_name, None),
        }
    }

    /// How many connections are registered.
    pub fn connection_count(&self) -> (r: usize)
        ensures
            r == self.registry().entries_view().len(),
    {
        self.nvim_clients.len()
    }
}

/// After replacing one connection's client with a well-formed one, every
/// registered client is still well-formed.
proof fn lemma_clients_wf(before: NeovimMcpServer, after: NeovimMcpServer, id: Seq<char>)
    requires
        before.wf(),
        forall|other: Seq<char>| other != id ==> #[trigger] after.registry().client_of(other)
            == before.registry().client_of(other),
        (after.registry().client_of(id) matches Some(c) ==> c.wf()),
        after.registry().wf(),
        after.router() == before.router(),
    ensures
        forall|i2: Seq<char>| (#[trigger] after.registry().client_of(i2)) matches Some(c)
            ==> c.wf(),
{
    assert forall|i2: Seq<char>| ((#[trigger] after.registry().client_of(i2))
        matches Some(c) ==> c.wf()) by {
        if i2 != id {
            assert(after.registry().client_of(i2) == before.registry().client_of(i2));
        }
    }
}

/// The long version string: the version, the commit, the build time,
/// and a dirty marker.
pub fn long_version(version: &str, sha: &str, build_time: &str, dirty: bool) -> (r: String)
    ensures
        r@ == version@ + " (sha:\""@ + sha@ + "\", build_time:\""@ + build_time@
            + "\")"@ + (if dirty { "[dirty]"@ } else { Seq::<char>::empty() }),
{
    let mut s = String::new();
    s.append(version);
    s.append(" (sha:\"");
    s.append(sha);
    s.append("\", build_time:\"");
    s.append(build_time);
    s.append("\")");
    if dirty {
        s.append("[dirty]");
    }
    proof {
        assert(s@ =~= version@ + " (sha:\""@ + sha@ + "\", build_time:\""@ + build_time@
            + "\")"@ + (if dirty { "[dirty]"@ } else { Seq::<char>::empty() }));
    }
    s
}



impl NeovimMcpServer {
    /// Routes one decoded message from a connection's reader into its
    /// client: responses reach their callers, diagnostics notifications
    /// update the cache.  `ConnectionNotFound` exactly when the id is
    /// unknown.
    pub fn handle_incoming(&mut self, connection_id: &String, msg: crate::rpc::RpcMessage)
        -> (r: Result<ClientEvent, NeovimError>)
        requires
            old(self).wf(),
        ensures
            final(self).wf(),
            final(self).router() == old(self).router(),
            !old(self).registry().contains_id(connection_id@) ==> (r matches Err(
                NeovimError::ConnectionNotFound(_),
            )) && *final(self) == *old(self),
            old(self).registry().contains_id(connection_id@) ==> {
                &&& r is Ok
                &&& final(self).registry().contains_id(connection_id@)
                &&& (forall|other: Seq<char>| other != connection_id@
                    ==> #[trigger] final(self).registry().client_of(other)
                        == old(self).registry().client_of(other))
                &&& (r matches Ok(ev)
                    && (old(self).registry().client_of(connection_id@) matches Some(c0)
                    && final(self).registry().client_of(connection_id@) matches Some(c1)
                    && {
                    &&& (crate::rpc::mm(msg) matches crate::rpc::RpcMessageModel::Response {
                        msgid, error, result,
                    } ==> crate::client::response_step_ok(c0, c1, ev, msgid, error, result))
                    &&& (crate::rpc::mm(msg)
                        matches crate::rpc::RpcMessageModel::Notification {
                        method, params,
                    } ==> crate::client::notification_step_ok(c0, c1, ev, method, params))
                    &&& (crate::rpc::mm(msg) matches crate::rpc::RpcMessageModel::Request {
                        msgid, ..
                    } ==> crate::client::request_step_ok(c0, c1, ev, msgid))
                }))
            },
    {
        let entry = match self.nvim_clients.remove_and_take(connection_id) {
            Ok(entry) => entry,
            Err(e) => {
                return Err(e);
            },
        };
        let mut client = entry.client;
        let ev = client.handle_message(msg);
        let restored = ConnEntry { id: entry.id, client };
        let inserted = self.nvim_clients.insert_if_absent(restored);
        proof {
            assert(inserted);
            lemma_clients_wf(*old(self), *self, connection_id@);
        }
        Ok(ev)
    }
}

/// `s` begins with `p`.
pub open spec fn starts_with(s: Seq<char>, p: Seq<char>) -> bool {
    s.len() >= p.len() && s.subrange(0, p.len() as int) == p
}

/// The index of the first `/` in `s`, if any.
pub open spec fn first_slash(s: Seq<char>) -> Option<int>
    decreases s.len(),
{
    if s.len() == 0 {
        None
    } else if s[0] == '/' {
        Some(0)
    } else {
        match first_slash(s.drop_first()) {
            Some(i) => Some(i + 1),
            None => None,
        }
    }
}

/// The value of a non-empty all-digit decimal numeral.
pub open spec fn dec_value(s: Seq<char>) -> Option<int>
    decreases s.len(),
{
    if s.len() == 0 {
        None
    } else if s.len() == 1 {
        if '0' <= s[0] <= '9' {
            Some(s[0] as int - '0' as int)
        } else {
            None
        }
    } else {
        match dec_value(s.drop_last()) {
            Some(v) => if '0' <= s.last() <= '9' {
                Some(v * 10 + (s.last() as int - '0' as int))
            } else {
                None
            },
            None => None,
        }
    }
}

/// What a resource URI names.
pub enum ResourceRef {
    /// `nvim-connections://`: every live connection.
    ConnectionsList,
    /// `nvim-tools://`: every tool and its connection mapping.
    ToolsOverview,
    /// `nvim-tools://{connection_id}`: one connection's tools.
    ConnectionTools(String),
    /// `nvim-diagnostics://{connection_id}/workspace`.
    WorkspaceDiagnostics(String),
    /// `nvim-diagnostics://{connection_id}/buffer/{id}`.
    BufferDiagnostics(String, u64),
    /// A diagnostics URI whose buffer id is not a decimal number.
    InvalidBufferId(String),
    /// Anything else.
    Unknown,
}

/// The model of a [`ResourceRef`].
pub enum ResourceRefModel {
    ConnectionsList,
    ToolsOverview,
    ConnectionTools(Seq<char>),
    WorkspaceDiagnostics(Seq<char>),
    BufferDiagnostics(Seq<char>, int),
    InvalidBufferId(Seq<char>),
    Unknown,
}

/// The model of a [`ResourceRef`].
pub open spec fn rrm(r: ResourceRef) -> ResourceRefModel {
    match r {
        ResourceRef::ConnectionsList => ResourceRefModel::ConnectionsList,
        ResourceRef::ToolsOverview => ResourceRefModel::ToolsOverview,
        ResourceRef::ConnectionTools(id) => ResourceRefModel::ConnectionTools(id@),
        ResourceRef::WorkspaceDiagnostics(id) => ResourceRefModel::WorkspaceDiagnostics(id@),
        ResourceRef::BufferDiagnostics(id, b) => ResourceRefModel::BufferDiagnostics(
            id@,
            b as int,
        ),
        ResourceRef::InvalidBufferId(id) => ResourceRefModel::InvalidBufferId(id@),
        ResourceRef::Unknown => ResourceRefModel::Unknown,
    }
}

/// The resource grammar: which resource a URI names.  The connection id
/// runs to the first `/` after the scheme and must be non-empty; a
/// diagnostics path is `workspace` or `buffer/` and a decimal buffer id.
pub open spec fn uri_ref(u: Seq<char>) -> ResourceRefModel {
    if u == "nvim-connections://"@ {
        ResourceRefModel::ConnectionsList
    } else if u == "nvim-tools://"@ {
        ResourceRefModel::ToolsOverview
    } else if starts_with(u, "nvim-tools://"@) {
        ResourceRefModel::ConnectionTools(u.skip("nvim-tools://"@.len() as int))
    } else if starts_with(u, "nvim-diagnostics://"@) {
        let rest = u.skip("nvim-diagnostics://"@.len() as int);
        match first_slash(rest) {
            Some(i) => if i > 0 && i + 1 < rest.len() {
                let id = rest.subrange(0, i);
                let tail = rest.skip(i + 1);
                if tail == "workspace"@ {
                    ResourceRefModel::WorkspaceDiagnostics(id)
                } else if starts_with(tail, "buffer/"@) {
                    match dec_value(tail.skip("buffer/"@.len() as int)) {
                        Some(v) => if v <= u64::MAX {
                            ResourceRefModel::BufferDiagnostics(id, v)
                        } else {
                            ResourceRefModel::InvalidBufferId(id)
                        },
                        None => ResourceRefModel::InvalidBufferId(id),
                    }
                } else {
                    ResourceRefModel::Unknown
                }
            } else {
                ResourceRefModel::Unknown
            },
            None => ResourceRefModel::Unknown,
        }
    } else {
        ResourceRefModel::Unknown
    }
}

/// Whether `s` begins with `p`.
pub fn str_starts_with(s: &str, p: &str) -> (r: bool)
    ensures
        r == starts_with(s@, p@),
{
    let sn = s.unicode_len();
    let pn = p.unicode_len();
    if sn < pn {
        return false;
    }
    let mut i: usize = 0;
    while i < pn
        invariant
            sn == s@.len(),
            pn == p@.len(),
            pn <= sn,
            i <= pn,
            forall|j: int| 0 <= j < i ==> s@[j] == p@[j],
        decreases pn - i,
    {
        if s.get_char(i) != p.get_char(i) {
            proof {
                assert(s@[i as int] != p@[i as int]);
                if starts_with(s@, p@) {
                    assert(s@.subrange(0, pn as int)[i as int] == p@[i as int]);
                }
            }
            return false;
        }
        i = i + 1;
    }
    proof {
        assert(s@.subrange(0, pn as int) =~= p@);
    }
    true
}

/// Whether `s` equals `p`, character by character.
pub fn str_eq_chars(s: &str, p: &str) -> (r: bool)
    ensures
        r == (s@ == p@),
{
    let sn = s.unicode_len();
    let pn = p.unicode_len();
    if sn != pn {
        proof {
            assert(s@.len() != p@.len());
        }
        return false;
    }
    let r = str_starts_with(s, p);
    proof {
        if starts_with(s@, p@) {
            assert(s@.subrange(0, pn as int) =~= s@);
        }
        if s@ == p@ {
            assert(s@.subrange(0, pn as int) =~= p@);
        }
    }
    r
}

/// The index of the first `/` in `s`, if any.
fn find_slash(s: &str) -> (r: Option<usize>)
    ensures
        match r {
            Some(i) => first_slash(s@) == Some(i as int) && i < s@.len(),
            None => first_slash(s@) is None,
        },
{
    let n = s.unicode_len();
    proof {
        assert(s@.skip(0) =~= s@);
    }
    let mut i: usize = 0;
    while i < n
        invariant
            n == s@.len(),
            i <= n,
            forall|j: int| 0 <= j < i ==> s@[j] != '/',
        decreases n - i,
    {
        if s.get_char(i) == '/' {
            proof {
                lemma_first_slash_at(s@, i as int);
            }
            return Some(i);
        }
        i = i + 1;
    }
    proof {
        lemma_first_slash_none(s@);
    }
    None
}

/// Parses a non-empty all-digit decimal numeral into a `u64`.
pub fn parse_u64(s: &str) -> (r: Option<u64>)
    ensures
        (r matches Some(v) ==> dec_value(s@) == Some(v as int)),
        (r is None ==> (match dec_value(s@) {
            Some(v) => v > u64::MAX,
            None => true,
        })),
{
    let n = s.unicode_len();
    if n == 0 {
        return None;
    }
    let mut acc: u64 = 0;
    let mut i: usize = 0;
    while i < n
        invariant
            n == s@.len(),
            0 < n,
            i <= n,
            i > 0 ==> dec_value(s@.subrange(0, i as int)) == Some(acc as int),
            i == 0 ==> acc == 0,
        decreases n - i,
    {
        let c = s.get_char(i);
        if c < '0' || c > '9' {
            proof {
                lemma_dec_bad_digit(s@, i as int);
            }
            return None;
        }
        let d = (c as u32 - '0' as u32) as u64;
        if acc > (u64::MAX - d) / 10 {
            proof {
                lemma_dec_overflow(s@, i as int, acc as int, d as int);
            }
            return None;
        }
        let acc2 = acc * 10 + d;
        proof {
            assert(s@.subrange(0, i + 1).drop_last() =~= s@.subrange(0, i as int));
            assert(s@.subrange(0, i + 1).last() == s@[i as int]);
        }
        acc = acc2;
        i = i + 1;
    }
    proof {
        assert(s@.subrange(0, n as int) =~= s@);
    }
    Some(acc)
}

/// A numeral whose prefix is valid but whose next character is not a
/// digit has no value.
proof fn lemma_dec_bad_digit(s: Seq<char>, i: int)
    requires
        0 <= i < s.len(),
        !('0' <= s[i] <= '9'),
    ensures
        dec_value(s) is None,
    decreases s.len(),
{
    if s.len() == 0 {
    } else if i == s.len() - 1 {
        assert(s.subrange(0, s.len() as int) =~= s);
    } else {
        assert(s.drop_last() =~= s.subrange(0, s.len() - 1));
        lemma_dec_bad_digit(s.drop_last(), i);
    }
}

/// A numeral that exceeds the accumulator bound exceeds `u64::MAX`.
proof fn lemma_dec_overflow(s: Seq<char>, i: int, acc: int, d: int)
    requires
        0 <= i < s.len(),
        '0' <= s[i] <= '9',
        d == s[i] as int - '0' as int,
        i > 0 ==> dec_value(s.subrange(0, i)) == Some(acc),
        i == 0 ==> acc == 0,
        acc * 10 + d > u64::MAX,
    ensures
        match dec_value(s) {
            Some(v) => v > u64::MAX,
            None => true,
        },
    decreases s.len() - i,
{
    if i == s.len() - 1 {
        if i == 0 {
            assert(s.len() == 1);
        } else {
            assert(s.drop_last() =~= s.subrange(0, i));
            assert(dec_value(s) == Some(acc * 10 + d));
        }
    } else {
        assert(s.subrange(0, i + 1).drop_last() =~= s.subrange(0, i));
        assert(s.subrange(0, i + 1).last() == s[i]);
        if i == 0 {
            assert(dec_value(s.subrange(0, 1)) == Some(d));
            lemma_dec_monotone(s, i + 1, d);
        } else {
            assert(dec_value(s.subrange(0, i + 1)) == Some(acc * 10 + d));
            lemma_dec_monotone(s, i + 1, acc * 10 + d);
        }
    }
}

/// Extending a numeral never shrinks its value.
proof fn lemma_dec_monotone(s: Seq<char>, i: int, v: int)
    requires
        0 < i <= s.len(),
        dec_value(s.subrange(0, i)) == Some(v),
        v >= 0,
    ensures
        match dec_value(s) {
            Some(w) => w >= v,
            None => true,
        },
    decreases s.len() - i,
{
    if i == s.len() {
        assert(s.subrange(0, i) =~= s);
    } else {
        assert(s.subrange(0, i + 1).drop_last() =~= s.subrange(0, i));
        assert(s.subrange(0, i + 1).last() == s[i]);
        if '0' <= s[i] <= '9' {
            lemma_dec_monotone(s, i + 1, v * 10 + (s[i] as int - '0' as int));
        } else {
            lemma_dec_none_extends(s, i + 1);
        }
    }
}

/// A prefix with no value leaves the whole numeral with no value.
proof fn lemma_dec_none_extends(s: Seq<char>, i: int)
    requires
        0 < i <= s.len(),
        dec_value(s.subrange(0, i)) is None,
    ensures
        dec_value(s) is None,
    decreases s.len() - i,
{
    if i == s.len() {
        assert(s.subrange(0, i) =~= s);
    } else {
        assert(s.subrange(0, i + 1).drop_last() =~= s.subrange(0, i));
        lemma_dec_none_extends(s, i + 1);
    }
}

/// The first slash is at the found index.
proof fn lemma_first_slash_at(s: Seq<char>, i: int)
    requires
        0 <= i < s.len(),
        s[i] == '/',
        forall|j: int| 0 <= j < i ==> s[j] != '/',
    ensures
        first_slash(s) == Some(i),
    decreases i,
{
    if i > 0 {
        lemma_first_slash_at(s.drop_first(), i - 1);
    }
}

/// No slash anywhere: none found.
proof fn lemma_first_slash_none(s: Seq<char>)
    requires
        forall|j: int| 0 <= j < s.len() ==> s[j] != '/',
    ensures
        first_slash(s) is None,
    decreases s.len(),
{
    if s.len() > 0 {
        lemma_first_slash_none(s.drop_first());
    }
}

/// Reads a resource URI against the resource grammar.
pub fn parse_resource_uri(uri: &str) -> (r: ResourceRef)
    ensures
        rrm(r) == uri_ref(uri@),
{
    proof {
        reveal_strlit("nvim-connections://");
        reveal_strlit("nvim-tools://");
        reveal_strlit("nvim-diagnostics://");
        reveal_strlit("workspace");
        reveal_strlit("buffer/");
    }
    if str_eq_chars(uri, "nvim-connections://") {
        return ResourceRef::ConnectionsList;
    }
    if str_eq_chars(uri, "nvim-tools://") {
        return ResourceRef::ToolsOverview;
    }
    if str_starts_with(uri, "nvim-tools://") {
        let plen = "nvim-tools://".unicode_len();
        let n = uri.unicode_len();
        let id = uri.substring_char(plen, n).to_owned();
        proof {
            assert(id@ =~= uri@.skip("nvim-tools://"@.len() as int));
        }
        return ResourceRef::ConnectionTools(id);
    }
    if str_starts_with(uri, "nvim-diagnostics://") {
        let plen = "nvim-diagnostics://".unicode_len();
        let n = uri.unicode_len();
        let rest = uri.substring_char(plen, n);
        proof {
            assert(rest@ =~= uri@.skip("nvim-diagnostics://"@.len() as int));
        }
        match find_slash(rest) {
            Some(i) => {
                let rn = rest.unicode_len();
                if i > 0 && i + 1 < rn {
                    let id = rest.substring_char(0, i).to_owned();
                    let tail = rest.substring_char(i + 1, rn);
                    proof {
                        assert(id@ =~= rest@.subrange(0, i as int));
                        assert(tail@ =~= rest@.skip(i + 1));
                    }
                    if str_eq_chars(tail, "workspace") {
                        return ResourceRef::WorkspaceDiagnostics(id);
                    }
                    if str_starts_with(tail, "buffer/") {
                        let blen = "buffer/".unicode_len();
                        let tn = tail.unicode_len();
                        let num = tail.substring_char(blen, tn);
                        proof {
                            assert(num@ =~= tail@.skip("buffer/"@.len() as int));
                        }
                        match parse_u64(num) {
                            Some(v) => {
                                return ResourceRef::BufferDiagnostics(id, v);
                            },
                            None => {
                                return ResourceRef::InvalidBufferId(id);
                            },
                        }
                    }
                    return ResourceRef::Unknown;
                }
                ResourceRef::Unknown
            },
            None => ResourceRef::Unknown,
        }
    } else {
        ResourceRef::Unknown
    }
}


/// What a resource read returns: a structured snapshot for the caller
/// to serialize.
pub enum ResourceContent {
    /// Each connection's id and target.
    Connections(Vec<(String, String)>),
    /// The static tools, and each connection's dynamic tools.
    ToolsOverview(Vec<(String, String)>, Vec<(String, Vec<(String, String, bool)>)>),
    /// One connection's tools, flagged static or dynamic, and its
    /// dynamic tool count.
    ConnectionTools(String, Vec<(String, String, bool)>, usize),
    /// One connection's whole diagnostics cache.
    Workspace(Vec<(u64, Vec<Diagnostic>)>),
    /// One buffer's cached diagnostics.
    Buffer(Vec<Diagnostic>),
}

impl NeovimMcpServer {
    /// Each connection's id and target, in registration order.
    pub fn connection_snapshot(&self) -> (r: Vec<(String, String)>)
        requires
            self.wf(),
        ensures
            r@.len() == self.registry().entries_view().len(),
            forall|i: int| 0 <= i < r@.len() ==> (#[trigger] r@[i]).0@
                == self.registry().entries_view()[i].id@
                && (self.registry().entries_view()[i].client.target_view() matches Some(t)
                    ==> r@[i].1@ == t)
                && (self.registry().entries_view()[i].client.target_view() is None
                    ==> r@[i].1@ == "Unknown"@),
    {
        proof {
            reveal_strlit("Unknown");
        }
        let n = self.nvim_clients.len();
        let mut out: Vec<(String, String)> = Vec::new();
        let mut i: usize = 0;
        while i < n
            invariant
                self.wf(),
                n == self.registry().entries_view().len(),
                i <= n,
                out@.len() == i,
                forall|j: int| 0 <= j < i ==> (#[trigger] out@[j]).0@
                    == self.registry().entries_view()[j].id@
                    && (self.registry().entries_view()[j].client.target_view()
                        matches Some(t) ==> out@[j].1@ == t)
                    && (self.registry().entries_view()[j].client.target_view() is None
                        ==> out@[j].1@ == "Unknown"@),
            decreases n - i,
        {
            proof {
                reveal_strlit("Unknown");
            }
            let entry = self.nvim_clients.entry_at(i);
            let target = match entry.client.target() {
                Some(t) => t,
                None => String::from_str("Unknown"),
            };
            out.push((entry.id.clone(), target));
            i = i + 1;
        }
        out
    }

    /// Reads a resource: the structured snapshot its URI names.  Fails
    /// with `ResourceNotFound` exactly on a URI outside the grammar,
    /// `InvalidParams` on a malformed buffer id, and `ConnectionNotFound`
    /// on an unknown connection id.
    pub fn read_resource(&self, uri: &str) -> (r: Result<ResourceContent, NeovimError>)
        requires
            self.wf(),
        ensures
            uri_ref(uri@) is Unknown ==> (r matches Err(NeovimError::ResourceNotFound(_))),
            uri_ref(uri@) matches ResourceRefModel::InvalidBufferId(_) ==> (r matches Err(
                NeovimError::InvalidParams(_),
            )),
            uri_ref(uri@) is ConnectionsList ==> (r matches Ok(
                ResourceContent::Connections(cs),
            ) && cs@.len() == self.registry().entries_view().len()
                && (forall|j: int| 0 <= j < cs@.len() ==> (#[trigger] cs@[j]).0@
                    == self.registry().entries_view()[j].id@
                    && (self.registry().entries_view()[j].client.target_view()
                        matches Some(t) ==> cs@[j].1@ == t)
                    && (self.registry().entries_view()[j].client.target_view() is None
                        ==> cs@[j].1@ == "Unknown"@))),
            uri_ref(uri@) is ToolsOverview ==> (r matches Ok(
                ResourceContent::ToolsOverview(statics, per_conn),
            ) && {
                &&& statics@.len() == self.router().static_view().tools_view().len()
                &&& (forall|j: int| 0 <= j < statics@.len()
                    ==> ((#[trigger] statics@[j]).0@, statics@[j].1@)
                        == self.router().static_view().tools_view()[j])
                &&& per_conn@.len() == self.registry().entries_view().len()
                &&& (forall|j: int| 0 <= j < per_conn@.len()
                    ==> (#[trigger] per_conn@[j]).0@
                        == self.registry().entries_view()[j].id@)
            }),
            uri_ref(uri@) matches ResourceRefModel::ConnectionTools(id) ==> (
                !self.registry().contains_id(id) ==> (r matches Err(
                    NeovimError::ConnectionNotFound(_),
                ))) && (self.registry().contains_id(id) ==> (r matches Ok(
                ResourceContent::ConnectionTools(id2, infos, count),
            ) && {
                &&& id2@ == id
                &&& count == crate::router::count_for(
                    self.router().names_view(),
                    id,
                    self.router().names_view().len() as int,
                )
                &&& infos@.len() == self.router().static_view().tools_view().len()
                    + count as int
                &&& (forall|j: int| 0 <= j < self.router().static_view().tools_view().len()
                    ==> ((#[trigger] infos@[j]).0@, infos@[j].1@)
                        == self.router().static_view().tools_view()[j]
                        && infos@[j].2 == true)
                &&& (forall|j: int| self.router().static_view().tools_view().len() <= j
                    < infos@.len() ==> (#[trigger] infos@[j]).2 == false
                        && self.router().dyn_tool(infos@[j].0@, id) is Some)
            })),
            uri_ref(uri@) matches ResourceRefModel::WorkspaceDiagnostics(id) ==> (
                !self.registry().contains_id(id) ==> (r matches Err(
                    NeovimError::ConnectionNotFound(_),
                ))) && (self.registry().contains_id(id) ==> (r matches Ok(
                ResourceContent::Workspace(ws),
            ) && (self.registry().client_of(id) matches Some(c) && {
                &&& ws@.len() == c.cache_entries().len()
                &&& (forall|j: int| 0 <= j < ws@.len() ==> (#[trigger] ws@[j]).0
                    == c.cache_entries()[j].buffer_id
                    && diags_model(ws@[j].1@)
                        == diags_model(c.cache_entries()[j].diags@))
            }))),
            uri_ref(uri@) matches ResourceRefModel::BufferDiagnostics(id, b) ==> (
                !self.registry().contains_id(id) ==> (r matches Err(
                    NeovimError::ConnectionNotFound(_),
                ))) && (self.registry().contains_id(id) ==> (r matches Ok(
                ResourceContent::Buffer(ds),
            ) && (self.registry().client_of(id) matches Some(c)
                && diags_model(ds@) == c.buffer_diags(b)))),
    {
        match parse_resource_uri(uri) {
            ResourceRef::ConnectionsList => Ok(ResourceContent::Connections(
                self.connection_snapshot(),
            )),
            ResourceRef::ToolsOverview => {
                let statics = self.hybrid_router.static_router().list_all();
                let n = self.nvim_clients.len();
                let mut per_conn: Vec<(String, Vec<(String, String, bool)>)> = Vec::new();
                let mut i: usize = 0;
                while i < n
                    invariant
                        self.wf(),
                        n == self.registry().entries_view().len(),
                        i <= n,
                        per_conn@.len() == i,
                        forall|j: int| 0 <= j < i ==> (#[trigger] per_conn@[j]).0@
                            == self.registry().entries_view()[j].id@,
                    decreases n - i,
                {
                    let id = self.nvim_clients.entry_at(i).id.clone();
                    let infos = self.hybrid_router.get_connection_tools_info(id.as_str());
                    per_conn.push((id, infos));
                    i = i + 1;
                }
                Ok(ResourceContent::ToolsOverview(statics, per_conn))
            },
            ResourceRef::ConnectionTools(id) => {
                match self.nvim_clients.find_index(&id) {
                    None => Err(NeovimError::ConnectionNotFound(id)),
                    Some(_) => {
                        let infos = self.hybrid_router.get_connection_tools_info(
                            id.as_str(),
                        );
                        let count = self.hybrid_router.get_connection_tool_count(
                            id.as_str(),
                        );
                        Ok(ResourceContent::ConnectionTools(id, infos, count))
                    },
                }
            },
            ResourceRef::WorkspaceDiagnostics(id) => {
                match self.nvim_clients.find_index(&id) {
                    None => Err(NeovimError::ConnectionNotFound(id)),
                    Some(i) => {
                        let entry = self.nvim_clients.entry_at(i);
                        Ok(ResourceContent::Workspace(
                            entry.client.get_workspace_diagnostics(),
                        ))
                    },
                }
            },
            ResourceRef::BufferDiagnostics(id, b) => {
                match self.nvim_clients.find_index(&id) {
                    None => Err(NeovimError::ConnectionNotFound(id)),
                    Some(i) => {
                        let entry = self.nvim_clients.entry_at(i);
                        Ok(ResourceContent::Buffer(
                            entry.client.get_buffer_diagnostics(b),
                        ))
                    },
                }
            },
            ResourceRef::InvalidBufferId(_) => Err(NeovimError::InvalidParams(
                String::from_str("Invalid buffer ID"),
            )),
            ResourceRef::Unknown => Err(NeovimError::ResourceNotFound(uri.to_owned())),
        }
    }

    /// Lists the readable resources: the two fixed ones, then a
    /// diagnostics and a tools resource per connection.
    #[verifier::rlimit(60)]
    pub fn list_resources(&self) -> (r: Vec<(String, String)>)
        requires
            self.wf(),
        ensures
            r@.len() == 2 + 2 * self.registry().entries_view().len(),
            r@[0].0@ == "nvim-connections://"@,
            r@[1].0@ == "nvim-tools://"@,
            forall|j: int| 0 <= j < self.registry().entries_view().len()
                ==> (#[trigger] r@[2 + 2 * j]).0@ == "nvim-diagnostics://"@
                    + self.registry().entries_view()[j].id@ + "/workspace"@,
            forall|j: int| 0 <= j < self.registry().entries_view().len()
                ==> (#[trigger] r@[3 + 2 * j]).0@ == "nvim-tools://"@
                    + self.registry().entries_view()[j].id@,
    {
        proof {
            reveal_strlit("nvim-connections://");
            reveal_strlit("nvim-tools://");
        }
        let mut out: Vec<(String, String)> = Vec::new();
        out.push((
            String::from_str("nvim-connections://"),
            String::from_str("Active Neovim Connections"),
        ));
        out.push((
            String::from_str("nvim-tools://"),
            String::from_str("Tool Registration Overview"),
        ));
        let n = self.nvim_clients.len();
        let mut i: usize = 0;
        while i < n
            invariant
                self.wf(),
                n == self.registry().entries_view().len(),
                i <= n,
                out@.len() == 2 + 2 * i,
                out@[0].0@ == "nvim-connections://"@,
                out@[1].0@ == "nvim-tools://"@,
                forall|j: int| 0 <= j < i ==> (#[trigger] out@[2 + 2 * j]).0@
                    == "nvim-diagnostics://"@
                        + self.registry().entries_view()[j].id@ + "/workspace"@,
                forall|j: int| 0 <= j < i ==> (#[trigger] out@[3 + 2 * j]).0@
                    == "nvim-tools://"@ + self.registry().entries_view()[j].id@,
            decreases n - i,
        {
            proof {
                reveal_strlit("nvim-diagnostics://");
                reveal_strlit("/workspace");
                reveal_strlit("nvim-tools://");
            }
            let id = &self.nvim_clients.entry_at(i).id;
            let mut diag_uri = String::from_str("nvim-diagnostics://");
            diag_uri.append(id.as_str());
            diag_uri.append("/workspace");
            let mut diag_name = String::from_str("Workspace Diagnostics (");
            diag_name.append(id.as_str());
            diag_name.append(")");
            out.push((diag_uri, diag_name));
            let mut tools_uri = String::from_str("nvim-tools://");
            tools_uri.append(id.as_str());
            let mut tools_name = String::from_str("Tools for Connection (");
            tools_name.append(id.as_str());
            tools_name.append(")");
            out.push((tools_uri, tools_name));
            proof {
                assert(out@[2 + 2 * i as int].0@ == "nvim-diagnostics://"@
                    + self.registry().entries_view()[i as int].id@ + "/workspace"@);
                assert(out@[3 + 2 * i as int].0@ == "nvim-tools://"@
                    + self.registry().entries_view()[i as int].id@);
                assert forall|j: int| 0 <= j < i + 1
                    implies (#[trigger] out@[2 + 2 * j]).0@ == "nvim-diagnostics://"@
                        + self.registry().entries_view()[j].id@ + "/workspace"@ by {
                }
                assert forall|j: int| 0 <= j < i + 1
                    implies (#[trigger] out@[3 + 2 * j]).0@ == "nvim-tools://"@
                        + self.registry().entries_view()[j].id@ by {
                }
            }
            i = i + 1;
        }
        out
    }
}

} // verus!
