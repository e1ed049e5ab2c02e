//! The per-connection editor client: a `Disconnected`/`Connected` state
//! machine over the RPC correlation state, typed request builders for the
//! editor operations, and the diagnostics cache that server-initiated
//! notifications replace buffer by buffer.

use vstd::prelude::*;

use crate::codec::{enc, encode_value};
use crate::error::NeovimError;
use crate::rpc::{frame_model, mm, RpcAction, RpcMessage, RpcMessageModel, RpcState};
use crate::value::{vm, vm_items, vm_pairs, wf_list, Value, ValueModel};
use crate::text::{bytes_to_string, utf8_decode};
use vstd::string::{StringSliceAdditionalSpecFns, StrSliceExecFns};

verus! {

broadcast use vstd::std_specs::vec::axiom_vec_index_decreases, vstd::seq::axiom_seq_index_decreases;

/// One diagnostic entry, as the editor reports it.  Positions are
/// zero-based line/character values, passed through unchanged.
pub struct Diagnostic {
    pub lnum: u64,
    pub col: u64,
    pub end_lnum: u64,
    pub end_col: u64,
    pub severity: u64,
    pub message: String,
    pub source: String,
}

/// The mathematical model of a [`Diagnostic`].
pub struct DiagnosticModel {
    pub lnum: int,
    pub col: int,
    pub end_lnum: int,
    pub end_col: int,
    pub severity: int,
    pub message: Seq<char>,
    pub source: Seq<char>,
}

/// The model of a [`Diagnostic`].
pub open spec fn dm(d: Diagnostic) -> DiagnosticModel {
    DiagnosticModel {
        lnum: d.lnum as int,
        col: d.col as int,
        end_lnum: d.end_lnum as int,
        end_col: d.end_col as int,
        severity: d.severity as int,
        message: d.message@,
        source: d.source@,
    }
}

/// The models of a vector of diagnostics.
pub open spec fn diags_model(v: Seq<Diagnostic>) -> Seq<DiagnosticModel> {
    Seq::new(v.len(), |i: int| dm(v[i]))
}

/// A zero-based cursor position.
pub struct Position {
    pub line: u64,
    pub character: u64,
}

/// A zero-based cursor range.
pub struct Range {
    pub start: Position,
    pub end: Position,
}

/// Names the document a request applies to, by buffer id.
pub struct DocumentIdentifier {
    pub buffer_id: u64,
}

impl DocumentIdentifier {
    /// The identifier of the buffer with this id.
    pub fn from_buffer_id(buffer_id: u64) -> (r: Self)
        ensures
            r.buffer_id == buffer_id,
    {
        DocumentIdentifier { buffer_id }
    }
}

/// One open buffer, as `get_buffers` reports it.
pub struct Buffer {
    pub id: u64,
    pub name: String,
    pub line_count: u64,
}

/// A code action offered by a language server: its title, and the raw
/// value the server sent, passed back unchanged when resolving.
pub struct CodeAction {
    pub title: String,
    pub raw: Value,
}

/// A workspace edit, carried through to the editor unchanged.
pub struct WorkspaceEdit {
    pub raw: Value,
}

/// What a rename request may rename, as a language server reports it.
pub struct PrepareRenameResult {
    pub range: Range,
    pub placeholder: String,
}

/// An entry of the diagnostics cache: a buffer id and the most recent
/// diagnostics reported for it.
pub struct CacheEntry {
    pub buffer_id: u64,
    pub diags: Vec<Diagnostic>,
}

/// The diagnostics most recently reported for buffer `b`, if any.
pub open spec fn cache_find(entries: Seq<CacheEntry>, b: int) -> Option<Seq<DiagnosticModel>>
    decreases entries.len(),
{
    if entries.len() == 0 {
        None
    } else if entries[0].buffer_id == b {
        Some(diags_model(entries[0].diags@))
    } else {
        cache_find(entries.drop_first(), b)
    }
}

/// The per-connection editor client.
pub struct NeovimClient {
    connected: bool,
    target: Option<String>,
    rpc: RpcState,
    cache: Vec<CacheEntry>,
}

impl NeovimClient {
    /// The client has a live connection.
    pub closed spec fn is_connected(self) -> bool {
        self.connected
    }

    /// The target this client is connected to, if any.
    pub closed spec fn target_view(self) -> Option<Seq<char>> {
        match self.target {
            Some(t) => Some(t@),
            None => None,
        }
    }

    /// The correlation state of the connection.
    pub closed spec fn rpc_state(self) -> RpcState {
        self.rpc
    }

    /// The diagnostics cache: buffer id to the most recent payload, empty
    /// where no notification has arrived yet.
    pub open spec fn buffer_diags(self, b: int) -> Seq<DiagnosticModel> {
        match cache_find(self.cache_entries(), b) {
            Some(ds) => ds,
            None => Seq::empty(),
        }
    }

    /// The cache entries in insertion order.
    pub closed spec fn cache_entries(self) -> Seq<CacheEntry> {
        self.cache@
    }

    /// The client's structural invariant: the correlation state is
    /// well-formed and each buffer has at most one cache entry.
    pub closed spec fn wf(self) -> bool {
        self.rpc.wf() && (forall|i: int, j: int|
            0 <= i < j < self.cache@.len()
                ==> (#[trigger] self.cache@[i]).buffer_id != (#[trigger] self.cache@[j]).buffer_id)
    }

    /// A fresh client: disconnected, with an empty cache.
    pub fn new() -> (c: Self)
        ensures
            c.wf(),
            !c.is_connected(),
            c.target_view() is None,
            c.cache_entries() == Seq::<CacheEntry>::empty(),
    {
        NeovimClient { connected: false, target: None, rpc: RpcState::new(), cache: Vec::new() }
    }

    /// Whether the client is connected, for callers outside proofs.
    pub fn connected(&self) -> (r: bool)
        ensures
            r == self.is_connected(),
    {
        self.connected
    }

    /// The connected target, if any.
    pub fn target(&self) -> (r: Option<String>)
        ensures
            match r {
                Some(t) => self.target_view() == Some(t@),
                None => self.target_view() is None,
            },
    {
        match &self.target {
            Some(t) => Some(t.clone()),
            None => None,
        }
    }

    /// Moves `Disconnected -> Connected` on a successful transport
    /// connect.  Fails with `AlreadyConnected` while connected — the
    /// transport outcome is not even consulted then — and surfaces a
    /// failed transport connect as `Transport`, staying disconnected.
    pub fn connect(&mut self, target: &str, transport: Result<(), String>) -> (r: Result<
        (),
        NeovimError,
    >)
        requires
            old(self).wf(),
        ensures
            final(self).wf(),
            old(self).is_connected() ==> (r matches Err(NeovimError::AlreadyConnected))
                && *final(self) == *old(self),
            !old(self).is_connected() && (transport matches Err(_)) ==> (r matches Err(
                NeovimError::Transport(_),
            )) && *final(self) == *old(self),
            !old(self).is_connected() && (transport matches Ok(_)) ==> {
                &&& r matches Ok(_)
                &&& final(self).is_connected()
                &&& final(self).target_view() == Some(target@)
                &&& final(self).cache_entries() == Seq::<CacheEntry>::empty()
                &&& !final(self).rpc_state().is_closed()
                &&& final(self).rpc_state().pending_set() == Set::<int>::empty()
                &&& final(self).rpc_state().next() == 0
            },
    {
        if self.connected {
            return Err(NeovimError::AlreadyConnected);
        }
        match transport {
            Err(cause) => Err(NeovimError::Transport(cause)),
            Ok(_) => {
                self.connected = true;
                self.target = Some(target.to_owned());
                self.rpc = RpcState::new();
                self.cache = Vec::new();
                Ok(())
            },
        }
    }

    /// Moves `Connected -> Disconnected`.  Fails with `NotConnected` when
    /// there is no connection.  On success every still-pending msgid is
    /// returned so its caller can be failed with `ConnectionClosed`.
    pub fn disconnect(&mut self) -> (r: Result<Vec<u32>, NeovimError>)
        requires
            old(self).wf(),
        ensures
            final(self).wf(),
            !old(self).is_connected() ==> (r matches Err(NeovimError::NotConnected))
                && *final(self) == *old(self),
            old(self).is_connected() ==> {
                &&& r matches Ok(ids) && ids@ == old(self).rpc_state().pending_seq()
                &&& !final(self).is_connected()
                &&& final(self).target_view() is None
                &&& final(self).rpc_state().is_closed()
                &&& final(self).rpc_state().pending_set() == Set::<int>::empty()
            },
    {
        if !self.connected {
            return Err(NeovimError::NotConnected);
        }
        let ids = self.rpc.close();
        self.connected = false;
        self.target = None;
        Ok(ids)
    }

    /// Allocates a msgid and encodes the request frame
    /// `[0, msgid, method, params]` for the caller to write to the
    /// transport under write-side exclusion.  Fails with `NotConnected`
    /// when there is no connection.
    pub fn begin_request(&mut self, method: Vec<u8>, params: Vec<Value>) -> (r: Result<
        (u32, Vec<u8>),
        NeovimError,
    >)
        requires
            old(self).wf(),
            method@.len() <= u32::MAX,
            params@.len() <= u32::MAX,
            wf_list(vm_items(params, params.len() as int)),
        ensures
            final(self).wf(),
            final(self).is_connected() == old(self).is_connected(),
            final(self).target_view() == old(self).target_view(),
            final(self).cache_entries() == old(self).cache_entries(),
            final(self).rpc_state().subscriptions_seq()
                == old(self).rpc_state().subscriptions_seq(),
            !old(self).is_connected() ==> (r matches Err(NeovimError::NotConnected))
                && *final(self) == *old(self),
            old(self).is_connected() && old(self).rpc_state().is_closed() ==> (r matches Err(
                NeovimError::ConnectionClosed,
            )) && *final(self) == *old(self),
            old(self).is_connected() && !old(self).rpc_state().is_closed()
                && old(self).rpc_state().next() < u32::MAX ==> (r matches Ok(p) && {
                let (msgid, bytes) = p;
                &&& msgid as int == old(self).rpc_state().next()
                &&& !old(self).rpc_state().has_pending(msgid as int)
                &&& final(self).rpc_state().pending_set()
                    == old(self).rpc_state().pending_set().insert(msgid as int)
                &&& bytes@ == enc(
                    frame_model(
                        crate::rpc::RpcMessageModel::Request {
                            msgid: msgid as int,
                            method: method@,
                            params: vm_items(params, params.len() as int),
                        },
                    ),
                )
            }),
    {
        let ghost method_snap = method;
        let ghost params_snap = params;
        if !self.connected {
            return Err(NeovimError::NotConnected);
        }
        let msgid = match self.rpc.begin_call() {
            Ok(id) => id,
            Err(e) => {
                return Err(e);
            },
        };
        let msg = RpcMessage::Request { msgid, method, params };
        proof {
            crate::value::lemma_vm_items(params_snap, params_snap.len() as int);
            lemma_request_frame_wf(mm(msg));
        }
        let frame = crate::rpc::frame_message(msg);
        let bytes = encode_value(&frame);
        Ok((msgid, bytes))
    }

    /// Records `method` as subscribed: the reader will forward its
    /// notifications.
    pub fn subscribe(&mut self, method: Vec<u8>)
        requires
            old(self).wf(),
        ensures
            final(self).wf(),
            final(self).is_connected() == old(self).is_connected(),
            final(self).target_view() == old(self).target_view(),
            final(self).cache_entries() == old(self).cache_entries(),
            final(self).rpc_state().pending_set() == old(self).rpc_state().pending_set(),
            final(self).rpc_state().is_closed() == old(self).rpc_state().is_closed(),
            final(self).rpc_state().next() == old(self).rpc_state().next(),
            forall|m: Seq<u8>| final(self).rpc_state().subscribed(m)
                == (old(self).rpc_state().subscribed(m) || m == method@),
    {
        self.rpc.subscribe(method);
    }

    /// Replaces the cached diagnostics of `buffer` wholesale:
    /// last-write-wins, no diffing, other buffers untouched.
    pub fn apply_diagnostics(&mut self, buffer: u64, diags: Vec<Diagnostic>)
        requires
            old(self).wf(),
        ensures
            final(self).wf(),
            final(self).is_connected() == old(self).is_connected(),
            final(self).target_view() == old(self).target_view(),
            final(self).rpc_state() == old(self).rpc_state(),
            final(self).buffer_diags(buffer as int) == diags_model(diags@),
            forall|b: int| b != buffer ==> final(self).buffer_diags(b)
                == old(self).buffer_diags(b),
    {
        let ghost diags_snap = diags;
        let n = self.cache.len();
        let mut idx: usize = 0;
        let mut found: bool = false;
        while idx < n && !found
            invariant
                n == self.cache.len(),
                idx <= n,
                !found ==> forall|j: int| 0 <= j < idx
                    ==> (#[trigger] self.cache@[j]).buffer_id != buffer,
                found ==> idx < n && self.cache@[idx as int].buffer_id == buffer,
            decreases n - idx + (if found { 0int } else { 1int }),
        {
            if self.cache[idx].buffer_id == buffer {
                found = true;
            } else {
                idx = idx + 1;
            }
        }
        if found {
            let ghost before = self.cache@;
            self.cache.remove(idx);
            let ghost mid = self.cache@;
            self.cache.insert(idx, CacheEntry { buffer_id: buffer, diags });
            proof {
                let entry = CacheEntry { buffer_id: buffer, diags: diags_snap };
                before.remove_ensures(idx as int);
                mid.insert_ensures(idx as int, entry);
                assert(self.cache@.len() == before.len());
                assert forall|k: int| 0 <= k < self.cache@.len()
                    implies self.cache@[k] == before.update(idx as int, entry)[k] by {
                    if k < idx {
                        assert(self.cache@[k] == mid[k]);
                        assert(mid[k] == before[k]);
                    } else if k == idx {
                        assert(self.cache@[k] == entry);
                    } else {
                        assert(self.cache@[k] == mid[k - 1]);
                        assert(mid[k - 1] == before[k]);
                    }
                }
                assert(self.cache@ =~= before.update(idx as int, entry));
                lemma_cache_update(before, self.cache@, idx as int, buffer, diags_snap);
            }
        } else {
            let ghost before = self.cache@;
            self.cache.push(CacheEntry { buffer_id: buffer, diags });
            proof {
                lemma_cache_append(before, self.cache@, buffer, diags_snap);
            }
        }
    }

    /// The most recent diagnostics for `buffer`: exactly the last
    /// notification's payload, or empty if none arrived yet — never an
    /// error, never blocking.
    pub fn get_buffer_diagnostics(&self, buffer: u64) -> (r: Vec<Diagnostic>)
        ensures
            diags_model(r@) == self.buffer_diags(buffer as int),
    {
        let n = self.cache.len();
        let mut i: usize = 0;
        while i < n
            invariant
                n == self.cache.len(),
                i <= n,
                forall|j: int| 0 <= j < i ==> (#[trigger] self.cache@[j]).buffer_id != buffer,
            decreases n - i,
        {
            if self.cache[i].buffer_id == buffer {
                let r = clone_diags(&self.cache[i].diags);
                proof {
                    lemma_cache_find_at(self.cache@, i as int, buffer);
                }
                return r;
            }
            i = i + 1;
        }
        proof {
            lemma_cache_find_none(self.cache@, buffer as int);
            assert(diags_model(Seq::<Diagnostic>::empty())
                =~= Seq::<DiagnosticModel>::empty());
        }
        Vec::new()
    }

    /// A snapshot of the whole cache: every buffer with an entry, each
    /// mapped to its most recent diagnostics.
    pub fn get_workspace_diagnostics(&self) -> (r: Vec<(u64, Vec<Diagnostic>)>)
        ensures
            r@.len() == self.cache_entries().len(),
            forall|i: int| 0 <= i < r@.len() ==> {
                &&& (#[trigger] r@[i]).0 == self.cache_entries()[i].buffer_id
                &&& diags_model(r@[i].1@) == diags_model(self.cache_entries()[i].diags@)
            },
    {
        let n = self.cache.len();
        let mut out: Vec<(u64, Vec<Diagnostic>)> = Vec::new();
        let mut i: usize = 0;
        while i < n
            invariant
                n == self.cache.len(),
                i <= n,
                out@.len() == i,
                forall|j: int| 0 <= j < i ==> {
                    &&& (#[trigger] out@[j]).0 == self.cache@[j].buffer_id
                    &&& diags_model(out@[j].1@) == diags_model(self.cache@[j].diags@)
                },
            decreases n - i,
        {
            let entry = &self.cache[i];
            out.push((entry.buffer_id, clone_diags(&entry.diags)));
            i = i + 1;
        }
        out
    }
}

/// A request frame stays within the wire format's limits whenever its
/// method and params do.
proof fn lemma_request_frame_wf(m: crate::rpc::RpcMessageModel)
    requires
        m matches crate::rpc::RpcMessageModel::Request { msgid, method, params } && {
            &&& 0 <= msgid <= u32::MAX
            &&& method.len() <= u32::MAX
            &&& params.len() <= u32::MAX
            &&& wf_list(params)
        },
    ensures
        frame_model(m).wf(),
{
    if let crate::rpc::RpcMessageModel::Request { msgid, method, params } = m {
        assert(0 <= msgid <= u32::MAX);
        let items = seq![
            ValueModel::UInt(0),
            ValueModel::UInt(msgid),
            ValueModel::Str(method),
            ValueModel::Array(params),
        ];
        let s1 = items.drop_first();
        let s2 = s1.drop_first();
        let s3 = s2.drop_first();
        let s4 = s3.drop_first();
        assert(s4 =~= Seq::<ValueModel>::empty());
        assert(wf_list(s4));
        assert(s3[0] == ValueModel::Array(params));
        assert(ValueModel::Array(params).wf());
        assert(wf_list(s3));
        assert(s2[0] == ValueModel::Str(method));
        assert(method.len() <= u32::MAX);
        assert(s2[0].wf());
        assert(wf_list(s2));
        assert(s1[0] == ValueModel::UInt(msgid));
        assert(s1[0].wf());
        assert(wf_list(s1));
        assert(items[0] == ValueModel::UInt(0));
        assert(items[0].wf());
        assert(items.drop_first() == s1);
        assert(wf_list(items));
        assert(frame_model(m) == ValueModel::Array(items));
    }
}

/// Copies one diagnostic, preserving its model.
pub fn clone_diag(d: &Diagnostic) -> (r: Diagnostic)
    ensures
        dm(r) == dm(*d),
{
    Diagnostic {
        lnum: d.lnum,
        col: d.col,
        end_lnum: d.end_lnum,
        end_col: d.end_col,
        severity: d.severity,
        message: d.message.clone(),
        source: d.source.clone(),
    }
}

/// Copies a diagnostics vector, preserving its models.
pub fn clone_diags(v: &Vec<Diagnostic>) -> (r: Vec<Diagnostic>)
    ensures
        diags_model(r@) == diags_model(v@),
{
    let n = v.len();
    let mut out: Vec<Diagnostic> = Vec::new();
    let mut i: usize = 0;
    while i < n
        invariant
            n == v.len(),
            i <= n,
            out@.len() == i,
            forall|j: int| 0 <= j < i ==> dm(#[trigger] out@[j]) == dm(v@[j]),
        decreases n - i,
    {
        out.push(clone_diag(&v[i]));
        i = i + 1;
    }
    proof {
        assert(diags_model(out@) =~= diags_model(v@));
    }
    out
}

/// Replacing the entry at `i` replaces exactly that buffer's diagnostics.
proof fn lemma_cache_update(
    before: Seq<CacheEntry>,
    after: Seq<CacheEntry>,
    i: int,
    buffer: u64,
    diags: Vec<Diagnostic>,
)
    requires
        0 <= i < before.len(),
        before[i].buffer_id == buffer,
        after == before.update(i, CacheEntry { buffer_id: buffer, diags }),
        forall|a: int, b: int| 0 <= a < b < before.len()
            ==> (#[trigger] before[a]).buffer_id != (#[trigger] before[b]).buffer_id,
    ensures
        cache_find(after, buffer as int) == Some(diags_model(diags@)),
        forall|b: int| b != buffer ==> cache_find(after, b) == cache_find(before, b),
        forall|a: int, b: int| 0 <= a < b < after.len()
            ==> (#[trigger] after[a]).buffer_id != (#[trigger] after[b]).buffer_id,
    decreases i,
{
    if i == 0 {
        assert(after[0].buffer_id == buffer);
        assert(after.drop_first() =~= before.drop_first());
        assert(cache_find(after, buffer as int) == Some(diags_model(diags@)));
        assert forall|b: int| b != buffer implies cache_find(after, b) == cache_find(
            before,
            b,
        ) by {
            assert(cache_find(after, b) == cache_find(after.drop_first(), b));
            assert(cache_find(before, b) == cache_find(before.drop_first(), b));
        }
    } else {
        assert(after[0] == before[0]);
        assert(after.drop_first() =~= before.drop_first().update(
            i - 1,
            CacheEntry { buffer_id: buffer, diags },
        ));
        lemma_cache_update(before.drop_first(), after.drop_first(), i - 1, buffer, diags);
        assert(before[0].buffer_id != buffer);
        assert(cache_find(after, buffer as int) == Some(diags_model(diags@)));
        assert forall|b: int| b != buffer implies cache_find(after, b) == cache_find(
            before,
            b,
        ) by {
            if after[0].buffer_id == b {
                assert(before[0].buffer_id == b);
            } else {
                assert(cache_find(after, b) == cache_find(after.drop_first(), b));
                assert(cache_find(before, b) == cache_find(before.drop_first(), b));
            }
        }
    }
}

/// Appending an entry for a new buffer adds exactly that buffer's
/// diagnostics.
proof fn lemma_cache_append(
    before: Seq<CacheEntry>,
    after: Seq<CacheEntry>,
    buffer: u64,
    diags: Vec<Diagnostic>,
)
    requires
        forall|j: int| 0 <= j < before.len() ==> (#[trigger] before[j]).buffer_id != buffer,
        after == before.push(CacheEntry { buffer_id: buffer, diags }),
        forall|a: int, b: int| 0 <= a < b < before.len()
            ==> (#[trigger] before[a]).buffer_id != (#[trigger] before[b]).buffer_id,
    ensures
        cache_find(after, buffer as int) == Some(diags_model(diags@)),
        forall|b: int| b != buffer ==> cache_find(after, b) == cache_find(before, b),
        forall|a: int, b: int| 0 <= a < b < after.len()
            ==> (#[trigger] after[a]).buffer_id != (#[trigger] after[b]).buffer_id,
    decreases before.len(),
{
    if before.len() == 0 {
        assert(after[0].buffer_id == buffer);
        assert(after.drop_first() =~= Seq::<CacheEntry>::empty());
        assert forall|b: int| b != buffer implies cache_find(after, b) == cache_find(
            before,
            b,
        ) by {
            assert(cache_find(after, b) == cache_find(after.drop_first(), b));
            assert(cache_find(after.drop_first(), b) is None);
            assert(cache_find(before, b) is None);
        }
    } else {
        assert(after[0] == before[0]);
        assert(after.drop_first() =~= before.drop_first().push(
            CacheEntry { buffer_id: buffer, diags },
        ));
        lemma_cache_append(before.drop_first(), after.drop_first(), buffer, diags);
        assert(cache_find(after, buffer as int) == Some(diags_model(diags@)));
        assert forall|b: int| b != buffer implies cache_find(after, b) == cache_find(
            before,
            b,
        ) by {
            if after[0].buffer_id == b {
            } else {
                assert(cache_find(after, b) == cache_find(after.drop_first(), b));
                assert(cache_find(before, b) == cache_find(before.drop_first(), b));
            }
        }
    }
}

/// Finding the entry whose prefix holds no match yields that entry.
proof fn lemma_cache_find_at(entries: Seq<CacheEntry>, i: int, buffer: u64)
    requires
        0 <= i < entries.len(),
        entries[i].buffer_id == buffer,
        forall|j: int| 0 <= j < i ==> (#[trigger] entries[j]).buffer_id != buffer,
    ensures
        cache_find(entries, buffer as int) == Some(diags_model(entries[i].diags@)),
    decreases i,
{
    if i > 0 {
        lemma_cache_find_at(entries.drop_first(), i - 1, buffer);
    }
}

/// A buffer with no entry has no cached diagnostics.
proof fn lemma_cache_find_none(entries: Seq<CacheEntry>, b: int)
    requires
        forall|j: int| 0 <= j < entries.len() ==> (#[trigger] entries[j]).buffer_id != b,
    ensures
        cache_find(entries, b) is None,
    decreases entries.len(),
{
    if entries.len() > 0 {
        lemma_cache_find_none(entries.drop_first(), b);
    }
}



/// The message a remote error value carries: the text itself for a
/// string error, the second element's text for the editor's usual
/// `[type, message]` pair, nothing otherwise.
pub open spec fn remote_error_message(e: ValueModel) -> Option<Seq<char>> {
    match e {
        ValueModel::Str(bytes) => utf8_decode(bytes),
        ValueModel::Array(items) => if items.len() == 2 {
            match items[1] {
                ValueModel::Str(bytes) => utf8_decode(bytes),
                _ => None,
            }
        } else {
            None
        },
        _ => None,
    }
}

/// Splits a delivered response into the call's outcome: a nil error
/// means success with the result value; anything else is an `Api`
/// failure carrying the remote message where one can be read.
pub fn response_to_result(error: Value, result: Value) -> (r: Result<Value, NeovimError>)
    ensures
        vm(error) is Nil ==> (r matches Ok(v) && vm(v) == vm(result)),
        !(vm(error) is Nil) ==> (r matches Err(NeovimError::Api(t))
            && (remote_error_message(vm(error)) matches Some(msg) ==> t@ == msg)
            && (remote_error_message(vm(error)) is None ==> t@ == "remote call failed"@)),
{
    proof {
        reveal_strlit("remote call failed");
    }
    match &error {
        Value::Nil => Ok(result),
        Value::Str(bytes) => {
            match bytes_to_string(crate::json::copy_bytes(bytes)) {
                Some(t) => Err(NeovimError::Api(t)),
                None => Err(NeovimError::Api(String::from_str("remote call failed"))),
            }
        },
        Value::Array(items) => {
            proof {
                crate::value::lemma_vm_items(*items, items.len() as int);
            }
            if items.len() == 2 {
                match &items[1] {
                    Value::Str(bytes) => {
                        match bytes_to_string(crate::json::copy_bytes(bytes)) {
                            Some(t) => Err(NeovimError::Api(t)),
                            None => Err(NeovimError::Api(String::from_str(
                                "remote call failed",
                            ))),
                        }
                    },
                    _ => Err(NeovimError::Api(String::from_str("remote call failed"))),
                }
            } else {
                Err(NeovimError::Api(String::from_str("remote call failed")))
            }
        },
        _ => Err(NeovimError::Api(String::from_str("remote call failed"))),
    }
}

/// The mathematical model of a [`Buffer`].
pub struct BufferModel {
    pub id: int,
    pub name: Seq<char>,
    pub line_count: int,
}

/// The model of a [`Buffer`].
pub open spec fn bm(b: Buffer) -> BufferModel {
    BufferModel { id: b.id as int, name: b.name@, line_count: b.line_count as int }
}

/// Reads one buffer record: `[id, name, line_count]` with an unsigned
/// id and count and a UTF-8 name.
pub open spec fn buffer_of(v: ValueModel) -> Option<BufferModel> {
    match v {
        ValueModel::Array(items) => if items.len() == 3 {
            match (items[0], items[1], items[2]) {
                (ValueModel::UInt(id), ValueModel::Str(name_bytes), ValueModel::UInt(lc)) =>
                    match utf8_decode(name_bytes) {
                    Some(name) => Some(BufferModel { id, name, line_count: lc }),
                    None => None,
                },
                _ => None,
            }
        } else {
            None
        },
        _ => None,
    }
}

/// Reads the first `n` buffer records of a reply array.
pub open spec fn buffers_of(items: Seq<ValueModel>, n: int) -> Option<Seq<BufferModel>>
    decreases n,
{
    if n <= 0 || n > items.len() {
        Some(Seq::empty())
    } else {
        match (buffers_of(items, n - 1), buffer_of(items[n - 1])) {
            (Some(bs), Some(b)) => Some(bs.push(b)),
            _ => None,
        }
    }
}

/// Reads a `get_buffers` reply: an array of buffer records.  Fails with
/// `Api` exactly when the reply does not have that shape.
pub fn parse_buffers(v: &Value) -> (r: Result<Vec<Buffer>, NeovimError>)
    ensures
        (r matches Ok(bs) ==> vm(*v) matches ValueModel::Array(items)
            && buffers_of(items, items.len() as int)
                == Some(Seq::new(bs@.len(), |i: int| bm(bs@[i])))),
        (r matches Err(e) ==> e is Api && (match vm(*v) {
            ValueModel::Array(items) => buffers_of(items, items.len() as int) is None,
            _ => true,
        })),
{
    match v {
        Value::Array(items) => {
            proof {
                crate::value::lemma_vm_items(*items, items.len() as int);
            }
            match parse_buffer_list(items, items.len()) {
                Ok(bs) => {
                    proof {
                        assert(Seq::new(bs@.len(), |i: int| bm(bs@[i]))
                            =~= Seq::new(bs@.len(), |i: int| bm(bs@[i])));
                    }
                    Ok(bs)
                },
                Err(e) => Err(e),
            }
        },
        _ => Err(api_text("buffer list reply is not an array")),
    }
}

/// Reads the first `n` records of a buffer reply array.
fn parse_buffer_list(items: &Vec<Value>, n: usize) -> (r: Result<Vec<Buffer>, NeovimError>)
    requires
        n <= items.len(),
    ensures
        (r matches Ok(bs) ==> {
            let models = vm_items(*items, items.len() as int);
            buffers_of(models, n as int) == Some(Seq::new(bs@.len(), |i: int| bm(bs@[i])))
                && bs@.len() == n
        }),
        (r matches Err(e) ==> {
            let models = vm_items(*items, items.len() as int);
            buffers_of(models, n as int) is None && e is Api
        }),
    decreases n,
{
    proof {
        crate::value::lemma_vm_items(*items, items.len() as int);
    }
    if n == 0 {
        let bs: Vec<Buffer> = Vec::new();
        proof {
            assert(Seq::new(bs@.len(), |i: int| bm(bs@[i])) =~= Seq::<BufferModel>::empty());
        }
        Ok(bs)
    } else {
        let mut bs = match parse_buffer_list(items, n - 1) {
            Ok(bs) => bs,
            Err(e) => {
                return Err(e);
            },
        };
        let b = match parse_buffer(&items[n - 1]) {
            Ok(b) => b,
            Err(e) => {
                return Err(e);
            },
        };
        let ghost b_snap = b;
        let ghost bs_snap = bs;
        bs.push(b);
        proof {
            assert(Seq::new(bs@.len(), |i: int| bm(bs@[i]))
                =~= Seq::new(bs_snap@.len(), |i: int| bm(bs_snap@[i])).push(bm(b_snap)));
        }
        Ok(bs)
    }
}

/// Reads one buffer record.
fn parse_buffer(v: &Value) -> (r: Result<Buffer, NeovimError>)
    ensures
        (r matches Ok(b) ==> buffer_of(vm(*v)) == Some(bm(b))),
        (r matches Err(e) ==> buffer_of(vm(*v)) is None && e is Api),
{
    match v {
        Value::Array(items) => {
            proof {
                crate::value::lemma_vm_items(*items, items.len() as int);
            }
            if items.len() != 3 {
                return Err(api_text("buffer record is not a 3-element array"));
            }
            let id = match &items[0] {
                Value::UInt(id) => *id,
                _ => {
                    return Err(api_text("buffer id is not an unsigned integer"));
                },
            };
            let name_bytes = match &items[1] {
                Value::Str(bytes) => crate::json::copy_bytes(bytes),
                _ => {
                    return Err(api_text("buffer name is not a string"));
                },
            };
            let line_count = match &items[2] {
                Value::UInt(lc) => *lc,
                _ => {
                    return Err(api_text("buffer line count is not an unsigned integer"));
                },
            };
            match bytes_to_string(name_bytes) {
                Some(name) => Ok(Buffer { id, name, line_count }),
                None => Err(api_text("buffer name is not valid UTF-8")),
            }
        },
        _ => Err(api_text("buffer record is not an array")),
    }
}

/// An `Api` error with the given note.
fn api_text(note: &str) -> (r: NeovimError)
    ensures
        r is Api,
{
    NeovimError::Api(note.to_owned())
}

/// Looks a key up in a msgpack map, first match wins.
pub open spec fn dict_lookup(pairs: Seq<(ValueModel, ValueModel)>, key: Seq<u8>) -> Option<
    ValueModel,
>
    decreases pairs.len(),
{
    if pairs.len() == 0 {
        None
    } else if pairs[0].0 == ValueModel::Str(key) {
        Some(pairs[0].1)
    } else {
        dict_lookup(pairs.drop_first(), key)
    }
}

/// Reads one diagnostic record: a map with unsigned `lnum`, `col`,
/// `end_lnum` and `end_col`, a UTF-8 `message`, an optional unsigned
/// `severity` (0 when absent) and an optional UTF-8 `source` (empty when
/// absent).
pub open spec fn diag_of(v: ValueModel) -> Option<DiagnosticModel> {
    match v {
        ValueModel::Dict(pairs) => {
            let lnum = dict_lookup(pairs, "lnum".spec_bytes());
            let col = dict_lookup(pairs, "col".spec_bytes());
            let end_lnum = dict_lookup(pairs, "end_lnum".spec_bytes());
            let end_col = dict_lookup(pairs, "end_col".spec_bytes());
            let severity = dict_lookup(pairs, "severity".spec_bytes());
            let message = dict_lookup(pairs, "message".spec_bytes());
            let source = dict_lookup(pairs, "source".spec_bytes());
            diag_fields(lnum, col, end_lnum, end_col, severity, message, source)
        },
        _ => None,
    }
}

/// Combines the looked-up fields of a diagnostic record.
pub open spec fn diag_fields(
    lnum: Option<ValueModel>,
    col: Option<ValueModel>,
    end_lnum: Option<ValueModel>,
    end_col: Option<ValueModel>,
    severity: Option<ValueModel>,
    message: Option<ValueModel>,
    source: Option<ValueModel>,
) -> Option<DiagnosticModel> {
    match (lnum, col, end_lnum, end_col, message) {
        (
            Some(ValueModel::UInt(lnum_v)),
            Some(ValueModel::UInt(col_v)),
            Some(ValueModel::UInt(end_lnum_v)),
            Some(ValueModel::UInt(end_col_v)),
            Some(ValueModel::Str(message_bytes)),
        ) => {
            let severity_v: Option<int> = match severity {
                Some(ValueModel::UInt(sv)) => Some(sv),
                None => Some(0),
                _ => None,
            };
            let source_chars: Option<Seq<char>> = match source {
                Some(ValueModel::Str(sb)) => utf8_decode(sb),
                None => Some(Seq::empty()),
                _ => None,
            };
            match (severity_v, source_chars, utf8_decode(message_bytes)) {
                (Some(sev), Some(source_cs), Some(message_cs)) => if lnum_v <= u64::MAX
                    && col_v <= u64::MAX && end_lnum_v <= u64::MAX && end_col_v <= u64::MAX
                    && sev <= u64::MAX {
                    Some(DiagnosticModel {
                        lnum: lnum_v,
                        col: col_v,
                        end_lnum: end_lnum_v,
                        end_col: end_col_v,
                        severity: sev,
                        message: message_cs,
                        source: source_cs,
                    })
                } else {
                    None
                },
                _ => None,
            }
        },
        _ => None,
    }
}

/// The index of the first pair whose key is the string `key`, if any.
fn dict_find(pairs: &Vec<(Value, Value)>, key: &str) -> (r: Option<usize>)
    ensures
        match r {
            Some(i) => i < pairs.len() && dict_lookup(
                vm_pairs(*pairs, pairs.len() as int),
                key.spec_bytes(),
            ) == Some(vm(pairs@[i as int].1)),
            None => dict_lookup(vm_pairs(*pairs, pairs.len() as int), key.spec_bytes())
                is None,
        },
{
    let keyb = key.as_bytes_vec();
    let ghost models = vm_pairs(*pairs, pairs.len() as int);
    proof {
        crate::value::lemma_vm_pairs(*pairs, pairs.len() as int);
        assert(models.skip(0) =~= models);
    }
    let n = pairs.len();
    let mut i: usize = 0;
    while i < n
        invariant
            n == pairs.len(),
            i <= n,
            keyb@ == key.spec_bytes(),
            models == vm_pairs(*pairs, pairs.len() as int),
            models.len() == n,
            forall|j: int| 0 <= j < n ==> #[trigger] models[j]
                == (vm(pairs@[j].0), vm(pairs@[j].1)),
            dict_lookup(models, key.spec_bytes()) == dict_lookup(
                models.skip(i as int),
                key.spec_bytes(),
            ),
        decreases n - i,
    {
        proof {
            assert(models.skip(i as int)[0] == models[i as int]);
            assert(models.skip(i as int).drop_first() =~= models.skip(i + 1));
        }
        let hit = match &pairs[i].0 {
            Value::Str(b) => crate::rpc::eq_bytes(b, &keyb),
            _ => false,
        };
        if hit {
            proof {
                assert(models[i as int].0 == ValueModel::Str(key.spec_bytes()));
            }
            return Some(i);
        }
        proof {
            assert(models[i as int].0 != ValueModel::Str(key.spec_bytes()));
        }
        i = i + 1;
    }
    proof {
        assert(models.skip(n as int).len() == 0);
    }
    None
}

/// Reads one diagnostic record from a msgpack map.
pub fn parse_diag(v: &Value) -> (r: Option<Diagnostic>)
    ensures
        (r matches Some(d) ==> diag_of(vm(*v)) == Some(dm(d))),
        (r is None ==> diag_of(vm(*v)) is None),
{
    let pairs = match v {
        Value::Dict(pairs) => pairs,
        _ => {
            return None;
        },
    };
    proof {
        crate::value::lemma_vm_pairs(*pairs, pairs.len() as int);
    }
    let lnum = match lookup_uint(pairs, "lnum") {
        Some(x) => x,
        None => {
            return None;
        },
    };
    let col = match lookup_uint(pairs, "col") {
        Some(x) => x,
        None => {
            return None;
        },
    };
    let end_lnum = match lookup_uint(pairs, "end_lnum") {
        Some(x) => x,
        None => {
            return None;
        },
    };
    let end_col = match lookup_uint(pairs, "end_col") {
        Some(x) => x,
        None => {
            return None;
        },
    };
    let severity = match dict_find(pairs, "severity") {
        None => 0u64,
        Some(i) => match &pairs[i].1 {
            Value::UInt(x) => *x,
            _ => {
                return None;
            },
        },
    };
    let message = match dict_find(pairs, "message") {
        None => {
            return None;
        },
        Some(i) => match &pairs[i].1 {
            Value::Str(b) => match bytes_to_string(crate::json::copy_bytes(b)) {
                Some(s) => s,
                None => {
                    return None;
                },
            },
            _ => {
                return None;
            },
        },
    };
    let source = match dict_find(pairs, "source") {
        None => String::new(),
        Some(i) => match &pairs[i].1 {
            Value::Str(b) => match bytes_to_string(crate::json::copy_bytes(b)) {
                Some(s) => s,
                None => {
                    return None;
                },
            },
            _ => {
                return None;
            },
        },
    };
    Some(Diagnostic { lnum, col, end_lnum, end_col, severity, message, source })
}

/// Looks up a required unsigned field of a diagnostic map.
fn lookup_uint(pairs: &Vec<(Value, Value)>, key: &str) -> (r: Option<u64>)
    ensures
        match r {
            Some(x) => dict_lookup(vm_pairs(*pairs, pairs.len() as int), key.spec_bytes())
                == Some(ValueModel::UInt(x as int)),
            None => !(dict_lookup(vm_pairs(*pairs, pairs.len() as int), key.spec_bytes())
                matches Some(ValueModel::UInt(_))),
        },
{
    match dict_find(pairs, key) {
        None => None,
        Some(i) => match &pairs[i].1 {
            Value::UInt(x) => Some(*x),
            _ => None,
        },
    }
}


/// The notification method that carries diagnostics changes.
pub open spec fn diagnostics_method() -> Seq<u8> {
    "nvim_mcp_diagnostics_changed".spec_bytes()
}

/// The RPC method that runs remote code in the editor.
pub open spec fn exec_lua_method() -> Seq<u8> {
    "nvim_exec_lua".spec_bytes()
}

/// The params of a remote-code request: the code and its arguments.
pub open spec fn lua_params(code: Seq<u8>, args: Seq<ValueModel>) -> Seq<ValueModel> {
    seq![ValueModel::Str(code), ValueModel::Array(args)]
}

/// The request frame for remote code with these arguments.
pub open spec fn lua_request_model(msgid: int, code: Seq<u8>, args: Seq<ValueModel>)
    -> RpcMessageModel {
    RpcMessageModel::Request {
        msgid,
        method: exec_lua_method(),
        params: lua_params(code, args),
    }
}

/// The outcome of one reader dispatch step.
pub enum ClientEvent {
    /// A response reached the caller that issued this msgid.
    Delivered { msgid: u32, error: Value, result: Value },
    /// A response for an unknown msgid was logged and discarded.
    DiscardedUnknown { msgid: u32 },
    /// A diagnostics notification replaced this buffer's cache entry.
    DiagnosticsUpdated { buffer: u64 },
    /// A diagnostics notification had a malformed payload and was
    /// dropped without touching the cache.
    MalformedDiagnostics,
    /// A subscribed notification other than diagnostics, handed on.
    ForwardedNotification { method: Vec<u8>, params: Vec<Value> },
    /// A notification nobody subscribed to was dropped.
    NotificationDropped,
    /// An inbound request frame was dropped: this client serves none.
    RequestIgnored { msgid: u32 },
}

/// What a response must do: reach the caller whose msgid it names, if
/// and only if that msgid is pending, removing exactly that entry; an
/// unknown msgid is logged and discarded.  The cache is untouched.
pub open spec fn response_step_ok(
    before: NeovimClient,
    after: NeovimClient,
    ev: ClientEvent,
    msgid: int,
    error: ValueModel,
    result: ValueModel,
) -> bool {
    let (p2, target) = crate::rpc::deliver(before.rpc_state().pending_set(), msgid);
    &&& after.cache_entries() == before.cache_entries()
    &&& after.rpc_state().pending_set() == p2
    &&& (target matches Some(t) ==> (ev matches ClientEvent::Delivered {
        msgid: am, error: ae, result: ar,
    } && am as int == t && vm(ae) == error && vm(ar) == result))
    &&& (target is None ==> (ev matches ClientEvent::DiscardedUnknown { msgid: am }
        && am as int == msgid))
}

/// What a notification must do: a subscribed diagnostics notification
/// updates the cache (`diag_step_ok`), any other subscribed one is
/// forwarded unchanged, and an unsubscribed one is dropped.  Pending
/// calls are never touched.
pub open spec fn notification_step_ok(
    before: NeovimClient,
    after: NeovimClient,
    ev: ClientEvent,
    method: Seq<u8>,
    params: Seq<ValueModel>,
) -> bool {
    &&& after.rpc_state().pending_set() == before.rpc_state().pending_set()
    &&& (!before.rpc_state().subscribed(method) ==> (ev
        matches ClientEvent::NotificationDropped) && after.cache_entries()
        == before.cache_entries())
    &&& (before.rpc_state().subscribed(method) && method != diagnostics_method() ==> (ev
        matches ClientEvent::ForwardedNotification { method: m2, params: p2 }
        && m2@ == method && vm_items(p2, p2.len() as int) == params)
        && after.cache_entries() == before.cache_entries())
    &&& (before.rpc_state().subscribed(method) && method == diagnostics_method()
        ==> diag_step_ok(before, after, ev, params))
}

/// What an inbound request frame must do: nothing but be dropped.
pub open spec fn request_step_ok(
    before: NeovimClient,
    after: NeovimClient,
    ev: ClientEvent,
    msgid: int,
) -> bool {
    &&& after.cache_entries() == before.cache_entries()
    &&& after.rpc_state().pending_set() == before.rpc_state().pending_set()
    &&& (ev matches ClientEvent::RequestIgnored { msgid: am } && am as int == msgid)
}

/// What a subscribed diagnostics notification must do: replace exactly
/// its buffer's cache entry when the payload is well-formed, and change
/// nothing when it is not.
pub open spec fn diag_step_ok(
    before: NeovimClient,
    after: NeovimClient,
    ev: ClientEvent,
    params: Seq<ValueModel>,
) -> bool {
    match diag_payload_of(params) {
        Some((b, ds)) => {
            &&& (ev matches ClientEvent::DiagnosticsUpdated { buffer } && buffer as int == b)
            &&& after.buffer_diags(b) == ds
            &&& (forall|b2: int| b2 != b ==> after.buffer_diags(b2) == before.buffer_diags(b2))
        },
        None => (ev matches ClientEvent::MalformedDiagnostics) && after.cache_entries()
            == before.cache_entries(),
    }
}

/// Reads a diagnostics payload: `[buffer_id, [diagnostic, ...]]`.
pub open spec fn diag_payload_of(params: Seq<ValueModel>) -> Option<
    (int, Seq<DiagnosticModel>),
> {
    if params.len() == 2 {
        match (params[0], params[1]) {
            (ValueModel::UInt(b), ValueModel::Array(items)) => if b <= u64::MAX {
                match diags_of(items, items.len() as int) {
                    Some(ds) => Some((b, ds)),
                    None => None,
                }
            } else {
                None
            },
            _ => None,
        }
    } else {
        None
    }
}

/// Reads the first `n` diagnostic records of a payload array.
pub open spec fn diags_of(items: Seq<ValueModel>, n: int) -> Option<Seq<DiagnosticModel>>
    decreases n,
{
    if n <= 0 || n > items.len() {
        Some(Seq::empty())
    } else {
        match (diags_of(items, n - 1), diag_of(items[n - 1])) {
            (Some(ds), Some(d)) => Some(ds.push(d)),
            _ => None,
        }
    }
}

/// Reads a diagnostics payload from notification params.
pub fn parse_diag_payload(params: &Vec<Value>) -> (r: Option<(u64, Vec<Diagnostic>)>)
    ensures
        (r matches Some(p) ==> diag_payload_of(vm_items(*params, params.len() as int))
            == Some((p.0 as int, diags_model(p.1@)))),
        (r is None ==> diag_payload_of(vm_items(*params, params.len() as int)) is None),
{
    proof {
        crate::value::lemma_vm_items(*params, params.len() as int);
    }
    if params.len() != 2 {
        return None;
    }
    let buffer = match &params[0] {
        Value::UInt(b) => *b,
        _ => {
            return None;
        },
    };
    let items = match &params[1] {
        Value::Array(items) => items,
        _ => {
            return None;
        },
    };
    proof {
        crate::value::lemma_vm_items(*items, items.len() as int);
    }
    match parse_diag_list(items, items.len()) {
        Some(ds) => {
            proof {
                assert(diags_model(ds@) =~= diags_model(ds@));
            }
            Some((buffer, ds))
        },
        None => None,
    }
}

/// Reads the first `n` diagnostic records.
fn parse_diag_list(items: &Vec<Value>, n: usize) -> (r: Option<Vec<Diagnostic>>)
    requires
        n <= items.len(),
    ensures
        (r matches Some(ds) ==> {
            let models = vm_items(*items, items.len() as int);
            diags_of(models, n as int) == Some(diags_model(ds@)) && ds@.len() == n
        }),
        (r is None ==> {
            let models = vm_items(*items, items.len() as int);
            diags_of(models, n as int) is None
        }),
    decreases n,
{
    proof {
        crate::value::lemma_vm_items(*items, items.len() as int);
    }
    if n == 0 {
        let ds: Vec<Diagnostic> = Vec::new();
        proof {
            assert(diags_model(ds@) =~= Seq::<DiagnosticModel>::empty());
        }
        Some(ds)
    } else {
        let mut ds = match parse_diag_list(items, n - 1) {
            Some(ds) => ds,
            None => {
                return None;
            },
        };
        let d = match parse_diag(&items[n - 1]) {
            Some(d) => d,
            None => {
                return None;
            },
        };
        let ghost d_snap = d;
        let ghost ds_snap = ds;
        ds.push(d);
        proof {
            assert(diags_model(ds@) =~= diags_model(ds_snap@).push(dm(d_snap)));
        }
        Some(ds)
    }
}

impl NeovimClient {
    /// One reader dispatch step: routes a decoded message.  Responses are
    /// delivered by msgid; a subscribed diagnostics notification replaces
    /// its buffer's cache entry wholesale; everything else leaves the
    /// client unchanged.  Malformed payloads are dropped, never fatal.
    pub fn handle_message(&mut self, msg: RpcMessage) -> (ev: ClientEvent)
        requires
            old(self).wf(),
        ensures
            final(self).wf(),
            final(self).is_connected() == old(self).is_connected(),
            final(self).target_view() == old(self).target_view(),
            final(self).rpc_state().is_closed() == old(self).rpc_state().is_closed(),
            final(self).rpc_state().next() == old(self).rpc_state().next(),
            final(self).rpc_state().subscriptions_seq()
                == old(self).rpc_state().subscriptions_seq(),
            mm(msg) matches RpcMessageModel::Response { msgid, error, result }
                ==> response_step_ok(*old(self), *final(self), ev, msgid, error, result),
            mm(msg) matches RpcMessageModel::Notification { method, params }
                ==> notification_step_ok(*old(self), *final(self), ev, method, params),
            mm(msg) matches RpcMessageModel::Request { msgid, .. }
                ==> request_step_ok(*old(self), *final(self), ev, msgid),
    {
        let act = self.rpc.on_message(msg);
        match act {
            RpcAction::Deliver { msgid, error, result } => ClientEvent::Delivered {
                msgid,
                error,
                result,
            },
            RpcAction::DiscardUnknown { msgid } => ClientEvent::DiscardedUnknown { msgid },
            RpcAction::DiscardRequest { msgid } => ClientEvent::RequestIgnored { msgid },
            RpcAction::DropNotification { method: _ } => ClientEvent::NotificationDropped,
            RpcAction::Notify { method, params } => {
                let diag_method = "nvim_mcp_diagnostics_changed".as_bytes_vec();
                if crate::rpc::eq_bytes(&method, &diag_method) {
                    match parse_diag_payload(&params) {
                        Some((buffer, ds)) => {
                            self.apply_diagnostics(buffer, ds);
                            ClientEvent::DiagnosticsUpdated { buffer }
                        },
                        None => ClientEvent::MalformedDiagnostics,
                    }
                } else {
                    ClientEvent::ForwardedNotification { method, params }
                }
            },
        }
    }

    /// Builds a remote-code request: method `nvim_exec_lua`, the code,
    /// and its arguments.
    fn lua_request(&mut self, code: &str, args: Vec<Value>) -> (r: Result<
        (u32, Vec<u8>),
        NeovimError,
    >)
        requires
            old(self).wf(),
            code.spec_bytes().len() <= u32::MAX,
            exec_lua_method().len() <= u32::MAX,
            args@.len() + 2 <= u32::MAX,
            wf_list(vm_items(args, args.len() as int)),
        ensures
            final(self).wf(),
            final(self).is_connected() == old(self).is_connected(),
            final(self).target_view() == old(self).target_view(),
            final(self).cache_entries() == old(self).cache_entries(),
            final(self).rpc_state().subscriptions_seq()
                == old(self).rpc_state().subscriptions_seq(),
            !old(self).is_connected() ==> (r matches Err(NeovimError::NotConnected))
                && *final(self) == *old(self),
            old(self).is_connected() && old(self).rpc_state().is_closed() ==> (r matches Err(
                NeovimError::ConnectionClosed,
            )) && *final(self) == *old(self),
            old(self).is_connected() && !old(self).rpc_state().is_closed()
                && old(self).rpc_state().next() < u32::MAX ==> (r matches Ok(p) && {
                let (msgid, bytes) = p;
                &&& msgid as int == old(self).rpc_state().next()
                &&& final(self).rpc_state().pending_set()
                    == old(self).rpc_state().pending_set().insert(msgid as int)
                &&& bytes@ == enc(
                    frame_model(
                        lua_request_model(
                            msgid as int,
                            code.spec_bytes(),
                            vm_items(args, args.len() as int),
                        ),
                    ),
                )
            }),
    {
        let ghost args_snap = args;
        let method = "nvim_exec_lua".as_bytes_vec();
        let code_bytes = code.as_bytes_vec();
        let mut params: Vec<Value> = Vec::new();
        params.push(Value::Str(code_bytes));
        params.push(Value::Array(args));
        proof {
            crate::value::lemma_vm_items(params, params.len() as int);
            crate::value::lemma_vm_items(args_snap, args_snap.len() as int);
            assert(vm_items(params, 2) =~= lua_params(
                code.spec_bytes(),
                vm_items(args_snap, args_snap.len() as int),
            ));
            assert(vm_items(params, 2)[0].wf());
            assert(vm_items(params, 2)[1].wf());
            assert(vm_items(params, 2).drop_first() =~= seq![vm_items(params, 2)[1]]);
            assert(vm_items(params, 2).drop_first().drop_first()
                =~= Seq::<ValueModel>::empty());
            assert(wf_list(vm_items(params, 2).drop_first().drop_first()));
            assert(wf_list(vm_items(params, 2).drop_first()));
            assert(wf_list(vm_items(params, 2)));
        }
        self.begin_request(method, params)
    }
}



/// The remote code that lists the open buffers.
pub open spec fn get_buffers_code() -> Seq<u8> {
    "return require('nvim-mcp').get_buffers()".spec_bytes()
}

/// The remote code that arms the diagnostics-changed notification.
pub open spec fn setup_diagnostics_code() -> Seq<u8> {
    "return require('nvim-mcp').setup_diagnostics_autocmd()".spec_bytes()
}

/// The remote code that lists LSP clients.
pub open spec fn lsp_clients_code() -> Seq<u8> {
    "return require('nvim-mcp').lsp_get_clients()".spec_bytes()
}

/// The remote code that requests code actions.
pub open spec fn lsp_code_actions_code() -> Seq<u8> {
    "return require('nvim-mcp').lsp_code_actions(...)".spec_bytes()
}

/// The remote code that resolves a code action.
pub open spec fn lsp_resolve_code() -> Seq<u8> {
    "return require('nvim-mcp').lsp_resolve(...)".spec_bytes()
}

/// The remote code that applies a workspace edit.
pub open spec fn lsp_apply_edit_code() -> Seq<u8> {
    "return require('nvim-mcp').lsp_apply_edit(...)".spec_bytes()
}

impl NeovimClient {
    /// Builds the request that lists the open buffers.
    pub fn get_buffers(&mut self) -> (r: Result<(u32, Vec<u8>), NeovimError>)
        requires
            old(self).wf(),
        ensures
            final(self).wf(),
            final(self).cache_entries() == old(self).cache_entries(),
            !old(self).is_connected() ==> (r matches Err(NeovimError::NotConnected))
                && *final(self) == *old(self),
            old(self).is_connected() && !old(self).rpc_state().is_closed()
                && old(self).rpc_state().next() < u32::MAX ==> (r matches Ok(p) && {
                let (msgid, bytes) = p;
                &&& msgid as int == old(self).rpc_state().next()
                &&& final(self).rpc_state().pending_set()
                    == old(self).rpc_state().pending_set().insert(msgid as int)
                &&& bytes@ == enc(frame_model(lua_request_model(
                    msgid as int,
                    get_buffers_code(),
                    Seq::empty(),
                )))
            }),
    {
        proof {
            reveal_strlit("return require('nvim-mcp').get_buffers()");
            assert(vstd::utf8::is_ascii_chars("return require('nvim-mcp').get_buffers()"@));
            lemma_ascii_code("return require('nvim-mcp').get_buffers()");
            reveal_strlit("nvim_exec_lua");
            assert(vstd::utf8::is_ascii_chars("nvim_exec_lua"@));
            lemma_ascii_code("nvim_exec_lua");
        }
        let args: Vec<Value> = Vec::new();
        proof {
            assert(vm_items(args, 0) =~= Seq::<ValueModel>::empty());
        }
        self.lua_request("return require('nvim-mcp').get_buffers()", args)
    }

    /// Builds the request that runs `code` remotely.  Empty code is
    /// rejected with `Api` — exactly as a remote rejection would be —
    /// and so is code too large for the wire format.
    pub fn execute_lua(&mut self, code: &str) -> (r: Result<(u32, Vec<u8>), NeovimError>)
        requires
            old(self).wf(),
        ensures
            final(self).wf(),
            final(self).cache_entries() == old(self).cache_entries(),
            code@.len() == 0 ==> (r matches Err(NeovimError::Api(_)))
                && *final(self) == *old(self),
            code@.len() > 0 && code.spec_bytes().len() > u32::MAX ==> (r matches Err(
                NeovimError::Api(_),
            )) && *final(self) == *old(self),
            code@.len() > 0 && code.spec_bytes().len() <= u32::MAX
                && !old(self).is_connected() ==> (r matches Err(NeovimError::NotConnected))
                && *final(self) == *old(self),
            code@.len() > 0 && code.spec_bytes().len() <= u32::MAX
                && old(self).is_connected() && !old(self).rpc_state().is_closed()
                && old(self).rpc_state().next() < u32::MAX ==> (r matches Ok(p) && {
                let (msgid, bytes) = p;
                &&& msgid as int == old(self).rpc_state().next()
                &&& final(self).rpc_state().pending_set()
                    == old(self).rpc_state().pending_set().insert(msgid as int)
                &&& bytes@ == enc(frame_model(lua_request_model(
                    msgid as int,
                    code.spec_bytes(),
                    Seq::empty(),
                )))
            }),
    {
        proof {
            reveal_strlit("nvim_exec_lua");
            assert(vstd::utf8::is_ascii_chars("nvim_exec_lua"@));
            lemma_ascii_code("nvim_exec_lua");
        }
        if code.is_empty() {
            return Err(api_text("empty code"));
        }
        let cb = code.as_bytes_vec();
        if (cb.len() as u64) > (u32::MAX as u64) {
            return Err(api_text("code too large for the wire format"));
        }
        let args: Vec<Value> = Vec::new();
        proof {
            assert(vm_items(args, 0) =~= Seq::<ValueModel>::empty());
        }
        self.lua_request(code, args)
    }

    /// Arms the diagnostics-changed notification remotely and subscribes
    /// to it, so the reader task will route its payloads into the cache.
    pub fn setup_diagnostics_changed_autocmd(&mut self) -> (r: Result<
        (u32, Vec<u8>),
        NeovimError,
    >)
        requires
            old(self).wf(),
        ensures
            final(self).wf(),
            final(self).cache_entries() == old(self).cache_entries(),
            final(self).is_connected() == old(self).is_connected(),
            final(self).target_view() == old(self).target_view(),
            !old(self).is_connected() ==> (r matches Err(NeovimError::NotConnected))
                && *final(self) == *old(self),
            old(self).is_connected() ==> final(self).rpc_state().subscribed(
                diagnostics_method(),
            ),
            old(self).is_connected() && !old(self).rpc_state().is_closed()
                && old(self).rpc_state().next() < u32::MAX ==> (r matches Ok(p) && {
                let (msgid, bytes) = p;
                &&& msgid as int == old(self).rpc_state().next()
                &&& final(self).rpc_state().pending_set()
                    == old(self).rpc_state().pending_set().insert(msgid as int)
                &&& bytes@ == enc(frame_model(lua_request_model(
                    msgid as int,
                    setup_diagnostics_code(),
                    Seq::empty(),
                )))
            }),
    {
        proof {
            reveal_strlit("return require('nvim-mcp').setup_diagnostics_autocmd()");
            assert(vstd::utf8::is_ascii_chars("return require('nvim-mcp').setup_diagnostics_autocmd()"@));
            lemma_ascii_code("return require('nvim-mcp').setup_diagnostics_autocmd()");
            reveal_strlit("nvim_exec_lua");
            assert(vstd::utf8::is_ascii_chars("nvim_exec_lua"@));
            lemma_ascii_code("nvim_exec_lua");
        }
        if !self.connected() {
            return Err(NeovimError::NotConnected);
        }
        let method = "nvim_mcp_diagnostics_changed".as_bytes_vec();
        proof {
            reveal_strlit("nvim_mcp_diagnostics_changed");
            assert(vstd::utf8::is_ascii_chars("nvim_mcp_diagnostics_changed"@));
            lemma_ascii_code("nvim_mcp_diagnostics_changed");
        }
        self.subscribe(method);
        let ghost mid = *self;
        let args: Vec<Value> = Vec::new();
        proof {
            assert(vm_items(args, 0) =~= Seq::<ValueModel>::empty());
        }
        let r = self.lua_request(
            "return require('nvim-mcp').setup_diagnostics_autocmd()",
            args,
        );
        proof {
            crate::rpc::lemma_subscribed_same(mid.rpc_state(), self.rpc_state());
            assert(self.rpc_state().subscribed(diagnostics_method()));
        }
        r
    }

    /// Builds the request that lists LSP clients.
    pub fn lsp_get_clients(&mut self) -> (r: Result<(u32, Vec<u8>), NeovimError>)
        requires
            old(self).wf(),
        ensures
            final(self).wf(),
            final(self).cache_entries() == old(self).cache_entries(),
            !old(self).is_connected() ==> (r matches Err(NeovimError::NotConnected))
                && *final(self) == *old(self),
            old(self).is_connected() && !old(self).rpc_state().is_closed()
                && old(self).rpc_state().next() < u32::MAX ==> (r matches Ok(p) && {
                let (msgid, bytes) = p;
                &&& msgid as int == old(self).rpc_state().next()
                &&& final(self).rpc_state().pending_set()
                    == old(self).rpc_state().pending_set().insert(msgid as int)
                &&& bytes@ == enc(frame_model(lua_request_model(
                    msgid as int,
                    lsp_clients_code(),
                    Seq::empty(),
                )))
            }),
    {
        proof {
            reveal_strlit("return require('nvim-mcp').lsp_get_clients()");
            assert(vstd::utf8::is_ascii_chars("return require('nvim-mcp').lsp_get_clients()"@));
            lemma_ascii_code("return require('nvim-mcp').lsp_get_clients()");
            reveal_strlit("nvim_exec_lua");
            assert(vstd::utf8::is_ascii_chars("nvim_exec_lua"@));
            lemma_ascii_code("nvim_exec_lua");
        }
        let args: Vec<Value> = Vec::new();
        proof {
            assert(vm_items(args, 0) =~= Seq::<ValueModel>::empty());
        }
        self.lua_request("return require('nvim-mcp').lsp_get_clients()", args)
    }

    /// Builds the request for code actions over a zero-based range,
    /// passing the positions through unchanged.
    pub fn lsp_get_code_actions(
        &mut self,
        client_name: &str,
        document: DocumentIdentifier,
        range: Range,
    ) -> (r: Result<(u32, Vec<u8>), NeovimError>)
        requires
            old(self).wf(),
        ensures
            final(self).wf(),
            final(self).cache_entries() == old(self).cache_entries(),
            client_name.spec_bytes().len() > u32::MAX ==> (r matches Err(
                NeovimError::Api(_),
            )) && *final(self) == *old(self),
            client_name.spec_bytes().len() <= u32::MAX && !old(self).is_connected()
                ==> (r matches Err(NeovimError::NotConnected)) && *final(self) == *old(self),
            client_name.spec_bytes().len() <= u32::MAX && old(self).is_connected()
                && !old(self).rpc_state().is_closed() && old(self).rpc_state().next()
                < u32::MAX ==> (r matches Ok(p) && {
                let (msgid, bytes) = p;
                &&& msgid as int == old(self).rpc_state().next()
                &&& final(self).rpc_state().pending_set()
                    == old(self).rpc_state().pending_set().insert(msgid as int)
                &&& bytes@ == enc(frame_model(lua_request_model(
                    msgid as int,
                    lsp_code_actions_code(),
                    seq![
                        ValueModel::Str(client_name.spec_bytes()),
                        ValueModel::UInt(document.buffer_id as int),
                        ValueModel::UInt(range.start.line as int),
                        ValueModel::UInt(range.start.character as int),
                        ValueModel::UInt(range.end.line as int),
                        ValueModel::UInt(range.end.character as int),
                    ],
                )))
            }),
    {
        proof {
            reveal_strlit("return require('nvim-mcp').lsp_code_actions(...)");
            assert(vstd::utf8::is_ascii_chars("return require('nvim-mcp').lsp_code_actions(...)"@));
            lemma_ascii_code("return require('nvim-mcp').lsp_code_actions(...)");
            reveal_strlit("nvim_exec_lua");
            assert(vstd::utf8::is_ascii_chars("nvim_exec_lua"@));
            lemma_ascii_code("nvim_exec_lua");
        }
        let nb = client_name.as_bytes_vec();
        if (nb.len() as u64) > (u32::MAX as u64) {
            return Err(api_text("client name too large for the wire format"));
        }
        let mut args: Vec<Value> = Vec::new();
        args.push(Value::Str(nb));
        args.push(Value::UInt(document.buffer_id));
        args.push(Value::UInt(range.start.line));
        args.push(Value::UInt(range.start.character));
        args.push(Value::UInt(range.end.line));
        args.push(Value::UInt(range.end.character));
        proof {
            crate::value::lemma_vm_items(args, args.len() as int);
            assert(vm_items(args, 6) =~= seq![
                ValueModel::Str(client_name.spec_bytes()),
                ValueModel::UInt(document.buffer_id as int),
                ValueModel::UInt(range.start.line as int),
                ValueModel::UInt(range.start.character as int),
                ValueModel::UInt(range.end.line as int),
                ValueModel::UInt(range.end.character as int),
            ]);
            assert forall|j: int| 0 <= j < vm_items(args, 6).len()
                implies (#[trigger] vm_items(args, 6)[j]).wf() by {
            }
            crate::value::lemma_wf_list_intro(vm_items(args, 6));
        }
        self.lua_request("return require('nvim-mcp').lsp_code_actions(...)", args)
    }

    /// Builds the request that resolves a code action, sending the
    /// server's raw action value back unchanged.
    pub fn lsp_resolve_code_action(&mut self, client_name: &str, code_action: CodeAction)
        -> (r: Result<(u32, Vec<u8>), NeovimError>)
        requires
            old(self).wf(),
            vm(code_action.raw).wf(),
        ensures
            final(self).wf(),
            final(self).cache_entries() == old(self).cache_entries(),
            client_name.spec_bytes().len() <= u32::MAX && old(self).is_connected()
                && !old(self).rpc_state().is_closed() && old(self).rpc_state().next()
                < u32::MAX ==> (r matches Ok(p) && {
                let (msgid, bytes) = p;
                bytes@ == enc(frame_model(lua_request_model(
                    msgid as int,
                    lsp_resolve_code(),
                    seq![ValueModel::Str(client_name.spec_bytes()), vm(code_action.raw)],
                )))
            }),
            client_name.spec_bytes().len() <= u32::MAX && !old(self).is_connected()
                ==> (r matches Err(NeovimError::NotConnected)) && *final(self) == *old(self),
    {
        proof {
            reveal_strlit("return require('nvim-mcp').lsp_resolve(...)");
            assert(vstd::utf8::is_ascii_chars("return require('nvim-mcp').lsp_resolve(...)"@));
            lemma_ascii_code("return require('nvim-mcp').lsp_resolve(...)");
            reveal_strlit("nvim_exec_lua");
            assert(vstd::utf8::is_ascii_chars("nvim_exec_lua"@));
            lemma_ascii_code("nvim_exec_lua");
        }
        let nb = client_name.as_bytes_vec();
        if (nb.len() as u64) > (u32::MAX as u64) {
            return Err(api_text("client name too large for the wire format"));
        }
        let mut args: Vec<Value> = Vec::new();
        args.push(Value::Str(nb));
        args.push(code_action.raw);
        proof {
            crate::value::lemma_vm_items(args, args.len() as int);
            assert(vm_items(args, 2) =~= seq![
                ValueModel::Str(client_name.spec_bytes()),
                vm(args@[1]),
            ]);
            assert forall|j: int| 0 <= j < vm_items(args, 2).len()
                implies (#[trigger] vm_items(args, 2)[j]).wf() by {
            }
            crate::value::lemma_wf_list_intro(vm_items(args, 2));
        }
        self.lua_request("return require('nvim-mcp').lsp_resolve(...)", args)
    }

    /// Builds the request that applies a workspace edit, sending the
    /// edit value through unchanged.
    pub fn lsp_apply_workspace_edit(&mut self, client_name: &str, edit: WorkspaceEdit)
        -> (r: Result<(u32, Vec<u8>), NeovimError>)
        requires
            old(self).wf(),
            vm(edit.raw).wf(),
        ensures
            final(self).wf(),
            final(self).cache_entries() == old(self).cache_entries(),
            client_name.spec_bytes().len() <= u32::MAX && old(self).is_connected()
                && !old(self).rpc_state().is_closed() && old(self).rpc_state().next()
                < u32::MAX ==> (r matches Ok(p) && {
                let (msgid, bytes) = p;
                bytes@ == enc(frame_model(lua_request_model(
                    msgid as int,
                    lsp_apply_edit_code(),
                    seq![ValueModel::Str(client_name.spec_bytes()), vm(edit.raw)],
                )))
            }),
            client_name.spec_bytes().len() <= u32::MAX && !old(self).is_connected()
                ==> (r matches Err(NeovimError::NotConnected)) && *final(self) == *old(self),
    {
        proof {
            reveal_strlit("return require('nvim-mcp').lsp_apply_edit(...)");
            assert(vstd::utf8::is_ascii_chars("return require('nvim-mcp').lsp_apply_edit(...)"@));
            lemma_ascii_code("return require('nvim-mcp').lsp_apply_edit(...)");
            reveal_strlit("nvim_exec_lua");
            assert(vstd::utf8::is_ascii_chars("nvim_exec_lua"@));
            lemma_ascii_code("nvim_exec_lua");
        }
        let nb = client_name.as_bytes_vec();
        if (nb.len() as u64) > (u32::MAX as u64) {
            return Err(api_text("client name too large for the wire format"));
        }
        let mut args: Vec<Value> = Vec::new();
        args.push(Value::Str(nb));
        args.push(edit.raw);
        proof {
            crate::value::lemma_vm_items(args, args.len() as int);
            assert(vm_items(args, 2) =~= seq![
                ValueModel::Str(client_name.spec_bytes()),
                vm(args@[1]),
            ]);
            assert forall|j: int| 0 <= j < vm_items(args, 2).len()
                implies (#[trigger] vm_items(args, 2)[j]).wf() by {
            }
            crate::value::lemma_wf_list_intro(vm_items(args, 2));
        }
        self.lua_request("return require('nvim-mcp').lsp_apply_edit(...)", args)
    }
}

/// An ASCII code literal's UTF-8 bytes are one byte per character.
proof fn lemma_ascii_code(s: &str)
    requires
        vstd::utf8::is_ascii_chars(s@),
    ensures
        s.spec_bytes().len() == s@.len(),
{
    vstd::utf8::is_ascii_chars_encode_utf8(s@);
}


} // verus!
