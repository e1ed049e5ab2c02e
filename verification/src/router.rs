//! The hybrid tool router: a fixed static tool set plus per-connection
//! dynamic tools, stored in a concurrent map keyed by tool name and
//! connection id.  A dynamic tool name may never shadow a static one.

use vstd::prelude::*;

use crate::error::NeovimError;
use crate::json::{jm, JsonModel, JsonValue};
use crate::text::{chars_le, lemma_chars_le_total, lemma_chars_le_trans, str_le};
use vstd::multiset::Multiset;

verus! {

broadcast use vstd::std_specs::vec::axiom_vec_index_decreases, vstd::seq::axiom_seq_index_decreases, vstd::seq_lib::group_to_multiset_ensures, vstd::multiset::group_multiset_axioms;

/// A dynamic tool: a capability discovered at connect-time from one
/// connection, described by its name, description and parameter schema.
pub struct DynamicTool {
    pub name: String,
    pub description: String,
    pub input_schema: JsonValue,
}

/// The mathematical model of a [`DynamicTool`].
pub struct DynamicToolModel {
    pub name: Seq<char>,
    pub description: Seq<char>,
    pub input_schema: crate::json::JsonModel,
}

/// The model of a [`DynamicTool`].
pub open spec fn tm(t: DynamicTool) -> DynamicToolModel {
    DynamicToolModel {
        name: t.name@,
        description: t.description@,
        input_schema: crate::json::jm(t.input_schema),
    }
}

/// Copies a dynamic tool, preserving its model.
pub fn clone_tool(t: &DynamicTool) -> (r: DynamicTool)
    ensures
        tm(r) == tm(*t),
{
    DynamicTool {
        name: t.name.clone(),
        description: t.description.clone(),
        input_schema: crate::json::clone_json(&t.input_schema),
    }
}

/// The fixed tool set: name and description of each tool compiled into
/// the gateway, in ascending name order.
pub struct ToolRouter {
    tools: Vec<(String, String)>,
}

impl ToolRouter {
    /// The static tools, in table order.
    pub closed spec fn tools_view(self) -> Seq<(Seq<char>, Seq<char>)> {
        Seq::new(self.tools@.len(), |i: int| (self.tools@[i].0@, self.tools@[i].1@))
    }

    /// `name` is a static tool's name.
    pub open spec fn has_name(self, name: Seq<char>) -> bool {
        exists|i: int| 0 <= i < self.tools_view().len()
            && (#[trigger] self.tools_view()[i]).0 == name
    }

    /// The table is sorted by name.
    pub closed spec fn wf(self) -> bool {
        forall|i: int, j: int| 0 <= i < j < self.tools_view().len()
            ==> chars_le((#[trigger] self.tools_view()[i]).0, (#[trigger] self.tools_view()[j]).0)
    }

    /// Whether a static tool of this name exists.
    pub fn has_route(&self, name: &String) -> (r: bool)
        ensures
            r == self.has_name(name@),
    {
        let n = self.tools.len();
        let mut i: usize = 0;
        while i < n
            invariant
                n == self.tools.len(),
                i <= n,
                forall|j: int| 0 <= j < i ==> (#[trigger] self.tools_view()[j]).0 != name@,
            decreases n - i,
        {
            if self.tools[i].0.eq(name) {
                proof {
                    assert(self.tools_view()[i as int].0 == name@);
                }
                return true;
            }
            proof {
                assert(self.tools_view()[i as int].0 == self.tools@[i as int].0@);
            }
            i = i + 1;
        }
        false
    }

    /// The static tools as (name, description) pairs, in table order.
    pub fn list_all(&self) -> (r: Vec<(String, String)>)
        ensures
            r@.len() == self.tools_view().len(),
            forall|i: int| 0 <= i < r@.len() ==> ((#[trigger] r@[i]).0@, r@[i].1@)
                == self.tools_view()[i],
    {
        let n = self.tools.len();
        let mut out: Vec<(String, String)> = Vec::new();
        let mut i: usize = 0;
        while i < n
            invariant
                n == self.tools.len(),
                i <= n,
                out@.len() == i,
                forall|j: int| 0 <= j < i ==> ((#[trigger] out@[j]).0@, out@[j].1@)
                    == self.tools_view()[j],
            decreases n - i,
        {
            out.push((self.tools[i].0.clone(), self.tools[i].1.clone()));
            i = i + 1;
        }
        out
    }

    /// How many static tools there are.
    pub fn len(&self) -> (r: usize)
        ensures
            r == self.tools_view().len(),
    {
        self.tools.len()
    }
}

/// Builds the static tool table: the gateway's fixed tools, sorted by
/// name.
pub fn build_tool_router() -> (r: ToolRouter)
    ensures
        r.wf(),
        r.tools_view().len() == 9,
        r.has_name("buffer_code_actions"@),
        r.has_name("buffer_diagnostics"@),
        r.has_name("connect"@),
        r.has_name("connect_tcp"@),
        r.has_name("disconnect"@),
        r.has_name("exec_lua"@),
        r.has_name("get_targets"@),
        r.has_name("list_buffers"@),
        r.has_name("lsp_clients"@),
        forall|n: Seq<char>| r.has_name(n) ==> n == "buffer_code_actions"@
            || n == "buffer_diagnostics"@ || n == "connect"@ || n == "connect_tcp"@
            || n == "disconnect"@ || n == "exec_lua"@ || n == "get_targets"@
            || n == "list_buffers"@ || n == "lsp_clients"@,
{
    let mut tools: Vec<(String, String)> = Vec::new();
    tools.push((String::from_str("buffer_code_actions"), String::from_str(
        "Get buffer's code actions",
    )));
    tools.push((String::from_str("buffer_diagnostics"), String::from_str(
        "Get buffer's diagnostics",
    )));
    tools.push((String::from_str("connect"), String::from_str(
        "Connect to Neovim instance via unix socket(pipe)",
    )));
    tools.push((String::from_str("connect_tcp"), String::from_str(
        "Connect to Neovim instance via TCP",
    )));
    tools.push((String::from_str("disconnect"), String::from_str(
        "Disconnect from Neovim instance",
    )));
    tools.push((String::from_str("exec_lua"), String::from_str(
        "Execute Lua code in Neovim",
    )));
    tools.push((String::from_str("get_targets"), String::from_str(
        "Get available Neovim targets",
    )));
    tools.push((String::from_str("list_buffers"), String::from_str(
        "List all open buffers in Neovim",
    )));
    tools.push((String::from_str("lsp_clients"), String::from_str(
        "Get workspace's lsp clients",
    )));
    let r = ToolRouter { tools };
    proof {
        reveal_strlit("buffer_code_actions");
        reveal_strlit("buffer_diagnostics");
        reveal_strlit("connect");
        reveal_strlit("connect_tcp");
        reveal_strlit("disconnect");
        reveal_strlit("exec_lua");
        reveal_strlit("get_targets");
        reveal_strlit("list_buffers");
        reveal_strlit("lsp_clients");
        let v = r.tools_view();
        assert(v.len() == 9);
        assert(v[0].0 == "buffer_code_actions"@);
        assert(v[1].0 == "buffer_diagnostics"@);
        assert(v[2].0 == "connect"@);
        assert(v[3].0 == "connect_tcp"@);
        assert(v[4].0 == "disconnect"@);
        assert(v[5].0 == "exec_lua"@);
        assert(v[6].0 == "get_targets"@);
        assert(v[7].0 == "list_buffers"@);
        assert(v[8].0 == "lsp_clients"@);
        reveal_with_fuel(chars_le, 25);
        assert(chars_le(v[0].0, v[1].0));
        assert(chars_le(v[1].0, v[2].0));
        assert(chars_le(v[2].0, v[3].0));
        assert(chars_le(v[3].0, v[4].0));
        assert(chars_le(v[4].0, v[5].0));
        assert(chars_le(v[5].0, v[6].0));
        assert(chars_le(v[6].0, v[7].0));
        assert(chars_le(v[7].0, v[8].0));
        assert forall|i: int, j: int| 0 <= i < j < v.len()
            implies chars_le((#[trigger] v[i]).0, (#[trigger] v[j]).0) by {
            lemma_adjacent_chain(v, i, j);
        }
        assert forall|n: Seq<char>| r.has_name(n) implies n == "buffer_code_actions"@
            || n == "buffer_diagnostics"@ || n == "connect"@ || n == "connect_tcp"@
            || n == "disconnect"@ || n == "exec_lua"@ || n == "get_targets"@
            || n == "list_buffers"@ || n == "lsp_clients"@ by {
            let i = choose|i: int| 0 <= i < v.len() && (#[trigger] v[i]).0 == n;
        }
    }
    r
}

/// Any two entries of an adjacently-sorted table are ordered.
proof fn lemma_adjacent_chain(v: Seq<(Seq<char>, Seq<char>)>, i: int, j: int)
    requires
        forall|k: int| 0 <= k < v.len() - 1 ==> chars_le((#[trigger] v[k]).0, v[k + 1].0),
        0 <= i <= j < v.len(),
    ensures
        chars_le(v[i].0, v[j].0),
    decreases j - i,
{
    if i == j {
        lemma_chars_le_total(v[i].0, v[i].0);
    } else {
        lemma_adjacent_chain(v, i, j - 1);
        lemma_chars_le_trans(v[i].0, v[j - 1].0, v[j].0);
    }
}


#[verifier::external_type_specification]
#[verifier::external_body]
#[verifier::reject_recursive_types(K)]
#[verifier::reject_recursive_types(V)]
#[verifier::reject_recursive_types(S)]
pub struct ExDashMap<K, V, S>(dashmap::DashMap<K, V, S>);

/// What the concurrent tool store holds: for each (tool name,
/// connection id) key, the model of the stored tool.
pub uninterp spec fn tool_map(
    m: dashmap::DashMap<(String, String), DynamicTool>,
) -> Map<(Seq<char>, Seq<char>), DynamicToolModel>;

/// The empty tool store contents.
pub open spec fn empty_tool_map() -> Map<(Seq<char>, Seq<char>), DynamicToolModel> {
    Map::empty()
}

/// Relies on `dashmap::DashMap::new`: a fresh map holds nothing.
#[verifier::external_body]
fn ts_new() -> (store: dashmap::DashMap<(String, String), DynamicTool>)
    ensures
        tool_map(store) == empty_tool_map(),
{
    dashmap::DashMap::new()
}

/// Relies on `dashmap::DashMap::insert`: maps the key to the new value,
/// replacing any previous entry for it, and touches no other key.
#[verifier::external_body]
fn ts_insert(
    m: &mut dashmap::DashMap<(String, String), DynamicTool>,
    name: String,
    conn: String,
    tool: DynamicTool,
)
    ensures
        tool_map(*final(m)) == tool_map(*old(m)).insert((name@, conn@), tm(tool)),
{
    let _previous = m.insert((name, conn), tool);
}

/// Relies on `dashmap::DashMap::remove`: unmaps the key and returns what
/// it held, touching no other key.
#[verifier::external_body]
fn ts_remove(
    m: &mut dashmap::DashMap<(String, String), DynamicTool>,
    name: &String,
    conn: &String,
) -> (r: Option<DynamicTool>)
    ensures
        tool_map(*final(m)) == tool_map(*old(m)).remove((name@, conn@)),
        (r is Some) == tool_map(*old(m)).contains_key((name@, conn@)),
        (r matches Some(t) ==> tool_map(*old(m))[(name@, conn@)] == tm(t)),
{
    m.remove(&(name.clone(), conn.clone())).map(|kv| kv.1)
}

/// Relies on `dashmap::DashMap::get`: returns a copy of what the key
/// holds, if anything.  The copy is made field by field by `clone_tool`.
#[verifier::external_body]
fn ts_get(
    m: &dashmap::DashMap<(String, String), DynamicTool>,
    name: &String,
    conn: &String,
) -> (r: Option<DynamicTool>)
    ensures
        (r is Some) == tool_map(*m).contains_key((name@, conn@)),
        (r matches Some(t) ==> tool_map(*m)[(name@, conn@)] == tm(t)),
{
    m.get(&(name.clone(), conn.clone())).map(|entry| clone_tool(entry.value()))
}

/// The dynamic tool names of one connection set: a tool name and the
/// connections that expose it.
pub struct NameEntry {
    pub name: String,
    pub conns: Vec<String>,
}

/// The connection ids of an entry, as character sequences.
pub open spec fn conns_of(e: NameEntry) -> Seq<Seq<char>> {
    Seq::new(e.conns@.len(), |i: int| e.conns@[i]@)
}

/// Connection `c` exposes a dynamic tool named `n`.
pub open spec fn listed(names: Seq<NameEntry>, n: Seq<char>, c: Seq<char>) -> bool {
    exists|i: int| 0 <= i < names.len() && (#[trigger] names[i]).name@ == n
        && conns_of(names[i]).contains(c)
}

/// The index of the entry for tool name `n`, if any.
pub open spec fn names_find(names: Seq<NameEntry>, n: Seq<char>) -> Option<int>
    decreases names.len(),
{
    if names.len() == 0 {
        None
    } else if names[0].name@ == n {
        Some(0)
    } else {
        match names_find(names.drop_first(), n) {
            Some(i) => Some(i + 1),
            None => None,
        }
    }
}

/// The hybrid router: the static tool table, the concurrent per-(name,
/// connection) tool store, and the index of dynamic names.
pub struct HybridToolRouter {
    static_router: ToolRouter,
    store: dashmap::DashMap<(String, String), DynamicTool>,
    names: Vec<NameEntry>,
}

impl HybridToolRouter {
    /// The static tool table.
    pub closed spec fn static_view(self) -> ToolRouter {
        self.static_router
    }

    /// The index of dynamic tool names.
    pub closed spec fn names_view(self) -> Seq<NameEntry> {
        self.names@
    }

    /// The stored tools.
    pub closed spec fn store_view(self) -> Map<(Seq<char>, Seq<char>), DynamicToolModel> {
        tool_map(self.store)
    }

    /// A dynamic tool name is registered for at least one connection.
    pub open spec fn has_dynamic(self, n: Seq<char>) -> bool {
        names_find(self.names_view(), n) is Some
    }

    /// The dynamic tool registered under (name, connection), if any.
    pub open spec fn dyn_tool(self, n: Seq<char>, c: Seq<char>) -> Option<DynamicToolModel> {
        if listed(self.names_view(), n, c) {
            Some(self.store_view()[(n, c)])
        } else {
            None
        }
    }

    /// The router invariant: the static table is sorted; index entries
    /// are distinct, non-empty, and never shadow a static name; every
    /// listed (name, connection) pair is present in the store.
    pub closed spec fn wf(self) -> bool {
        &&& self.static_router.wf()
        &&& (forall|i: int, j: int| 0 <= i < j < self.names@.len()
            ==> (#[trigger] self.names@[i]).name@ != (#[trigger] self.names@[j]).name@)
        &&& (forall|i: int| 0 <= i < self.names@.len() ==> {
            let e = #[trigger] self.names@[i];
            &&& conns_of(e).len() > 0
            &&& !self.static_router.has_name(e.name@)
            &&& (forall|a: int, b: int| 0 <= a < b < conns_of(e).len()
                ==> conns_of(e)[a] != conns_of(e)[b])
        })
        &&& (forall|n: Seq<char>, c: Seq<char>| listed(self.names@, n, c)
            ==> #[trigger] tool_map(self.store).contains_key((n, c)))
    }

    /// A router with the given static tools and no dynamic tools.
    pub fn new(static_router: ToolRouter) -> (r: Self)
        requires
            static_router.wf(),
        ensures
            r.wf(),
            r.static_view() == static_router,
            r.names_view() == Seq::<NameEntry>::empty(),
            forall|n: Seq<char>, c: Seq<char>| #[trigger] r.dyn_tool(n, c) is None,
    {
        let r = HybridToolRouter { static_router, store: ts_new(), names: Vec::new() };
        proof {
            assert forall|n: Seq<char>, c: Seq<char>| #[trigger] r.dyn_tool(n, c) is None by {
                assert(!listed(r.names@, n, c));
            }
        }
        r
    }

    /// The static tool table, for listing.
    pub fn static_router(&self) -> (r: &ToolRouter)
        ensures
            *r == self.static_view(),
    {
        &self.static_router
    }

    /// How many distinct dynamic tool names are registered.
    pub fn get_dynamic_tool_count(&self) -> (r: usize)
        ensures
            r == self.names_view().len(),
    {
        self.names.len()
    }
}

/// Finding at the first matching index.
proof fn lemma_names_find_at(names: Seq<NameEntry>, i: int, n: Seq<char>)
    requires
        0 <= i < names.len(),
        names[i].name@ == n,
        forall|j: int| 0 <= j < i ==> (#[trigger] names[j]).name@ != n,
    ensures
        names_find(names, n) == Some(i),
    decreases i,
{
    if i > 0 {
        lemma_names_find_at(names.drop_first(), i - 1, n);
    }
}

/// No entry matches: no index.
proof fn lemma_names_find_none(names: Seq<NameEntry>, n: Seq<char>)
    requires
        forall|j: int| 0 <= j < names.len() ==> (#[trigger] names[j]).name@ != n,
    ensures
        names_find(names, n) is None,
    decreases names.len(),
{
    if names.len() > 0 {
        lemma_names_find_none(names.drop_first(), n);
    }
}

/// A found index is in range and points at the name looked up.
proof fn lemma_names_find_bounds(names: Seq<NameEntry>, n: Seq<char>)
    ensures
        match names_find(names, n) {
            Some(i) => 0 <= i < names.len() && names[i].name@ == n,
            None => forall|j: int| 0 <= j < names.len() ==> (#[trigger] names[j]).name@ != n,
        },
    decreases names.len(),
{
    if names.len() > 0 && names[0].name@ != n {
        lemma_names_find_bounds(names.drop_first(), n);
        if names_find(names.drop_first(), n) is None {
            assert forall|j: int| 0 <= j < names.len()
                implies (#[trigger] names[j]).name@ != n by {
                if j > 0 {
                    assert(names.drop_first()[j - 1] == names[j]);
                }
            }
        }
    }
}


impl HybridToolRouter {
    /// Registers a connection-specific tool under its own name.  Fails
    /// with `NameConflict` — and changes nothing — exactly when the name
    /// shadows a static tool.  Otherwise the tool is dispatchable for
    /// this connection; registering again for the same (name, connection)
    /// overwrites (last write wins), and no other pair is touched.
    pub fn register_dynamic_tool(&mut self, connection_id: &str, tool: DynamicTool) -> (r:
        Result<(), NeovimError>)
        requires
            old(self).wf(),
        ensures
            final(self).wf(),
            final(self).static_view() == old(self).static_view(),
            old(self).static_view().has_name(tool.name@) ==> (r matches Err(
                NeovimError::NameConflict(_),
            )) && *final(self) == *old(self),
            !old(self).static_view().has_name(tool.name@) ==> {
                &&& r matches Ok(_)
                &&& final(self).dyn_tool(tool.name@, connection_id@) == Some(tm(tool))
                &&& (forall|n: Seq<char>, c: Seq<char>| (n, c) != (tool.name@, connection_id@)
                    ==> #[trigger] final(self).dyn_tool(n, c) == old(self).dyn_tool(n, c))
                &&& (forall|n: Seq<char>| #[trigger] final(self).has_dynamic(n)
                    == (old(self).has_dynamic(n) || n == tool.name@))
            },
    {
        if self.static_router.has_route(&tool.name) {
            return Err(NeovimError::NameConflict(tool.name.clone()));
        }
        let ghost tool_snap = tool;
        let ghost old_self = *self;
        let ghost old_names = self.names@;
        let ghost old_map = tool_map(self.store);
        let name = tool.name.clone();
        let conn: String = connection_id.to_owned();
        let ghost conn_snap = conn;
        ts_insert(&mut self.store, name.clone(), conn.clone(), tool);
        let n = self.names.len();
        let mut i: usize = 0;
        let mut found: bool = false;
        while i < n && !found
            invariant
                n == self.names.len(),
                i <= n,
                old_self.wf(),
                name@ == tool_snap.name@,
                conn_snap@ == connection_id@,
                self.names@ == old_names,
                old_names == old_self.names_view(),
                self.static_router == old_self.static_view(),
                !old_self.static_view().has_name(name@),
                tool_map(self.store) == old_self.store_view().insert(
                    (name@, conn_snap@),
                    tm(tool_snap),
                ),
                !found ==> forall|j: int| 0 <= j < i
                    ==> (#[trigger] self.names@[j]).name@ != name@,
                found ==> i < n && self.names@[i as int].name@ == name@,
            decreases n - i + (if found { 0int } else { 1int }),
        {
            if self.names[i].name.eq(&name) {
                found = true;
            } else {
                i = i + 1;
            }
        }
        if found {
            proof {
                assert forall|j: int| 0 <= j < old_names.len() && j != i
                    implies (#[trigger] old_names[j]).name@ != name@ by {
                    if j < i as int {
                        assert(old_names[j].name@ != old_names[i as int].name@);
                    } else {
                        assert(old_names[i as int].name@ != old_names[j].name@);
                    }
                }
            }
            let mut entry = self.names.remove(i);
            let ghost entry_snap = entry;
            let had = contains_string(&entry.conns, &conn);
            if !had {
                entry.conns.push(conn);
                proof {
                    assert(conns_of(entry)[entry_snap.conns@.len() as int] == conn_snap@);
                }
            }
            let ghost entry2 = entry;
            self.names.insert(i, entry);
            proof {
                assert(self.names@ == old_names.remove(i as int).insert(i as int, entry2));
                lemma_register_existing(
                    old_names,
                    self.names@,
                    i as int,
                    entry_snap,
                    entry2,
                    name@,
                    conn_snap@,
                    had,
                );
                let after_names = self.names@;
                // distinct names are kept: only the entry at `i` changed,
                // and it kept its name
                assert forall|a: int, b: int| 0 <= a < b < after_names.len()
                    implies (#[trigger] after_names[a]).name@
                        != (#[trigger] after_names[b]).name@ by {
                    assert(old_names[a].name@ != old_names[b].name@);
                    if a != i {
                        assert(after_names[a] == old_names[a]);
                    }
                    if b != i {
                        assert(after_names[b] == old_names[b]);
                    }
                }
                // per-entry facts
                assert forall|k: int| 0 <= k < after_names.len() implies {
                    let e = #[trigger] after_names[k];
                    &&& conns_of(e).len() > 0
                    &&& !self.static_router.has_name(e.name@)
                    &&& (forall|a: int, b: int| 0 <= a < b < conns_of(e).len()
                        ==> conns_of(e)[a] != conns_of(e)[b])
                } by {
                    if k != i {
                        assert(after_names[k] == old_names[k]);
                        assert(old_self.wf());
                        assert(0 <= k < old_self.names_view().len());
                        assert({
                            let e = old_self.names_view()[k];
                            &&& conns_of(e).len() > 0
                            &&& !old_self.static_view().has_name(e.name@)
                            &&& (forall|a: int, b: int| 0 <= a < b < conns_of(e).len()
                                ==> conns_of(e)[a] != conns_of(e)[b])
                        });
                    } else {
                        assert(after_names[k] == entry2);
                        assert({
                            let e = old_self.names_view()[i as int];
                            &&& conns_of(e).len() > 0
                            &&& !old_self.static_view().has_name(e.name@)
                            &&& (forall|a: int, b: int| 0 <= a < b < conns_of(e).len()
                                ==> conns_of(e)[a] != conns_of(e)[b])
                        });
                        if !had {
                            assert forall|a: int, b: int| 0 <= a < b < conns_of(entry2).len()
                                implies conns_of(entry2)[a] != conns_of(entry2)[b] by {
                                if b < entry_snap.conns@.len() {
                                    assert(conns_of(entry2)[a] == conns_of(entry_snap)[a]);
                                    assert(conns_of(entry2)[b] == conns_of(entry_snap)[b]);
                                } else {
                                    assert(conns_of(entry2)[b] == conn_snap@);
                                    assert(conns_of(entry2)[a] == conns_of(entry_snap)[a]);
                                    if conns_of(entry_snap)[a] == conn_snap@ {
                                        assert(conns_of(entry_snap).contains(conn_snap@));
                                        assert(false);
                                    }
                                }
                            }
                        }
                    }
                }
                // every listed pair is stored
                assert forall|n2: Seq<char>, c2: Seq<char>| listed(after_names, n2, c2)
                    implies #[trigger] tool_map(self.store).contains_key((n2, c2)) by {
                    if (n2, c2) != (name@, conn_snap@) {
                        assert(listed(old_names, n2, c2));
                        assert(old_self.store_view().contains_key((n2, c2)));
                    }
                }
                // the set of dynamic names is unchanged (the name was present)
                assert forall|n2: Seq<char>| (names_find(after_names, n2) is Some)
                    == ((names_find(old_names, n2) is Some) || n2 == name@) by {
                    lemma_find_some_iff(after_names, n2);
                    lemma_find_some_iff(old_names, n2);
                    if exists|j: int| 0 <= j < after_names.len()
                        && (#[trigger] after_names[j]).name@ == n2 {
                        let j = choose|j: int| 0 <= j < after_names.len()
                            && (#[trigger] after_names[j]).name@ == n2;
                        if j == i {
                            assert(old_names[i as int].name@ == n2);
                        } else {
                            assert(old_names[j].name@ == n2);
                        }
                    }
                    if exists|j: int| 0 <= j < old_names.len()
                        && (#[trigger] old_names[j]).name@ == n2 {
                        let j = choose|j: int| 0 <= j < old_names.len()
                            && (#[trigger] old_names[j]).name@ == n2;
                        if j == i {
                            assert(after_names[i as int].name@ == n2);
                        } else {
                            assert(after_names[j].name@ == n2);
                        }
                    }
                    if n2 == name@ {
                        assert(after_names[i as int].name@ == n2);
                    }
                }
                lemma_register_post(old_self, *self, name@, conn_snap@, tm(tool_snap));
            }
        } else {
            let mut conns: Vec<String> = Vec::new();
            conns.push(conn);
            let entry = NameEntry { name, conns };
            let ghost entry2 = entry;
            self.names.push(entry);
            proof {
                assert(entry2.conns@[0]@ == conn_snap@);
                lemma_register_fresh(old_names, self.names@, entry2, conn_snap@);
                let after_names = self.names@;
                assert forall|a: int, b: int| 0 <= a < b < after_names.len()
                    implies (#[trigger] after_names[a]).name@
                        != (#[trigger] after_names[b]).name@ by {
                    if b < old_names.len() {
                        assert(old_names[a].name@ != old_names[b].name@);
                    } else {
                        assert(after_names[b] == entry2);
                        assert(old_names[a].name@ != entry2.name@);
                    }
                }
                assert forall|k: int| 0 <= k < after_names.len() implies {
                    let e = #[trigger] after_names[k];
                    &&& conns_of(e).len() > 0
                    &&& !self.static_router.has_name(e.name@)
                    &&& (forall|a: int, b: int| 0 <= a < b < conns_of(e).len()
                        ==> conns_of(e)[a] != conns_of(e)[b])
                } by {
                    if k < old_names.len() {
                        assert(after_names[k] == old_names[k]);
                        assert({
                            let e = old_self.names_view()[k];
                            &&& conns_of(e).len() > 0
                            &&& !old_self.static_view().has_name(e.name@)
                            &&& (forall|a: int, b: int| 0 <= a < b < conns_of(e).len()
                                ==> conns_of(e)[a] != conns_of(e)[b])
                        });
                    } else {
                        assert(after_names[k] == entry2);
                        assert(conns_of(entry2).len() == 1);
                    }
                }
                assert forall|n2: Seq<char>, c2: Seq<char>| listed(after_names, n2, c2)
                    implies #[trigger] tool_map(self.store).contains_key((n2, c2)) by {
                    if (n2, c2) != (name@, conn_snap@) {
                        assert(listed(old_names, n2, c2));
                        assert(old_self.store_view().contains_key((n2, c2)));
                    }
                }
                assert forall|n2: Seq<char>| (names_find(after_names, n2) is Some)
                    == ((names_find(old_names, n2) is Some) || n2 == name@) by {
                    lemma_find_some_iff(after_names, n2);
                    lemma_find_some_iff(old_names, n2);
                    if exists|j: int| 0 <= j < after_names.len()
                        && (#[trigger] after_names[j]).name@ == n2 {
                        let j = choose|j: int| 0 <= j < after_names.len()
                            && (#[trigger] after_names[j]).name@ == n2;
                        if j < old_names.len() {
                            assert(old_names[j].name@ == n2);
                        } else {
                            assert(n2 == name@);
                        }
                    }
                    if exists|j: int| 0 <= j < old_names.len()
                        && (#[trigger] old_names[j]).name@ == n2 {
                        let j = choose|j: int| 0 <= j < old_names.len()
                            && (#[trigger] old_names[j]).name@ == n2;
                        assert(after_names[j].name@ == n2);
                    }
                    if n2 == name@ {
                        assert(after_names[old_names.len() as int].name@ == n2);
                    }
                }
                lemma_register_post(old_self, *self, name@, conn_snap@, tm(tool_snap));
            }
        }
        Ok(())
    }
}

/// Whether `v` holds a string equal to `x`.
pub fn contains_string(v: &Vec<String>, x: &String) -> (r: bool)
    ensures
        r == Seq::new(v@.len(), |i: int| v@[i]@).contains(x@),
{
    let ghost views = Seq::new(v@.len(), |i: int| v@[i]@);
    let n = v.len();
    let mut i: usize = 0;
    while i < n
        invariant
            n == v.len(),
            views == Seq::new(v@.len(), |i: int| v@[i]@),
            i <= n,
            forall|j: int| 0 <= j < i ==> views[j] != x@,
        decreases n - i,
    {
        if v[i].eq(x) {
            proof {
                assert(views[i as int] == x@);
            }
            return true;
        }
        i = i + 1;
    }
    proof {
        if views.contains(x@) {
            let j = choose|j: int| 0 <= j < views.len() && views[j] == x@;
            assert(false);
        }
    }
    false
}

/// After replacing the entry at `i` with one whose connection list gained
/// `conn` (or already had it), `listed` holds for exactly the old pairs
/// plus (name, conn).
proof fn lemma_register_existing(
    before: Seq<NameEntry>,
    after: Seq<NameEntry>,
    i: int,
    entry: NameEntry,
    entry2: NameEntry,
    name: Seq<char>,
    conn: Seq<char>,
    had: bool,
)
    requires
        0 <= i < before.len(),
        before[i] == entry,
        entry.name@ == name,
        after == before.remove(i).insert(i, entry2),
        entry2.name@ == name,
        had == conns_of(entry).contains(conn),
        had ==> entry2 == entry,
        !had ==> entry2.name == entry.name && entry2.conns@ == entry.conns@.push(
            conn_with_view(entry2, conn),
        ),
        !had ==> entry2.conns@.len() == entry.conns@.len() + 1
            && entry2.conns@[entry.conns@.len() as int]@ == conn,
        forall|j: int| 0 <= j < before.len() && j != i
            ==> (#[trigger] before[j]).name@ != name,
    ensures
        after.len() == before.len(),
        forall|j: int| 0 <= j < after.len() && j != i ==> #[trigger] after[j] == before[j],
        after[i] == entry2,
        listed(after, name, conn),
        forall|n2: Seq<char>, c2: Seq<char>| (n2, c2) != (name, conn)
            ==> #[trigger] listed(after, n2, c2) == listed(before, n2, c2),
        conns_of(entry2).len() > 0,
{
    if had {
        assert(conns_of(entry2).contains(conn));
        let k0 = choose|k0: int| 0 <= k0 < conns_of(entry2).len()
            && conns_of(entry2)[k0] == conn;
        assert(conns_of(entry2).len() > 0);
    }
    before.remove_ensures(i);
    before.remove(i).insert_ensures(i, entry2);
    assert forall|j: int| 0 <= j < after.len() && j != i
        implies #[trigger] after[j] == before[j] by {
        if j < i {
            assert(after[j] == before.remove(i)[j]);
        } else {
            assert(after[j] == before.remove(i)[j - 1]);
        }
    }
    assert(after[i] == entry2);
    if had {
        assert(conns_of(entry2).contains(conn));
    } else {
        assert(conns_of(entry2)[entry.conns@.len() as int] == conn);
    }
    assert(listed(after, name, conn));
    assert forall|n2: Seq<char>, c2: Seq<char>| (n2, c2) != (name, conn)
        implies #[trigger] listed(after, n2, c2) == listed(before, n2, c2) by {
        if listed(after, n2, c2) {
            let j = choose|j: int| 0 <= j < after.len() && (#[trigger] after[j]).name@ == n2
                && conns_of(after[j]).contains(c2);
            if j != i {
                assert(before[j] == after[j]);
                assert(listed(before, n2, c2));
            } else {
                assert(n2 == name);
                assert(c2 != conn);
                let k = choose|k: int| 0 <= k < conns_of(entry2).len()
                    && conns_of(entry2)[k] == c2;
                if had {
                    assert(listed(before, n2, c2));
                } else {
                    assert(k < entry.conns@.len());
                    assert(conns_of(entry)[k] == c2);
                    assert(listed(before, n2, c2));
                }
            }
        }
        if listed(before, n2, c2) {
            let j = choose|j: int| 0 <= j < before.len() && (#[trigger] before[j]).name@ == n2
                && conns_of(before[j]).contains(c2);
            if j != i {
                assert(after[j] == before[j]);
                assert(listed(after, n2, c2));
            } else {
                let k = choose|k: int| 0 <= k < conns_of(entry).len()
                    && conns_of(entry)[k] == c2;
                if had {
                    assert(listed(after, n2, c2));
                } else {
                    assert(conns_of(entry2)[k] == c2);
                    assert(listed(after, n2, c2));
                }
            }
        }
    }
}

/// The pushed connection string, by view.
pub open spec fn conn_with_view(entry2: NameEntry, conn: Seq<char>) -> String {
    entry2.conns@[entry2.conns@.len() - 1]
}

/// After appending a fresh entry for (name, conn), `listed` holds for
/// exactly the old pairs plus (name, conn).
proof fn lemma_register_fresh(
    before: Seq<NameEntry>,
    after: Seq<NameEntry>,
    entry: NameEntry,
    conn: Seq<char>,
)
    requires
        after == before.push(entry),
        entry.conns@.len() == 1,
        entry.conns@[0]@ == conn,
        forall|j: int| 0 <= j < before.len() ==> (#[trigger] before[j]).name@ != entry.name@,
    ensures
        after.len() == before.len() + 1,
        forall|j: int| 0 <= j < before.len() ==> #[trigger] after[j] == before[j],
        after[before.len() as int] == entry,
        listed(after, entry.name@, conn),
        forall|n2: Seq<char>, c2: Seq<char>| (n2, c2) != (entry.name@, conn)
            ==> #[trigger] listed(after, n2, c2) == listed(before, n2, c2),
{
    assert(conns_of(entry)[0] == conn);
    assert(after[before.len() as int] == entry);
    assert(listed(after, entry.name@, conn));
    assert forall|n2: Seq<char>, c2: Seq<char>| (n2, c2) != (entry.name@, conn)
        implies #[trigger] listed(after, n2, c2) == listed(before, n2, c2) by {
        if listed(after, n2, c2) {
            let j = choose|j: int| 0 <= j < after.len() && (#[trigger] after[j]).name@ == n2
                && conns_of(after[j]).contains(c2);
            if j < before.len() {
                assert(listed(before, n2, c2));
            } else {
                assert(after[j] == entry);
                assert(n2 == entry.name@);
                let k = choose|k: int| 0 <= k < conns_of(entry).len()
                    && conns_of(entry)[k] == c2;
                assert(k == 0);
                assert(c2 == conn);
            }
        }
        if listed(before, n2, c2) {
            let j = choose|j: int| 0 <= j < before.len() && (#[trigger] before[j]).name@ == n2
                && conns_of(before[j]).contains(c2);
            assert(after[j] == before[j]);
            assert(listed(after, n2, c2));
        }
    }
}

/// Ties the index change and the store insert together into the
/// register postcondition.
proof fn lemma_register_post(
    before: HybridToolRouter,
    after: HybridToolRouter,
    name: Seq<char>,
    conn: Seq<char>,
    model: DynamicToolModel,
)
    requires
        before.wf(),
        after.static_view() == before.static_view(),
        after.store_view() == before.store_view().insert((name, conn), model),
        listed(after.names_view(), name, conn),
        forall|n2: Seq<char>, c2: Seq<char>| (n2, c2) != (name, conn)
            ==> #[trigger] listed(after.names_view(), n2, c2)
                == listed(before.names_view(), n2, c2),
        forall|n2: Seq<char>, c2: Seq<char>| listed(after.names_view(), n2, c2)
            ==> #[trigger] tool_map(after.store).contains_key((n2, c2)),
        forall|i: int, j: int| 0 <= i < j < after.names_view().len()
            ==> (#[trigger] after.names_view()[i]).name@
                != (#[trigger] after.names_view()[j]).name@,
        forall|i: int| 0 <= i < after.names_view().len() ==> {
            let e = #[trigger] after.names_view()[i];
            &&& conns_of(e).len() > 0
            &&& !after.static_view().has_name(e.name@)
            &&& (forall|a: int, b: int| 0 <= a < b < conns_of(e).len()
                ==> conns_of(e)[a] != conns_of(e)[b])
        },
        forall|n2: Seq<char>| (names_find(after.names_view(), n2) is Some)
            == ((names_find(before.names_view(), n2) is Some) || n2 == name),
    ensures
        after.wf(),
        after.dyn_tool(name, conn) == Some(model),
        forall|n2: Seq<char>, c2: Seq<char>| (n2, c2) != (name, conn)
            ==> #[trigger] after.dyn_tool(n2, c2) == before.dyn_tool(n2, c2),
        forall|n2: Seq<char>| #[trigger] after.has_dynamic(n2)
            == (before.has_dynamic(n2) || n2 == name),
{
    assert(after.store_view()[(name, conn)] == model);
    assert forall|n2: Seq<char>, c2: Seq<char>| (n2, c2) != (name, conn)
        implies #[trigger] after.dyn_tool(n2, c2) == before.dyn_tool(n2, c2) by {
        if listed(before.names_view(), n2, c2) {
            assert(before.store_view().contains_key((n2, c2)));
            assert(after.store_view()[(n2, c2)] == before.store_view()[(n2, c2)]);
        }
    }
}

/// A name has an index entry exactly when some entry carries it.
proof fn lemma_find_some_iff(names: Seq<NameEntry>, n: Seq<char>)
    ensures
        (names_find(names, n) is Some) == (exists|j: int| 0 <= j < names.len()
            && (#[trigger] names[j]).name@ == n),
{
    lemma_names_find_bounds(names, n);
    if exists|j: int| 0 <= j < names.len() && (#[trigger] names[j]).name@ == n {
        if names_find(names, n) is None {
            let j = choose|j: int| 0 <= j < names.len() && (#[trigger] names[j]).name@ == n;
            assert(false);
        }
    }
}


/// Appending an index entry extends `listed` by exactly that entry's
/// pairs.
proof fn lemma_listed_push(names: Seq<NameEntry>, e: NameEntry)
    ensures
        forall|n: Seq<char>, c: Seq<char>| #[trigger] listed(names.push(e), n, c)
            == (listed(names, n, c) || (e.name@ == n && conns_of(e).contains(c))),
{
    assert forall|n: Seq<char>, c: Seq<char>| #[trigger] listed(names.push(e), n, c)
        == (listed(names, n, c) || (e.name@ == n && conns_of(e).contains(c))) by {
        if listed(names.push(e), n, c) {
            let j = choose|j: int| 0 <= j < names.push(e).len()
                && (#[trigger] names.push(e)[j]).name@ == n
                && conns_of(names.push(e)[j]).contains(c);
            if j < names.len() {
                assert(names[j] == names.push(e)[j]);
                assert(listed(names, n, c));
            } else {
                assert(names.push(e)[j] == e);
            }
        }
        if listed(names, n, c) {
            let j = choose|j: int| 0 <= j < names.len() && (#[trigger] names[j]).name@ == n
                && conns_of(names[j]).contains(c);
            assert(names.push(e)[j] == names[j]);
            assert(listed(names.push(e), n, c));
        }
        if e.name@ == n && conns_of(e).contains(c) {
            assert(names.push(e)[names.len() as int] == e);
            assert(listed(names.push(e), n, c));
        }
    }
}

/// Removing the only occurrence of `c` from a duplicate-free connection
/// list removes exactly `c`.
proof fn lemma_conns_remove(cs: Seq<Seq<char>>, i: int, c: Seq<char>)
    requires
        0 <= i < cs.len(),
        cs[i] == c,
        forall|a: int, b: int| 0 <= a < b < cs.len() ==> cs[a] != cs[b],
    ensures
        !cs.remove(i).contains(c),
        forall|c2: Seq<char>| c2 != c ==> cs.remove(i).contains(c2) == cs.contains(c2),
        forall|a: int, b: int| 0 <= a < b < cs.remove(i).len()
            ==> cs.remove(i)[a] != cs.remove(i)[b],
{
    cs.remove_ensures(i);
    let after = cs.remove(i);
    assert forall|a: int, b: int| 0 <= a < b < after.len()
        implies after[a] != after[b] by {
        let a0: int = if a < i { a } else { a + 1 };
        let b0: int = if b < i { b } else { b + 1 };
        assert(after[a] == cs[a0]);
        assert(after[b] == cs[b0]);
    }
    if after.contains(c) {
        let j = choose|j: int| 0 <= j < after.len() && after[j] == c;
        let j0: int = if j < i { j } else { j + 1 };
        assert(after[j] == cs[j0]);
        if j0 < i {
            assert(cs[j0] != cs[i]);
        } else {
            assert(cs[i] != cs[j0]);
        }
        assert(false);
    }
    assert forall|c2: Seq<char>| c2 != c
        implies after.contains(c2) == cs.contains(c2) by {
        if after.contains(c2) {
            let j = choose|j: int| 0 <= j < after.len() && after[j] == c2;
            let j0: int = if j < i { j } else { j + 1 };
            assert(cs[j0] == c2);
        }
        if cs.contains(c2) {
            let j0 = choose|j0: int| 0 <= j0 < cs.len() && cs[j0] == c2;
            if j0 < i {
                assert(after[j0] == c2);
            } else {
                assert(j0 != i);
                assert(after[j0 - 1] == c2);
            }
        }
    }
}

impl HybridToolRouter {
    /// Removes every dynamic tool this connection contributed: afterwards
    /// no tool name is dispatchable for it, while every other
    /// connection's tools are untouched.  Tool names left with no
    /// connection are pruned from the index.
    pub fn unregister_dynamic_tools(&mut self, connection_id: &str)
        requires
            old(self).wf(),
        ensures
            final(self).wf(),
            final(self).static_view() == old(self).static_view(),
            forall|n: Seq<char>| #[trigger] final(self).dyn_tool(n, connection_id@) is None,
            forall|n: Seq<char>, c: Seq<char>| c != connection_id@
                ==> #[trigger] final(self).dyn_tool(n, c) == old(self).dyn_tool(n, c),
            forall|n: Seq<char>| #[trigger] final(self).has_dynamic(n)
                ==> old(self).has_dynamic(n),
            forall|n: Seq<char>| #[trigger] final(self).has_dynamic(n)
                == (exists|c: Seq<char>| c != connection_id@ && #[trigger] listed(
                    old(self).names_view(),
                    n,
                    c,
                )),
    {
        let conn: String = connection_id.to_owned();
        let ghost conn_v = conn@;
        let ghost old_self = *self;
        let ghost old_names = self.names@;
        let mut out: Vec<NameEntry> = Vec::new();
        let ghost total = old_names.len();
        while self.names.len() > 0
            invariant
                old_self.wf(),
                conn_v == connection_id@,
                conn@ == conn_v,
                old_names == old_self.names_view(),
                self.static_router == old_self.static_view(),
                self.names@.len() <= total,
                total == old_names.len(),
                self.names@ == old_names.skip(total - self.names@.len()),
                forall|n: Seq<char>, c: Seq<char>| #[trigger] listed(out@, n, c)
                    == (listed(old_names.subrange(0, total - self.names@.len() as int), n, c)
                        && c != conn_v),
                forall|n: Seq<char>, c: Seq<char>| c != conn_v
                    ==> #[trigger] tool_map(self.store).contains_key((n, c))
                        == old_self.store_view().contains_key((n, c)),
                forall|n: Seq<char>, c: Seq<char>| c != conn_v
                    && old_self.store_view().contains_key((n, c))
                    ==> #[trigger] tool_map(self.store)[(n, c)]
                        == old_self.store_view()[(n, c)],
                forall|a: int, b: int| 0 <= a < b < out@.len()
                    ==> (#[trigger] out@[a]).name@ != (#[trigger] out@[b]).name@,
                forall|a: int| 0 <= a < out@.len() ==> exists|j: int|
                    0 <= j < total - self.names@.len()
                        && (#[trigger] out@[a]).name@ == old_names[j].name@,
                forall|a: int| 0 <= a < out@.len() ==> {
                    let e = #[trigger] out@[a];
                    &&& conns_of(e).len() > 0
                    &&& !self.static_router.has_name(e.name@)
                    &&& (forall|x: int, y: int| 0 <= x < y < conns_of(e).len()
                        ==> conns_of(e)[x] != conns_of(e)[y])
                },
            decreases self.names@.len(),
        {
            let ghost k = total - self.names@.len();
            proof {
                assert(self.names@[0] == old_names[k]);
                assert(0 <= k < old_self.names_view().len());
            }
            let mut entry = self.names.remove(0);
            let ghost entry_snap = entry;
            proof {
                assert(self.names@ =~= old_names.skip(k + 1));
                assert(entry_snap == old_names[k]);
            }
            let ghost prefix_k = old_names.subrange(0, k);
            let ghost prefix_k1 = old_names.subrange(0, k + 1);
            proof {
                assert(prefix_k1 =~= prefix_k.push(old_names[k]));
            }
            let mut idx: usize = 0;
            let mut found: bool = false;
            let cn = entry.conns.len();
            while idx < cn && !found
                invariant
                    cn == entry.conns.len(),
                    idx <= cn,
                    conn@ == conn_v,
                    !found ==> forall|j: int| 0 <= j < idx
                        ==> conns_of(entry)[j] != conn_v,
                    found ==> idx < cn && conns_of(entry)[idx as int] == conn_v,
                    entry == entry_snap,
                decreases cn - idx + (if found { 0int } else { 1int }),
            {
                if entry.conns[idx].eq(&conn) {
                    found = true;
                } else {
                    idx = idx + 1;
                }
            }
            if found {
                let _removed = ts_remove(&mut self.store, &entry.name, &conn);
                entry.conns.remove(idx);
                proof {
                    assert(conns_of(entry) =~= conns_of(entry_snap).remove(idx as int));
                    lemma_conns_remove(conns_of(entry_snap), idx as int, conn_v);
                }
                if entry.conns.len() > 0 {
                    let ghost out_before = out@;
                    let ghost entry2 = entry;
                    out.push(entry);
                    proof {
                        lemma_listed_push(out_before, entry2);
                        lemma_unreg_step(
                            out_before,
                            out@,
                            entry_snap,
                            entry2,
                            prefix_k,
                            prefix_k1,
                            conn_v,
                            true,
                        );
                    }
                } else {
                    proof {
                        assert forall|n: Seq<char>, c: Seq<char>| #[trigger] listed(out@, n, c)
                            == (listed(prefix_k1, n, c) && c != conn_v) by {
                            lemma_listed_push(prefix_k, old_names[k]);
                            if listed(prefix_k1, n, c) && c != conn_v {
                                if old_names[k].name@ == n
                                    && conns_of(old_names[k]).contains(c) {
                                    assert(conns_of(entry_snap).remove(idx as int).len() == 0);
                                    assert(conns_of(entry_snap).len() == 1);
                                    assert(conns_of(entry_snap)[0] == conn_v);
                                    let j = choose|j: int| 0 <= j < conns_of(entry_snap).len()
                                        && conns_of(entry_snap)[j] == c;
                                    assert(j == 0);
                                    assert(false);
                                } else {
                                    assert(listed(prefix_k, n, c));
                                }
                            }
                        }
                    }
                }
            } else {
                proof {
                    assert(!conns_of(entry_snap).contains(conn_v)) by {
                        if conns_of(entry_snap).contains(conn_v) {
                            let j = choose|j: int| 0 <= j < conns_of(entry_snap).len()
                                && conns_of(entry_snap)[j] == conn_v;
                            assert(false);
                        }
                    }
                }
                let ghost out_before = out@;
                let ghost entry2 = entry;
                out.push(entry);
                proof {
                    lemma_listed_push(out_before, entry2);
                    lemma_unreg_step(
                        out_before,
                        out@,
                        entry_snap,
                        entry2,
                        prefix_k,
                        prefix_k1,
                        conn_v,
                        false,
                    );
                }
            }
        }
        self.names = out;
        proof {
            assert(old_names.subrange(0, total as int) =~= old_names);
            assert forall|n: Seq<char>| #[trigger] self.dyn_tool(n, conn_v) is None by {
                assert(!listed(self.names@, n, conn_v));
            }
            assert forall|n: Seq<char>, c: Seq<char>| c != conn_v
                implies #[trigger] self.dyn_tool(n, c) == old_self.dyn_tool(n, c) by {
                assert(listed(self.names@, n, c) == listed(old_names, n, c));
                if listed(old_names, n, c) {
                    assert(old_self.store_view().contains_key((n, c)));
                    assert(tool_map(self.store)[(n, c)] == old_self.store_view()[(n, c)]);
                }
            }
            assert forall|n: Seq<char>| #[trigger] self.has_dynamic(n)
                implies old_self.has_dynamic(n) by {
                lemma_find_some_iff(self.names@, n);
                lemma_find_some_iff(old_names, n);
                if exists|a: int| 0 <= a < self.names@.len()
                    && (#[trigger] self.names@[a]).name@ == n {
                    let a = choose|a: int| 0 <= a < self.names@.len()
                        && (#[trigger] self.names@[a]).name@ == n;
                }
            }
            assert forall|n: Seq<char>, c: Seq<char>| listed(self.names@, n, c)
                implies #[trigger] tool_map(self.store).contains_key((n, c)) by {
                assert(listed(old_names, n, c));
                assert(old_self.store_view().contains_key((n, c)));
            }
            assert forall|n: Seq<char>| #[trigger] self.has_dynamic(n)
                == (exists|c: Seq<char>| c != conn_v && #[trigger] listed(
                    old_names,
                    n,
                    c,
                )) by {
                lemma_find_some_iff(self.names@, n);
                if exists|a: int| 0 <= a < self.names@.len()
                    && (#[trigger] self.names@[a]).name@ == n {
                    let a = choose|a: int| 0 <= a < self.names@.len()
                        && (#[trigger] self.names@[a]).name@ == n;
                    assert(conns_of(self.names@[a]).len() > 0);
                    let x = conns_of(self.names@[a])[0];
                    assert(conns_of(self.names@[a]).contains(x));
                    assert(listed(self.names@, n, x));
                    assert(listed(old_names, n, x) && x != conn_v);
                }
                if exists|c: Seq<char>| c != conn_v && #[trigger] listed(old_names, n, c) {
                    let c = choose|c: Seq<char>| c != conn_v && #[trigger] listed(
                        old_names,
                        n,
                        c,
                    );
                    assert(listed(self.names@, n, c));
                    let j = choose|j: int| 0 <= j < self.names@.len()
                        && (#[trigger] self.names@[j]).name@ == n
                        && conns_of(self.names@[j]).contains(c);
                }
            }
        }
    }
}

/// One step of the teardown rebuild: pushing the processed entry keeps
/// the listing relation for the grown prefix.
proof fn lemma_unreg_step(
    out_before: Seq<NameEntry>,
    out_after: Seq<NameEntry>,
    entry: NameEntry,
    entry2: NameEntry,
    prefix_k: Seq<NameEntry>,
    prefix_k1: Seq<NameEntry>,
    conn: Seq<char>,
    removed: bool,
)
    requires
        out_after == out_before.push(entry2),
        entry2.name@ == entry.name@,
        prefix_k1 == prefix_k.push(entry),
        forall|n: Seq<char>, c: Seq<char>| #[trigger] listed(out_before, n, c)
            == (listed(prefix_k, n, c) && c != conn),
        removed ==> !conns_of(entry2).contains(conn) && (forall|c2: Seq<char>| c2 != conn
            ==> conns_of(entry2).contains(c2) == conns_of(entry).contains(c2)),
        !removed ==> entry2 == entry && !conns_of(entry).contains(conn),
    ensures
        forall|n: Seq<char>, c: Seq<char>| #[trigger] listed(out_after, n, c)
            == (listed(prefix_k1, n, c) && c != conn),
{
    lemma_listed_push(out_before, entry2);
    lemma_listed_push(prefix_k, entry);
    assert forall|n: Seq<char>, c: Seq<char>| #[trigger] listed(out_after, n, c)
        == (listed(prefix_k1, n, c) && c != conn) by {
        assert(listed(out_after, n, c) == (listed(out_before, n, c)
            || (entry2.name@ == n && conns_of(entry2).contains(c))));
        assert(listed(prefix_k1, n, c) == (listed(prefix_k, n, c)
            || (entry.name@ == n && conns_of(entry).contains(c))));
        if entry2.name@ == n && conns_of(entry2).contains(c) {
            assert(c != conn);
            assert(conns_of(entry).contains(c));
        }
    }
}


/// What a tool call resolves to.
pub enum ToolDispatch {
    /// Call this connection-specific dynamic tool.
    Dynamic(DynamicTool),
    /// Fall through to the static tool of that name.
    Static,
}

/// How many index entries list connection `c` among the first `n`.
pub open spec fn count_for(names: Seq<NameEntry>, c: Seq<char>, n: int) -> int
    decreases n,
{
    if 0 < n && n <= names.len() {
        count_for(names, c, n - 1) + (if conns_of(names[n - 1]).contains(c) {
            1int
        } else {
            0int
        })
    } else {
        0
    }
}

impl HybridToolRouter {
    /// The index position of the entry for this tool name, if any.
    fn find_name(&self, tool_name: &String) -> (r: Option<usize>)
        ensures
            match r {
                Some(i) => names_find(self.names_view(), tool_name@) == Some(i as int)
                    && i < self.names_view().len()
                    && self.names_view()[i as int].name@ == tool_name@,
                None => names_find(self.names_view(), tool_name@) is None,
            },
    {
        let n = self.names.len();
        let mut i: usize = 0;
        while i < n
            invariant
                n == self.names.len(),
                i <= n,
                forall|j: int| 0 <= j < i ==> (#[trigger] self.names@[j]).name@ != tool_name@,
            decreases n - i,
        {
            if self.names[i].name.eq(tool_name) {
                proof {
                    lemma_names_find_at(self.names@, i as int, tool_name@);
                }
                return Some(i);
            }
            i = i + 1;
        }
        proof {
            lemma_names_find_none(self.names@, tool_name@);
        }
        None
    }

    /// Whether a dynamic tool of this name exists for any connection.
    pub fn has_dynamic_tool(&self, tool_name: &String) -> (r: bool)
        ensures
            r == self.has_dynamic(tool_name@),
    {
        match self.find_name(tool_name) {
            Some(_) => true,
            None => false,
        }
    }

    /// Whether a tool of this name exists, dynamically or statically.
    pub fn has_tool(&self, tool_name: &String) -> (r: bool)
        ensures
            r == (self.has_dynamic(tool_name@) || self.static_view().has_name(tool_name@)),
    {
        match self.find_name(tool_name) {
            Some(_) => true,
            None => self.static_router.has_route(tool_name),
        }
    }

    /// Resolves a tool call.  A dynamic name takes priority: it needs an
    /// explicit connection id (`InvalidParams` if missing) and the tool
    /// must be registered for that connection (`ToolNotFound` if not).
    /// A name with no dynamic entry falls through to the static set, and
    /// a name in neither fails with `ToolNotFound`.
    pub fn call_tool(&self, tool_name: &String, connection_id: Option<&String>) -> (r: Result<
        ToolDispatch,
        NeovimError,
    >)
        requires
            self.wf(),
        ensures
            self.has_dynamic(tool_name@) ==> (match connection_id {
                None => r matches Err(NeovimError::InvalidParams(_)),
                Some(c) => if self.dyn_tool(tool_name@, c@) is Some {
                    r matches Ok(ToolDispatch::Dynamic(t))
                        && self.dyn_tool(tool_name@, c@) == Some(tm(t))
                } else {
                    r matches Err(NeovimError::ToolNotFound(_))
                },
            }),
            !self.has_dynamic(tool_name@) && self.static_view().has_name(tool_name@)
                ==> r matches Ok(ToolDispatch::Static),
            !self.has_dynamic(tool_name@) && !self.static_view().has_name(tool_name@)
                ==> r matches Err(NeovimError::ToolNotFound(_)),
    {
        match self.find_name(tool_name) {
            Some(i) => {
                match connection_id {
                    None => Err(NeovimError::InvalidParams(tool_name.clone())),
                    Some(c) => {
                        let entry = &self.names[i];
                        if contains_string(&entry.conns, c) {
                            proof {
                                assert(listed(self.names@, tool_name@, c@));
                                assert(tool_map(self.store).contains_key((tool_name@, c@)));
                            }
                            match ts_get(&self.store, tool_name, c) {
                                Some(t) => Ok(ToolDispatch::Dynamic(t)),
                                None => {
                                    proof {
                                        assert(false);
                                    }
                                    Err(NeovimError::ToolNotFound(tool_name.clone()))
                                },
                            }
                        } else {
                            proof {
                                if listed(self.names@, tool_name@, c@) {
                                    let j = choose|j: int| 0 <= j < self.names@.len()
                                        && (#[trigger] self.names@[j]).name@ == tool_name@
                                        && conns_of(self.names@[j]).contains(c@);
                                    if j != i as int {
                                        assert(self.names@[j].name@
                                            != self.names@[i as int].name@) by {
                                            if j < i as int {
                                                assert(self.names@[j].name@
                                                    != self.names@[i as int].name@);
                                            }
                                        }
                                    }
                                    assert(false);
                                }
                            }
                            Err(NeovimError::ToolNotFound(tool_name.clone()))
                        }
                    },
                }
            },
            None => {
                if self.static_router.has_route(tool_name) {
                    Ok(ToolDispatch::Static)
                } else {
                    Err(NeovimError::ToolNotFound(tool_name.clone()))
                }
            },
        }
    }

    /// How many dynamic tools this connection has registered.
    pub fn get_connection_tool_count(&self, connection_id: &str) -> (r: usize)
        ensures
            r == count_for(self.names_view(), connection_id@, self.names_view().len() as int),
    {
        let conn: String = connection_id.to_owned();
        let n = self.names.len();
        let mut count: usize = 0;
        let mut i: usize = 0;
        while i < n
            invariant
                n == self.names.len(),
                i <= n,
                conn@ == connection_id@,
                count == count_for(self.names@, connection_id@, i as int),
                count <= i,
            decreases n - i,
        {
            if contains_string(&self.names[i].conns, &conn) {
                count = count + 1;
            }
            i = i + 1;
        }
        count
    }
}


/// One row of a tool listing: `dynamic_connections` is how many
/// connections expose the tool (zero for a static tool), and
/// `input_schema` is the tool's parameter schema where one was
/// registered (static tools carry none here).
pub struct ToolListing {
    pub name: String,
    pub description: String,
    pub dynamic_connections: u64,
    pub input_schema: Option<JsonValue>,
}

/// The mathematical model of a [`ToolListing`].
pub struct ListingModel {
    pub name: Seq<char>,
    pub description: Seq<char>,
    pub connections: int,
    pub input_schema: Option<JsonModel>,
}

/// The model of a [`ToolListing`].
pub open spec fn lm(t: ToolListing) -> ListingModel {
    ListingModel {
        name: t.name@,
        description: t.description@,
        connections: t.dynamic_connections as int,
        input_schema: match t.input_schema {
            Some(j) => Some(jm(j)),
            None => None,
        },
    }
}

/// The models of a listing vector.
pub open spec fn listing_models(s: Seq<ToolListing>) -> Seq<ListingModel> {
    Seq::new(s.len(), |i: int| lm(s[i]))
}

/// The listing is in ascending name order.
pub open spec fn sorted_listings(s: Seq<ToolListing>) -> bool {
    forall|i: int, j: int| 0 <= i < j < s.len()
        ==> chars_le((#[trigger] s[i]).name@, (#[trigger] s[j]).name@)
}

impl HybridToolRouter {
    /// The rows a full listing must hold: each static tool, and one row
    /// per dynamic name with its first connection's description and its
    /// connection count.
    pub open spec fn expected_listing(self) -> Seq<ListingModel> {
        Seq::new(
            self.static_view().tools_view().len(),
            |i: int| ListingModel {
                name: self.static_view().tools_view()[i].0,
                description: self.static_view().tools_view()[i].1,
                connections: 0,
                input_schema: None,
            },
        ) + Seq::new(
            self.names_view().len(),
            |i: int| ListingModel {
                name: self.names_view()[i].name@,
                description: self.store_view()[
                    (self.names_view()[i].name@, conns_of(self.names_view()[i])[0])
                ].description,
                connections: conns_of(self.names_view()[i]).len() as int,
                input_schema: Some(self.store_view()[
                    (self.names_view()[i].name@, conns_of(self.names_view()[i])[0])
                ].input_schema),
            },
        )
    }

    /// Lists every tool — static and dynamic, one row per distinct
    /// dynamic name, annotated with how many connections expose it —
    /// sorted by name for deterministic output.
    pub fn list_all_tools(&self) -> (r: Vec<ToolListing>)
        requires
            self.wf(),
        ensures
            sorted_listings(r@),
            listing_models(r@).to_multiset() == self.expected_listing().to_multiset(),
    {
        let mut rows: Vec<ToolListing> = Vec::new();
        let statics = self.static_router.list_all();
        let ghost sv = self.static_view().tools_view();
        let sn = statics.len();
        let mut i: usize = 0;
        while i < sn
            invariant
                sn == statics@.len(),
                sn == sv.len(),
                forall|j: int| 0 <= j < sn ==> ((#[trigger] statics@[j]).0@, statics@[j].1@)
                    == sv[j],
                i <= sn,
                rows@.len() == i,
                forall|j: int| 0 <= j < i ==> lm(#[trigger] rows@[j]) == (ListingModel {
                    name: sv[j].0,
                    description: sv[j].1,
                    connections: 0,
                    input_schema: None,
                }),
            decreases sn - i,
        {
            let (name, description) = (statics[i].0.clone(), statics[i].1.clone());
            rows.push(ToolListing { name, description, dynamic_connections: 0, input_schema: None });
            i = i + 1;
        }
        let ghost nv = self.names_view();
        let dn = self.names.len();
        let mut k: usize = 0;
        while k < dn
            invariant
                self.wf(),
                nv == self.names_view(),
                dn == nv.len(),
                k <= dn,
                rows@.len() == sn + k,
                sn == sv.len(),
                sv == self.static_view().tools_view(),
                forall|j: int| 0 <= j < sn ==> lm(#[trigger] rows@[j]) == (ListingModel {
                    name: sv[j].0,
                    description: sv[j].1,
                    connections: 0,
                    input_schema: None,
                }),
                forall|j: int| 0 <= j < k ==> lm(#[trigger] rows@[sn + j]) == (ListingModel {
                    name: nv[j].name@,
                    description: self.store_view()[(nv[j].name@, conns_of(nv[j])[0])]
                        .description,
                    connections: conns_of(nv[j]).len() as int,
                    input_schema: Some(self.store_view()[(nv[j].name@, conns_of(nv[j])[0])]
                        .input_schema),
                }),
            decreases dn - k,
        {
            let entry = &self.names[k];
            proof {
                assert(nv[k as int] == self.names@[k as int]);
                assert(conns_of(nv[k as int]).len() > 0);
                assert(conns_of(nv[k as int])[0] == entry.conns@[0]@);
                assert(listed(self.names@, entry.name@, entry.conns@[0]@));
                assert(tool_map(self.store).contains_key((entry.name@, entry.conns@[0]@)));
            }
            let first = &entry.conns[0];
            match ts_get(&self.store, &entry.name, first) {
                Some(t) => {
                    let count = entry.conns.len() as u64;
                    rows.push(ToolListing {
                        name: entry.name.clone(),
                        description: t.description,
                        dynamic_connections: count,
                        input_schema: Some(t.input_schema),
                    });
                },
                None => {
                    proof {
                        assert(false);
                    }
                },
            }
            k = k + 1;
        }
        proof {
            assert(rows@.len() == sn + dn);
            assert(self.expected_listing().len() == sn + dn);
            assert forall|j: int| 0 <= j < rows@.len()
                implies listing_models(rows@)[j] == self.expected_listing()[j] by {
                if j < sn {
                    assert(lm(rows@[j]) == (ListingModel {
                        name: sv[j].0,
                        description: sv[j].1,
                        connections: 0,
                        input_schema: None,
                    }));
                } else {
                    let j2 = j - sn;
                    assert(lm(rows@[sn + j2]) == (ListingModel {
                        name: nv[j2].name@,
                        description: self.store_view()[(nv[j2].name@, conns_of(nv[j2])[0])]
                            .description,
                        connections: conns_of(nv[j2]).len() as int,
                        input_schema: Some(self.store_view()[
                            (nv[j2].name@, conns_of(nv[j2])[0])
                        ].input_schema),
                    }));
                }
            }
            assert(listing_models(rows@) =~= self.expected_listing());
        }
        sort_listings(rows)
    }

    /// The tools visible to one connection: every static tool, then each
    /// dynamic tool this connection registered, flagged static or not.
    pub fn get_connection_tools_info(&self, connection_id: &str) -> (r: Vec<
        (String, String, bool),
    >)
        requires
            self.wf(),
        ensures
            r@.len() >= self.static_view().tools_view().len(),
            forall|j: int| 0 <= j < self.static_view().tools_view().len()
                ==> ((#[trigger] r@[j]).0@, r@[j].1@) == self.static_view().tools_view()[j]
                    && r@[j].2 == true,
            forall|j: int| self.static_view().tools_view().len() <= j < r@.len()
                ==> (#[trigger] r@[j]).2 == false
                    && self.dyn_tool(r@[j].0@, connection_id@) is Some
                    && (self.dyn_tool(r@[j].0@, connection_id@) matches Some(t)
                        && t.description == r@[j].1@),
            r@.len() == self.static_view().tools_view().len() + count_for(
                self.names_view(),
                connection_id@,
                self.names_view().len() as int,
            ),
            forall|i: int| 0 <= i < self.names_view().len()
                && conns_of(#[trigger] self.names_view()[i]).contains(connection_id@)
                ==> exists|j: int| self.static_view().tools_view().len() <= j < r@.len()
                    && (#[trigger] r@[j]).0@ == self.names_view()[i].name@,
    {
        let conn: String = connection_id.to_owned();
        let mut out: Vec<(String, String, bool)> = Vec::new();
        let statics = self.static_router.list_all();
        let ghost sv = self.static_view().tools_view();
        let sn = statics.len();
        let mut i: usize = 0;
        while i < sn
            invariant
                sn == statics@.len(),
                sn == sv.len(),
                forall|j: int| 0 <= j < sn ==> ((#[trigger] statics@[j]).0@, statics@[j].1@)
                    == sv[j],
                i <= sn,
                out@.len() == i,
                forall|j: int| 0 <= j < i ==> ((#[trigger] out@[j]).0@, out@[j].1@) == sv[j]
                    && out@[j].2 == true,
            decreases sn - i,
        {
            out.push((statics[i].0.clone(), statics[i].1.clone(), true));
            i = i + 1;
        }
        let dn = self.names.len();
        let mut k: usize = 0;
        while k < dn
            invariant
                self.wf(),
                dn == self.names@.len(),
                conn@ == connection_id@,
                k <= dn,
                out@.len() >= sn,
                sn == sv.len(),
                sv == self.static_view().tools_view(),
                forall|j: int| 0 <= j < sn ==> ((#[trigger] out@[j]).0@, out@[j].1@) == sv[j]
                    && out@[j].2 == true,
                forall|j: int| sn <= j < out@.len() ==> (#[trigger] out@[j]).2 == false
                    && self.dyn_tool(out@[j].0@, connection_id@) is Some
                    && (self.dyn_tool(out@[j].0@, connection_id@) matches Some(t)
                        && t.description == out@[j].1@),
                out@.len() == sn + count_for(self.names_view(), connection_id@, k as int),
                forall|i: int| 0 <= i < k
                    && conns_of(#[trigger] self.names@[i]).contains(connection_id@)
                    ==> exists|j: int| sn <= j < out@.len()
                        && (#[trigger] out@[j]).0@ == self.names@[i].name@,
            decreases dn - k,
        {
            let entry = &self.names[k];
            let ghost out_before = out@;
            if contains_string(&entry.conns, &conn) {
                proof {
                    assert(listed(self.names@, entry.name@, conn@));
                    assert(tool_map(self.store).contains_key((entry.name@, conn@)));
                }
                match ts_get(&self.store, &entry.name, &conn) {
                    Some(t) => {
                        out.push((entry.name.clone(), t.description, false));
                    },
                    None => {
                        proof {
                            assert(false);
                        }
                    },
                }
                proof {
                    assert forall|i: int| 0 <= i < k + 1
                        && conns_of(#[trigger] self.names@[i]).contains(connection_id@)
                        implies exists|j: int| sn <= j < out@.len()
                            && (#[trigger] out@[j]).0@ == self.names@[i].name@ by {
                        if i < k {
                            let j0 = choose|j0: int| sn <= j0 < out_before.len()
                                && (#[trigger] out_before[j0]).0@ == self.names@[i].name@;
                            assert(out@[j0].0@ == self.names@[i].name@);
                        } else {
                            assert(out@[out@.len() - 1].0@ == self.names@[k as int].name@);
                        }
                    }
                }
            } else {
                proof {
                    assert(!conns_of(self.names@[k as int]).contains(connection_id@)) by {
                        if conns_of(self.names@[k as int]).contains(connection_id@) {
                            let j = choose|j: int|
                                0 <= j < conns_of(self.names@[k as int]).len()
                                    && conns_of(self.names@[k as int])[j] == connection_id@;
                            assert(false);
                        }
                    }
                    assert forall|i: int| 0 <= i < k + 1
                        && conns_of(#[trigger] self.names@[i]).contains(connection_id@)
                        implies exists|j: int| sn <= j < out@.len()
                            && (#[trigger] out@[j]).0@ == self.names@[i].name@ by {
                        assert(i < k);
                    }
                }
            }
            k = k + 1;
        }
        proof {
            assert(self.names@.subrange(0, dn as int) =~= self.names@);
        }
        out
    }

    /// The tools one connection may call, as `get_connection_tools_info`
    /// reports them.
    pub fn list_connection_tools(&self, connection_id: &str) -> (r: Vec<
        (String, String, bool),
    >)
        requires
            self.wf(),
        ensures
            r@.len() >= self.static_view().tools_view().len(),
            forall|j: int| 0 <= j < self.static_view().tools_view().len()
                ==> ((#[trigger] r@[j]).0@, r@[j].1@) == self.static_view().tools_view()[j]
                    && r@[j].2 == true,
            forall|j: int| self.static_view().tools_view().len() <= j < r@.len()
                ==> (#[trigger] r@[j]).2 == false
                    && self.dyn_tool(r@[j].0@, connection_id@) is Some,
            r@.len() == self.static_view().tools_view().len() + count_for(
                self.names_view(),
                connection_id@,
                self.names_view().len() as int,
            ),
            forall|i: int| 0 <= i < self.names_view().len()
                && conns_of(#[trigger] self.names_view()[i]).contains(connection_id@)
                ==> exists|j: int| self.static_view().tools_view().len() <= j < r@.len()
                    && (#[trigger] r@[j]).0@ == self.names_view()[i].name@,
    {
        self.get_connection_tools_info(connection_id)
    }
}

/// Sorts a listing by name, keeping exactly the same rows.
fn sort_listings(v: Vec<ToolListing>) -> (r: Vec<ToolListing>)
    ensures
        sorted_listings(r@),
        listing_models(r@).to_multiset() == listing_models(v@).to_multiset(),
{
    let mut input = v;
    let mut out: Vec<ToolListing> = Vec::new();
    let ghost all = listing_models(v@).to_multiset();
    while input.len() > 0
        invariant
            sorted_listings(out@),
            forall|a: int, b: int| 0 <= a < out@.len() && 0 <= b < input@.len()
                ==> chars_le((#[trigger] out@[a]).name@, (#[trigger] input@[b]).name@),
            listing_models(out@).to_multiset().add(listing_models(input@).to_multiset())
                == all,
        decreases input@.len(),
    {
        let n = input.len();
        let mut m: usize = 0;
        proof {
            lemma_chars_le_total(input@[0].name@, input@[0].name@);
        }
        let mut i: usize = 1;
        while i < n
            invariant
                n == input@.len(),
                m < i <= n,
                forall|j: int| 0 <= j < i ==> chars_le(
                    input@[m as int].name@,
                    (#[trigger] input@[j]).name@,
                ),
            decreases n - i,
        {
            if str_le(&input[i].name, &input[m].name) {
                proof {
                    assert forall|j: int| 0 <= j < i + 1 implies chars_le(
                        input@[i as int].name@,
                        (#[trigger] input@[j]).name@,
                    ) by {
                        if j == i as int {
                            lemma_chars_le_total(
                                input@[i as int].name@,
                                input@[i as int].name@,
                            );
                        } else {
                            crate::text::lemma_chars_le_trans(
                                input@[i as int].name@,
                                input@[m as int].name@,
                                input@[j].name@,
                            );
                        }
                    }
                }
                m = i;
            } else {
                proof {
                    lemma_chars_le_total(input@[m as int].name@, input@[i as int].name@);
                }
            }
            i = i + 1;
        }
        let ghost before = input@;
        let ghost out_before = out@;
        let e = input.remove(m);
        let ghost e_snap = e;
        out.push(e);
        proof {
            before.remove_ensures(m as int);
            assert(listing_models(before.remove(m as int))
                =~= listing_models(before).remove(m as int));
            assert(listing_models(out@) =~= listing_models(out_before).push(lm(e_snap)));
            assert(listing_models(before)[m as int] == lm(e_snap));
            assert(listing_models(out_before).push(lm(e_snap)).to_multiset()
                =~= listing_models(out_before).to_multiset().insert(lm(e_snap)));
            assert(listing_models(out@).to_multiset()
                =~= listing_models(out_before).to_multiset().insert(lm(e_snap)));
            assert(listing_models(before).remove(m as int).to_multiset()
                =~= listing_models(before).to_multiset().remove(
                listing_models(before)[m as int],
            ));
            assert(listing_models(input@).to_multiset()
                =~= listing_models(before).to_multiset().remove(lm(e_snap)));
            assert(listing_models(before).to_multiset().contains(lm(e_snap)));
            assert(listing_models(out@).to_multiset().add(
                listing_models(input@).to_multiset(),
            ) =~= all);
            assert forall|a: int, b: int| 0 <= a < out@.len() && 0 <= b < input@.len()
                implies chars_le((#[trigger] out@[a]).name@, (#[trigger] input@[b]).name@)
                by {
                let b0: int = if b < m as int { b } else { b + 1 };
                assert(input@[b] == before[b0]);
                if a < out_before.len() {
                    assert(chars_le(out_before[a as int].name@, before[b0].name@));
                } else {
                    assert(out@[a] == e_snap);
                    assert(chars_le(e_snap.name@, before[b0].name@));
                }
            }
            assert forall|a: int, b: int| 0 <= a < b < out@.len() implies chars_le(
                (#[trigger] out@[a]).name@,
                (#[trigger] out@[b]).name@,
            ) by {
                if b < out_before.len() {
                } else {
                    assert(out@[b] == e_snap);
                    assert(chars_le(out_before[a].name@, before[m as int].name@));
                }
            }
        }
    }
    proof {
        assert(listing_models(input@) =~= Seq::<ListingModel>::empty());
        assert(listing_models(input@).to_multiset() =~= Multiset::<ListingModel>::empty());
        assert(listing_models(out@).to_multiset() =~= all);
    }
    out
}

} // verus!
