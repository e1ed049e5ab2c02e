//! The msgpack-rpc layer: frame shapes over [`Value`], and the
//! correlation state that pairs each response with the call that issued
//! its msgid.
//!
//! A request is `[0, msgid, method, params]`, a response is
//! `[1, msgid, error, result]`, and a notification is
//! `[2, method, params]`, exactly as an unmodified peer frames them.

use vstd::prelude::*;

use crate::codec::{enc, lemma_round_trip, parse, Parsed};
use crate::value::{vm, vm_items, Value, ValueModel};

verus! {

broadcast use vstd::std_specs::vec::axiom_vec_index_decreases, vstd::seq::axiom_seq_index_decreases;

/// One msgpack-rpc message.
pub enum RpcMessage {
    Request { msgid: u32, method: Vec<u8>, params: Vec<Value> },
    Response { msgid: u32, error: Value, result: Value },
    Notification { method: Vec<u8>, params: Vec<Value> },
}

/// The mathematical model of an [`RpcMessage`].
pub enum RpcMessageModel {
    Request { msgid: int, method: Seq<u8>, params: Seq<ValueModel> },
    Response { msgid: int, error: ValueModel, result: ValueModel },
    Notification { method: Seq<u8>, params: Seq<ValueModel> },
}

/// The model of an [`RpcMessage`].
pub open spec fn mm(m: RpcMessage) -> RpcMessageModel {
    match m {
        RpcMessage::Request { msgid, method, params } => RpcMessageModel::Request {
            msgid: msgid as int,
            method: method@,
            params: vm_items(params, params.len() as int),
        },
        RpcMessage::Response { msgid, error, result } => RpcMessageModel::Response {
            msgid: msgid as int,
            error: vm(error),
            result: vm(result),
        },
        RpcMessage::Notification { method, params } => RpcMessageModel::Notification {
            method: method@,
            params: vm_items(params, params.len() as int),
        },
    }
}

/// The msgpack value that frames a message on the wire.
pub open spec fn frame_model(m: RpcMessageModel) -> ValueModel {
    match m {
        RpcMessageModel::Request { msgid, method, params } => ValueModel::Array(
            seq![
                ValueModel::UInt(0),
                ValueModel::UInt(msgid),
                ValueModel::Str(method),
                ValueModel::Array(params),
            ],
        ),
        RpcMessageModel::Response { msgid, error, result } => ValueModel::Array(
            seq![ValueModel::UInt(1), ValueModel::UInt(msgid), error, result],
        ),
        RpcMessageModel::Notification { method, params } => ValueModel::Array(
            seq![
                ValueModel::UInt(2),
                ValueModel::Str(method),
                ValueModel::Array(params),
            ],
        ),
    }
}

/// Reads a frame value back as a message, if it has one of the three
/// frame shapes.
pub open spec fn classify_model(v: ValueModel) -> Option<RpcMessageModel> {
    match v {
        ValueModel::Array(items) => if items.len() == 4 && items[0] == ValueModel::UInt(0) {
            match (items[1], items[2], items[3]) {
                (ValueModel::UInt(msgid), ValueModel::Str(method), ValueModel::Array(params)) =>
                    if 0 <= msgid <= u32::MAX {
                        Some(RpcMessageModel::Request { msgid, method, params })
                    } else {
                        None
                    },
                _ => None,
            }
        } else if items.len() == 4 && items[0] == ValueModel::UInt(1) {
            match items[1] {
                ValueModel::UInt(msgid) => if 0 <= msgid <= u32::MAX {
                    Some(RpcMessageModel::Response { msgid, error: items[2], result: items[3] })
                } else {
                    None
                },
                _ => None,
            }
        } else if items.len() == 3 && items[0] == ValueModel::UInt(2) {
            match (items[1], items[2]) {
                (ValueModel::Str(method), ValueModel::Array(params)) => Some(
                    RpcMessageModel::Notification { method, params },
                ),
                _ => None,
            }
        } else {
            None
        },
        _ => None,
    }
}

/// The message model is within the wire format's size limits.
pub open spec fn mm_wf(m: RpcMessageModel) -> bool {
    frame_model(m).wf()
}

/// A frame value reads back as the message it frames.
pub proof fn lemma_classify_frame(m: RpcMessageModel)
    requires
        (m matches RpcMessageModel::Request { msgid, .. } ==> 0 <= msgid <= u32::MAX),
        (m matches RpcMessageModel::Response { msgid, .. } ==> 0 <= msgid <= u32::MAX),
    ensures
        classify_model(frame_model(m)) == Some(m),
{
}

/// Builds the wire value that frames `msg`.
pub fn frame_message(msg: RpcMessage) -> (v: Value)
    ensures
        vm(v) == frame_model(mm(msg)),
{
    match msg {
        RpcMessage::Request { msgid, method, params } => {
            let ghost method_snap = method;
            let ghost params_snap = params;
            let mut items: Vec<Value> = Vec::new();
            items.push(Value::UInt(0));
            items.push(Value::UInt(msgid as u64));
            items.push(Value::Str(method));
            items.push(Value::Array(params));
            let v = Value::Array(items);
            proof {
                lemma_vm_items_concrete(v);
                assert(vm_items(items, 4) =~= seq![
                    ValueModel::UInt(0),
                    ValueModel::UInt(msgid as int),
                    ValueModel::Str(method_snap@),
                    ValueModel::Array(vm_items(params_snap, params_snap.len() as int)),
                ]);
            }
            v
        },
        RpcMessage::Response { msgid, error, result } => {
            let ghost error_snap = error;
            let ghost result_snap = result;
            let mut items: Vec<Value> = Vec::new();
            items.push(Value::UInt(1));
            items.push(Value::UInt(msgid as u64));
            items.push(error);
            items.push(result);
            let v = Value::Array(items);
            proof {
                lemma_vm_items_concrete(v);
                assert(vm_items(items, 4) =~= seq![
                    ValueModel::UInt(1),
                    ValueModel::UInt(msgid as int),
                    vm(error_snap),
                    vm(result_snap),
                ]);
            }
            v
        },
        RpcMessage::Notification { method, params } => {
            let ghost method_snap = method;
            let ghost params_snap = params;
            let mut items: Vec<Value> = Vec::new();
            items.push(Value::UInt(2));
            items.push(Value::Str(method));
            items.push(Value::Array(params));
            let v = Value::Array(items);
            proof {
                lemma_vm_items_concrete(v);
                assert(vm_items(items, 3) =~= seq![
                    ValueModel::UInt(2),
                    ValueModel::Str(method_snap@),
                    ValueModel::Array(vm_items(params_snap, params_snap.len() as int)),
                ]);
            }
            v
        },
    }
}


/// Reads a decoded frame value back as a message, exactly when it has
/// one of the three frame shapes.
pub fn classify_message(v: Value) -> (r: Option<RpcMessage>)
    ensures
        (r matches Some(m) ==> classify_model(vm(v)) == Some(mm(m))),
        (r is None ==> classify_model(vm(v)) is None),
{
    let mut items = match v {
        Value::Array(items) => items,
        _ => {
            return None;
        },
    };
    proof {
        crate::value::lemma_vm_items(items, items.len() as int);
    }
    if items.len() == 4 {
        let tag = match &items[0] {
            Value::UInt(t) => *t,
            _ => {
                return None;
            },
        };
        if tag == 0 {
            let fourth = items.remove(3);
            let third = items.remove(2);
            let second = items.remove(1);
            let msgid = match &second {
                Value::UInt(m) => {
                    if *m > u32::MAX as u64 {
                        return None;
                    }
                    *m as u32
                },
                _ => {
                    return None;
                },
            };
            let method = match third {
                Value::Str(method) => method,
                _ => {
                    return None;
                },
            };
            let params = match fourth {
                Value::Array(params) => params,
                _ => {
                    return None;
                },
            };
            proof {
                crate::value::lemma_vm_items(params, params.len() as int);
            }
            Some(RpcMessage::Request { msgid, method, params })
        } else if tag == 1 {
            let result = items.remove(3);
            let error = items.remove(2);
            let second = items.remove(1);
            let msgid = match &second {
                Value::UInt(m) => {
                    if *m > u32::MAX as u64 {
                        return None;
                    }
                    *m as u32
                },
                _ => {
                    return None;
                },
            };
            Some(RpcMessage::Response { msgid, error, result })
        } else {
            None
        }
    } else if items.len() == 3 {
        let tag = match &items[0] {
            Value::UInt(t) => *t,
            _ => {
                return None;
            },
        };
        if tag != 2 {
            return None;
        }
        let third = items.remove(2);
        let second = items.remove(1);
        let method = match second {
            Value::Str(method) => method,
            _ => {
                return None;
            },
        };
        let params = match third {
            Value::Array(params) => params,
            _ => {
                return None;
            },
        };
        proof {
            crate::value::lemma_vm_items(params, params.len() as int);
        }
        Some(RpcMessage::Notification { method, params })
    } else {
        None
    }
}

/// The element models of a small array value, element by element.
proof fn lemma_vm_items_concrete(v: Value)
    requires
        v matches Value::Array(items),
    ensures
        v matches Value::Array(items) ==> {
            let models = vm_items(items, items.len() as int);
            &&& models.len() == items.len()
            &&& forall|i: int| 0 <= i < items.len() ==> #[trigger] models[i] == vm(items[i])
        },
{
    if let Value::Array(items) = v {
        crate::value::lemma_vm_items(items, items.len() as int);
    }
}


/// The action that the reader's dispatch step asks its caller to take.
pub enum RpcAction {
    /// Hand this response to the caller that issued `msgid`.
    Deliver { msgid: u32, error: Value, result: Value },
    /// A response for an unknown or already-resolved msgid: log and drop it.
    DiscardUnknown { msgid: u32 },
    /// Forward this notification to the subscriber of its method.
    Notify { method: Vec<u8>, params: Vec<Value> },
    /// A notification nobody subscribed to: drop it.
    DropNotification { method: Vec<u8> },
    /// An inbound request frame, which this client does not serve: drop it.
    DiscardRequest { msgid: u32 },
}

/// The correlation state of one connection: which msgids are in flight,
/// what the next one is, which notification methods are subscribed, and
/// whether the connection has been torn down.
pub struct RpcState {
    pending: Vec<u32>,
    next_msgid: u32,
    closed: bool,
    subscriptions: Vec<Vec<u8>>,
}

/// Delivering a response for `msgid` against the pending set `p`: the
/// response reaches a caller exactly when `msgid` is pending, and then
/// exactly that entry leaves the set.
pub open spec fn deliver(p: Set<int>, msgid: int) -> (Set<int>, Option<int>) {
    if p.contains(msgid) {
        (p.remove(msgid), Some(msgid))
    } else {
        (p, None)
    }
}

impl RpcState {
    /// The msgids of calls issued and not yet answered.
    pub closed spec fn pending_set(self) -> Set<int> {
        Set::new(|m: int| 0 <= m <= u32::MAX && self.pending@.contains(m as u32))
    }

    /// The pending msgids in issue order.
    pub closed spec fn pending_seq(self) -> Seq<u32> {
        self.pending@
    }

    /// The subscribed methods in subscription order.
    pub closed spec fn subscriptions_seq(self) -> Seq<Vec<u8>> {
        self.subscriptions@
    }

    /// `m` is a pending msgid.
    pub open spec fn has_pending(self, m: int) -> bool {
        self.pending_set().contains(m)
    }

    /// The connection has been torn down.
    pub closed spec fn is_closed(self) -> bool {
        self.closed
    }

    /// The next msgid to allocate.
    pub closed spec fn next(self) -> int {
        self.next_msgid as int
    }

    /// `method` has a notification subscriber.
    pub closed spec fn subscribed(self, method: Seq<u8>) -> bool {
        exists|i: int| 0 <= i < self.subscriptions@.len()
            && (#[trigger] self.subscriptions@[i])@ == method
    }

    /// Each pending msgid occurs once and was allocated before `next`.
    pub closed spec fn wf(self) -> bool {
        self.pending@.no_duplicates() && (forall|i: int|
            0 <= i < self.pending@.len() ==> (#[trigger] self.pending@[i]) < self.next_msgid)
    }

    /// A fresh correlation state: nothing pending, nothing subscribed.
    pub fn new() -> (s: Self)
        ensures
            s.wf(),
            !s.is_closed(),
            s.pending_set() == Set::<int>::empty(),
            s.next() == 0,
            forall|m: Seq<u8>| !s.subscribed(m),
    {
        let s = RpcState { pending: Vec::new(), next_msgid: 0, closed: false, subscriptions: Vec::new() };
        proof {
            assert(s.pending_set() =~= Set::<int>::empty());
        }
        s
    }

    /// Allocates the next msgid and records it as pending.  Fails with
    /// `ConnectionClosed` after teardown, and with `Protocol` if the
    /// 32-bit msgid space is exhausted.
    pub fn begin_call(&mut self) -> (r: Result<u32, crate::error::NeovimError>)
        requires
            old(self).wf(),
        ensures
            final(self).wf(),
            old(self).is_closed() ==> (r matches Err(
                crate::error::NeovimError::ConnectionClosed,
            )) && *final(self) == *old(self),
            !old(self).is_closed() && old(self).next() == u32::MAX ==> (r matches Err(
                crate::error::NeovimError::Protocol(_),
            )) && *final(self) == *old(self),
            !old(self).is_closed() && old(self).next() < u32::MAX ==> {
                &&& r matches Ok(id)
                &&& r matches Ok(id) ==> id as int == old(self).next()
                    && !old(self).has_pending(id as int)
                    && final(self).pending_set() == old(self).pending_set().insert(id as int)
                    && final(self).next() == old(self).next() + 1
            },
            final(self).is_closed() == old(self).is_closed(),
            final(self).subscriptions_seq() == old(self).subscriptions_seq(),
    {
        if self.closed {
            Err(crate::error::NeovimError::ConnectionClosed)
        } else if self.next_msgid == u32::MAX {
            Err(crate::error::NeovimError::Protocol(msgid_space_exhausted_note()))
        } else {
            let id = self.next_msgid;
            proof {
                assert(!self.pending@.contains(id));
                assert(!self.pending_set().contains(id as int));
            }
            self.pending.push(id);
            self.next_msgid = self.next_msgid + 1;
            proof {
                lemma_push_contains(old(self).pending@, id);
                assert(self.pending_set() =~= old(self).pending_set().insert(id as int));
            }
            Ok(id)
        }
    }

    /// One dispatch step of the reader: routes a decoded message.
    /// A response is delivered to the pending msgid it names, if and only
    /// if that msgid is pending (`deliver`); notifications go to their
    /// subscriber; anything else is dropped without changing the state.
    pub fn on_message(&mut self, msg: RpcMessage) -> (act: RpcAction)
        requires
            old(self).wf(),
        ensures
            final(self).wf(),
            final(self).is_closed() == old(self).is_closed(),
            final(self).next() == old(self).next(),
            final(self).subscriptions_seq() == old(self).subscriptions_seq(),
            mm(msg) matches RpcMessageModel::Response { msgid, error, result } ==> {
                let (p2, target) = deliver(old(self).pending_set(), msgid);
                &&& final(self).pending_set() == p2
                &&& (target matches Some(t) ==> (act matches RpcAction::Deliver {
                    msgid: am, error: ae, result: ar,
                } && am as int == t && vm(ae) == error && vm(ar) == result))
                &&& (target is None ==> (act matches RpcAction::DiscardUnknown {
                    msgid: am,
                } && am as int == msgid))
            },
            mm(msg) matches RpcMessageModel::Notification { method, params } ==> {
                &&& final(self).pending_set() == old(self).pending_set()
                &&& (old(self).subscribed(method) ==> (act matches RpcAction::Notify {
                    method: m2, params: p2,
                } && m2@ == method && vm_items(p2, p2.len() as int) == params))
                &&& (!old(self).subscribed(method) ==> (act matches RpcAction::DropNotification {
                    method: m2,
                } && m2@ == method))
            },
            mm(msg) matches RpcMessageModel::Request { msgid, .. } ==> {
                &&& final(self).pending_set() == old(self).pending_set()
                &&& (act matches RpcAction::DiscardRequest { msgid: am } && am as int == msgid)
            },
    {
        match msg {
            RpcMessage::Response { msgid, error, result } => {
                let mut idx: usize = 0;
                let mut found: bool = false;
                let n = self.pending.len();
                while idx < n && !found
                    invariant
                        n == self.pending.len(),
                        idx <= n,
                        !found ==> forall|j: int| 0 <= j < idx
                            ==> #[trigger] self.pending@[j] != msgid,
                        found ==> idx < n && self.pending@[idx as int] == msgid,
                    decreases n - idx + (if found { 0int } else { 1int }),
                {
                    if self.pending[idx] == msgid {
                        found = true;
                    } else {
                        idx = idx + 1;
                    }
                }
                if found {
                    proof {
                        self.pending@.remove_ensures(idx as int);
                    }
                    let ghost before = self.pending@;
                    self.pending.remove(idx);
                    proof {
                        lemma_remove_pending(before, idx as int, msgid, self.pending@);
                        assert(self.pending_set()
                            =~= old(self).pending_set().remove(msgid as int));
                    }
                    RpcAction::Deliver { msgid, error, result }
                } else {
                    proof {
                        assert(!self.pending@.contains(msgid)) by {
                            if self.pending@.contains(msgid) {
                                let i = choose|i: int| 0 <= i < self.pending@.len()
                                    && self.pending@[i] == msgid;
                                assert(false);
                            }
                        }
                        assert(!self.pending_set().contains(msgid as int));
                    }
                    RpcAction::DiscardUnknown { msgid }
                }
            },
            RpcMessage::Notification { method, params } => {
                let ghost method_snap = method;
                let subscribed = self.is_subscribed(&method);
                if subscribed {
                    RpcAction::Notify { method, params }
                } else {
                    RpcAction::DropNotification { method }
                }
            },
            RpcMessage::Request { msgid, method, params } => {
                RpcAction::DiscardRequest { msgid }
            },
        }
    }

    /// Whether a notification method has a subscriber.
    pub fn is_subscribed(&self, method: &Vec<u8>) -> (r: bool)
        ensures
            r == self.subscribed(method@),
    {
        let n = self.subscriptions.len();
        let mut i: usize = 0;
        while i < n
            invariant
                n == self.subscriptions.len(),
                i <= n,
                forall|j: int| 0 <= j < i ==> (#[trigger] self.subscriptions@[j])@ != method@,
            decreases n - i,
        {
            if eq_bytes(&self.subscriptions[i], method) {
                return true;
            }
            i = i + 1;
        }
        false
    }

    /// Subscribes `method` for notification forwarding.
    pub fn subscribe(&mut self, method: Vec<u8>)
        requires
            old(self).wf(),
        ensures
            final(self).wf(),
            final(self).is_closed() == old(self).is_closed(),
            final(self).next() == old(self).next(),
            final(self).pending_set() == old(self).pending_set(),
            final(self).subscriptions_seq() == old(self).subscriptions_seq().push(method),
            forall|m: Seq<u8>| final(self).subscribed(m)
                == (old(self).subscribed(m) || m == method@),
    {
        let ghost method_snap = method;
        self.subscriptions.push(method);
        proof {
            assert(final(self).pending_set() =~= old(self).pending_set());
            assert forall|m: Seq<u8>| final(self).subscribed(m)
                == (old(self).subscribed(m) || m == method_snap@) by {
                let subs0 = old(self).subscriptions@;
                let subs1 = self.subscriptions@;
                assert(subs1.len() == subs0.len() + 1);
                assert(subs1[subs0.len() as int] == method_snap);
                assert(forall|j: int| 0 <= j < subs0.len()
                    ==> #[trigger] subs1[j] == subs0[j]);
                if old(self).subscribed(m) {
                    let i = choose|i: int| 0 <= i < subs0.len()
                        && (#[trigger] subs0[i])@ == m;
                    assert(subs1[i]@ == m);
                }
                if m == method_snap@ {
                    assert(subs1[subs0.len() as int]@ == m);
                }
                if final(self).subscribed(m) {
                    let i = choose|i: int| 0 <= i < subs1.len()
                        && (#[trigger] subs1[i])@ == m;
                    if i < subs0.len() {
                        assert(subs0[i]@ == m);
                    }
                }
            }
        }
    }

    /// Tears the connection down: every still-pending msgid is returned so
    /// that its caller can be failed with `ConnectionClosed`, and no call
    /// can be issued afterwards.
    pub fn close(&mut self) -> (ids: Vec<u32>)
        requires
            old(self).wf(),
        ensures
            final(self).wf(),
            final(self).is_closed(),
            final(self).pending_set() == Set::<int>::empty(),
            final(self).subscriptions_seq() == old(self).subscriptions_seq(),
            ids@ == old(self).pending_seq(),
            forall|m: int| old(self).has_pending(m) ==> ids@.contains(m as u32),
    {
        self.closed = true;
        let mut ids: Vec<u32> = Vec::new();
        core::mem::swap(&mut ids, &mut self.pending);
        proof {
            assert(final(self).pending_set() =~= Set::<int>::empty());
        }
        ids
    }
}

/// A note for the error raised when the msgid space is spent.
fn msgid_space_exhausted_note() -> (s: String)
    ensures
        s@.len() > 0,
{
    let s = String::from_str("msgid space exhausted");
    proof {
        reveal_strlit("msgid space exhausted");
    }
    s
}

/// Byte-vector equality.
pub fn eq_bytes(a: &Vec<u8>, b: &Vec<u8>) -> (r: bool)
    ensures
        r == (a@ == b@),
{
    if a.len() != b.len() {
        proof {
            assert(a@.len() != b@.len());
        }
        return false;
    }
    let n = a.len();
    let mut i: usize = 0;
    while i < n
        invariant
            n == a.len(),
            n == b.len(),
            i <= n,
            forall|j: int| 0 <= j < i ==> a@[j] == b@[j],
        decreases n - i,
    {
        if a[i] != b[i] {
            return false;
        }
        i = i + 1;
    }
    proof {
        assert(a@ =~= b@);
    }
    true
}

/// Removing the found index removes exactly that msgid from a
/// duplicate-free pending list.
proof fn lemma_remove_pending(before: Seq<u32>, idx: int, msgid: u32, after: Seq<u32>)
    requires
        before.no_duplicates(),
        0 <= idx < before.len(),
        before[idx] == msgid,
        after == before.remove(idx),
    ensures
        !after.contains(msgid),
        forall|m: u32| m != msgid ==> after.contains(m) == before.contains(m),
        after.no_duplicates(),
{
    before.remove_ensures(idx);
    assert forall|m: u32| m != msgid implies after.contains(m) == before.contains(m) by {
        if before.contains(m) {
            let i = choose|i: int| 0 <= i < before.len() && before[i] == m;
            if i < idx {
                assert(after[i] == m);
            } else {
                assert(i > idx);
                assert(after[i - 1] == m);
            }
        }
        if after.contains(m) {
            let i = choose|i: int| 0 <= i < after.len() && after[i] == m;
            if i < idx {
                assert(before[i] == m);
            } else {
                assert(before[i + 1] == m);
            }
        }
    }
    if after.contains(msgid) {
        let i = choose|i: int| 0 <= i < after.len() && after[i] == msgid;
        if i < idx {
            assert(before[i] == msgid);
            assert(false);
        } else {
            assert(before[i + 1] == msgid);
            assert(false);
        }
    }
    assert forall|i: int, j: int| 0 <= i < j < after.len() implies after[i] != after[j] by {
        let bi: int = if i < idx { i } else { i + 1 };
        let bj: int = if j < idx { j } else { j + 1 };
        assert(after[i] == before[bi]);
        assert(after[j] == before[bj]);
    }
}

/// Membership in a sequence after a push.
proof fn lemma_push_contains(s: Seq<u32>, x: u32)
    ensures
        forall|y: u32| s.push(x).contains(y) == (s.contains(y) || y == x),
{
    assert forall|y: u32| s.push(x).contains(y) == (s.contains(y) || y == x) by {
        if s.push(x).contains(y) {
            let i = choose|i: int| 0 <= i < s.push(x).len() && s.push(x)[i] == y;
            if i < s.len() {
                assert(s[i] == y);
            }
        }
        if s.contains(y) {
            let i = choose|i: int| 0 <= i < s.len() && s[i] == y;
            assert(s.push(x)[i] == y);
        }
        if y == x {
            assert(s.push(x)[s.len() as int] == y);
        }
    }
}

/// Two states with the same subscription list subscribe the same methods.
pub proof fn lemma_subscribed_same(s1: RpcState, s2: RpcState)
    requires
        s1.subscriptions_seq() == s2.subscriptions_seq(),
    ensures
        forall|m: Seq<u8>| s1.subscribed(m) == s2.subscribed(m),
{
    assert forall|m: Seq<u8>| s1.subscribed(m) == s2.subscribed(m) by {
        if s1.subscribed(m) {
            let i = choose|i: int| 0 <= i < s1.subscriptions@.len()
                && (#[trigger] s1.subscriptions@[i])@ == m;
            assert((s2.subscriptions@[i])@ == m);
        }
        if s2.subscribed(m) {
            let i = choose|i: int| 0 <= i < s2.subscriptions@.len()
                && (#[trigger] s2.subscriptions@[i])@ == m;
            assert((s1.subscriptions@[i])@ == m);
        }
    }
}


/// The wire round trip: framing a message, encoding the frame, decoding
/// the bytes and reading the frame back yields the identical message —
/// for a request, the identical (method, params) pair.
pub proof fn lemma_message_round_trip(m: RpcMessageModel)
    requires
        mm_wf(m),
        (m matches RpcMessageModel::Request { msgid, .. } ==> 0 <= msgid <= u32::MAX),
        (m matches RpcMessageModel::Response { msgid, .. } ==> 0 <= msgid <= u32::MAX),
    ensures
        parse(enc(frame_model(m))) == Parsed::Found(
            frame_model(m),
            enc(frame_model(m)).len() as int,
        ),
        classify_model(frame_model(m)) == Some(m),
{
    lemma_round_trip(frame_model(m));
    lemma_classify_frame(m);
}

/// Correlation is insensitive to arrival order: a response reaches the
/// caller whose msgid it names, whether or not another response arrived
/// first, and the pending set afterwards is the same either way.
pub proof fn lemma_correlation_order_independent(p: Set<int>, r1: int, r2: int)
    requires
        r1 != r2,
    ensures
        deliver(p, r1).1 == (if p.contains(r1) { Some(r1) } else { None::<int> }),
        deliver(deliver(p, r1).0, r2).1 == deliver(p, r2).1,
        deliver(deliver(p, r1).0, r2).0 == deliver(deliver(p, r2).0, r1).0,
{
    if p.contains(r1) && p.contains(r2) {
        assert(p.remove(r1).contains(r2));
        assert(p.remove(r1).remove(r2) =~= p.remove(r2).remove(r1));
    } else if p.contains(r1) {
        assert(!p.remove(r1).contains(r2));
        assert(p.remove(r1) =~= deliver(deliver(p, r2).0, r1).0);
    } else if p.contains(r2) {
        assert(p.remove(r2) =~= deliver(deliver(p, r1).0, r2).0);
    }
}

} // verus!

