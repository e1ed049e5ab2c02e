//! The connection registry: a map from short connection ids to editor
//! clients, with deterministic id derivation from the target string.
//!
//! An id is `c_` followed by a prefix of the FNV-1a hash of the target,
//! extended digit by digit on collision with a different target; a
//! collision with the same target is reported so the caller can reject
//! the connect as `AlreadyConnected`.

use vstd::prelude::*;

use crate::client::NeovimClient;
use crate::error::NeovimError;

verus! {

broadcast use vstd::std_specs::vec::axiom_vec_index_decreases, vstd::seq::axiom_seq_index_decreases;

/// One registered connection.
pub struct ConnEntry {
    pub id: String,
    pub client: NeovimClient,
}

/// The FNV-1a step: fold one byte into the hash.
pub open spec fn fnv_step(h: u64, b: u8) -> u64 {
    (h ^ b as u64).wrapping_mul(0x100000001b3)
}

/// The FNV-1a hash of the first `n` bytes.
pub open spec fn fnv_hash(bytes: Seq<u8>, n: int) -> u64
    decreases n,
{
    if n <= 0 || n > bytes.len() {
        0xcbf29ce484222325u64
    } else {
        fnv_step(fnv_hash(bytes, n - 1), bytes[n - 1])
    }
}

/// The lowercase hex digit with value `d`.
pub open spec fn hex_char(d: int) -> char {
    if d == 0 { '0' } else if d == 1 { '1' } else if d == 2 { '2' } else if d == 3 { '3' }
    else if d == 4 { '4' } else if d == 5 { '5' } else if d == 6 { '6' } else if d == 7 { '7' }
    else if d == 8 { '8' } else if d == 9 { '9' } else if d == 10 { 'a' } else if d == 11 { 'b' }
    else if d == 12 { 'c' } else if d == 13 { 'd' } else if d == 14 { 'e' } else { 'f' }
}

/// The first `len` hex digits of `h`, most significant first.
pub open spec fn hex_prefix(h: u64, len: int) -> Seq<char>
    decreases len,
{
    if len <= 0 || len > 16 {
        Seq::empty()
    } else {
        hex_prefix(h, len - 1).push(hex_char(((h >> (((16 - len) * 4) as u64)) & 0xf) as int))
    }
}

/// The candidate connection id for `target` with `len` hash digits.
pub open spec fn candidate_id(target: Seq<char>, len: int) -> Seq<char> {
    seq!['c', '_'] + hex_prefix(fnv_hash_of(target), len)
}

/// The UTF-8 bytes of a target string.
pub open spec fn target_bytes(target: Seq<char>) -> Seq<u8> {
    vstd::utf8::encode_utf8(target)
}

/// The FNV-1a hash of a target string.
pub open spec fn fnv_hash_of(target: Seq<char>) -> u64 {
    fnv_hash(target_bytes(target), target_bytes(target).len() as int)
}


/// How deriving an id for `target` against these entries ends.
pub enum GenOutcome {
    /// A candidate id no live entry uses.
    Fresh(Seq<char>),
    /// The candidate collides with an entry for the same target: the
    /// caller must reject the connect as `AlreadyConnected`.
    SameTarget,
    /// Every candidate length collides with a different target.
    Exhausted,
}

/// The documented search: starting at `len` hash digits, take the first
/// candidate that is free; on a collision with the same target stop; on a
/// collision with a different target add a digit, up to the full hash.
pub open spec fn gen_search(entries: Seq<ConnEntry>, target: Seq<char>, len: int) -> GenOutcome
    decreases 17 - len,
{
    if len > 16 {
        GenOutcome::Exhausted
    } else {
        let id = candidate_id(target, len);
        match reg_index(entries, id) {
            None => GenOutcome::Fresh(id),
            Some(i) => if entries[i].client.target_view() == Some(target) {
                GenOutcome::SameTarget
            } else {
                gen_search(entries, target, len + 1)
            },
        }
    }
}

/// The one-character string of the hex digit with value `d`.
fn hex_digit_str(d: u64) -> (r: &'static str)
    requires
        d < 16,
    ensures
        r@ == seq![hex_char(d as int)],
{
    proof {
        reveal_strlit("0");
        reveal_strlit("1");
        reveal_strlit("2");
        reveal_strlit("3");
        reveal_strlit("4");
        reveal_strlit("5");
        reveal_strlit("6");
        reveal_strlit("7");
        reveal_strlit("8");
        reveal_strlit("9");
        reveal_strlit("a");
        reveal_strlit("b");
        reveal_strlit("c");
        reveal_strlit("d");
        reveal_strlit("e");
        reveal_strlit("f");
    }
    let r = match d {
        0 => "0",
        1 => "1",
        2 => "2",
        3 => "3",
        4 => "4",
        5 => "5",
        6 => "6",
        7 => "7",
        8 => "8",
        9 => "9",
        10 => "a",
        11 => "b",
        12 => "c",
        13 => "d",
        14 => "e",
        _ => "f",
    };
    proof {
        assert(r@ =~= seq![hex_char(d as int)]);
    }
    r
}

/// The FNV-1a hash of `bytes`.
pub fn fnv64(bytes: &Vec<u8>) -> (h: u64)
    ensures
        h == fnv_hash(bytes@, bytes@.len() as int),
{
    let n = bytes.len();
    let mut h: u64 = 0xcbf29ce484222325;
    let mut i: usize = 0;
    while i < n
        invariant
            n == bytes.len(),
            i <= n,
            h == fnv_hash(bytes@, i as int),
        decreases n - i,
    {
        let x = h ^ (bytes[i] as u64);
        let h2 = x.wrapping_mul(0x100000001b3);
        proof {
            assert(h2 == fnv_step(h, bytes@[i as int]));
        }
        h = h2;
        i = i + 1;
    }
    h
}

/// Builds `c_` followed by the first `len` hex digits of `h`.
fn build_candidate(h: u64, len: usize) -> (r: String)
    requires
        len <= 16,
    ensures
        r@ == seq!['c', '_'] + hex_prefix(h, len as int),
{
    proof {
        reveal_strlit("c_");
    }
    let mut s = String::from_str("c_");
    proof {
        assert(s@ =~= seq!['c', '_'] + hex_prefix(h, 0));
    }
    let mut k: usize = 0;
    while k < len
        invariant
            len <= 16,
            k <= len,
            s@ == seq!['c', '_'] + hex_prefix(h, k as int),
        decreases len - k,
    {
        let shift: u64 = ((15 - k) * 4) as u64;
        let d = (h >> shift) & 0xf;
        proof {
            assert((h >> shift) & 0xf < 16) by (bit_vector);
        }
        s.append(hex_digit_str(d));
        proof {
            assert(s@ =~= seq!['c', '_'] + hex_prefix(h, k + 1));
        }
        k = k + 1;
    }
    s
}

impl ConnectionRegistry {
    /// Derives a short, stable connection id from the target string: the
    /// hash prefix is extended while it collides with a different target;
    /// a collision with this same target means the target is already
    /// connected, and the full hash colliding throughout is reported as a
    /// protocol-level failure.
    pub fn generate_shorter_connection_id(&self, target: &str) -> (r: Result<
        String,
        NeovimError,
    >)
        ensures
            (r matches Ok(id) ==> gen_search(self.entries_view(), target@, 6)
                == GenOutcome::Fresh(id@) && !self.contains_id(id@)),
            (r matches Err(NeovimError::AlreadyConnected) <==> gen_search(
                self.entries_view(),
                target@,
                6,
            ) is SameTarget),
            (r matches Err(NeovimError::Protocol(_)) <==> gen_search(
                self.entries_view(),
                target@,
                6,
            ) is Exhausted),
            r is Err ==> (r matches Err(NeovimError::AlreadyConnected)) || (r matches Err(
                NeovimError::Protocol(_),
            )),
    {
        let bytes = target.as_bytes_vec();
        let h = fnv64(&bytes);
        proof {
            assert(h == fnv_hash_of(target@));
        }
        let mut len: usize = 6;
        while len <= 16
            invariant
                6 <= len <= 17,
                h == fnv_hash_of(target@),
                gen_search(self.entries_view(), target@, 6) == gen_search(
                    self.entries_view(),
                    target@,
                    len as int,
                ),
            decreases 17 - len,
        {
            let id = build_candidate(h, len);
            proof {
                assert(id@ == candidate_id(target@, len as int));
            }
            match self.find_index(&id) {
                None => {
                    return Ok(id);
                },
                Some(i) => {
                    let same = match self.entries[i].client.target() {
                        Some(t) => {
                            let owned: String = target.to_owned();
                            t.eq(&owned)
                        },
                        None => false,
                    };
                    if same {
                        return Err(NeovimError::AlreadyConnected);
                    }
                },
            }
            len = len + 1;
        }
        proof {
            reveal_strlit("no free connection id for target");
        }
        Err(NeovimError::Protocol(String::from_str("no free connection id for target")))
    }
}

/// The registry of live connections.
///
/// Unlike the tool store, whose rows are immutable records behind a
/// concurrent map, the registry's values are clients whose state — the
/// pending msgids, the diagnostics cache — the proofs must see change.
/// An opaque map cannot hand out verified mutable access to a value it
/// holds, so the registry is a verified structure of its own.
pub struct ConnectionRegistry {
    entries: Vec<ConnEntry>,
}

/// The index of the entry with this id, if any.
pub open spec fn reg_index(entries: Seq<ConnEntry>, id: Seq<char>) -> Option<int>
    decreases entries.len(),
{
    if entries.len() == 0 {
        None
    } else if entries[0].id@ == id {
        Some(0)
    } else {
        match reg_index(entries.drop_first(), id) {
            Some(i) => Some(i + 1),
            None => None,
        }
    }
}

impl ConnectionRegistry {
    /// The registered entries, in insertion order.
    pub closed spec fn entries_view(self) -> Seq<ConnEntry> {
        self.entries@
    }

    /// An entry with this id is registered.
    pub open spec fn contains_id(self, id: Seq<char>) -> bool {
        reg_index(self.entries_view(), id) is Some
    }

    /// The client registered under this id, if any.
    pub open spec fn client_of(self, id: Seq<char>) -> Option<NeovimClient> {
        match reg_index(self.entries_view(), id) {
            Some(i) => Some(self.entries_view()[i].client),
            None => None,
        }
    }

    /// At most one live entry per id.
    pub closed spec fn wf(self) -> bool {
        forall|i: int, j: int| 0 <= i < j < self.entries@.len()
            ==> (#[trigger] self.entries@[i]).id@ != (#[trigger] self.entries@[j]).id@
    }

    /// An empty registry.
    pub fn new() -> (r: Self)
        ensures
            r.wf(),
            r.entries_view() == Seq::<ConnEntry>::empty(),
    {
        ConnectionRegistry { entries: Vec::new() }
    }

    /// How many connections are registered.
    pub fn len(&self) -> (r: usize)
        ensures
            r == self.entries_view().len(),
    {
        self.entries.len()
    }

    /// The index of the entry registered under `id`, if any.
    pub fn find_index(&self, id: &String) -> (r: Option<usize>)
        ensures
            match r {
                Some(i) => reg_index(self.entries_view(), id@) == Some(i as int)
                    && i < self.entries_view().len()
                    && self.entries_view()[i as int].id@ == id@,
                None => !self.contains_id(id@),
            },
    {
        let n = self.entries.len();
        let mut i: usize = 0;
        while i < n
            invariant
                n == self.entries.len(),
                i <= n,
                forall|j: int| 0 <= j < i ==> (#[trigger] self.entries@[j]).id@ != id@,
            decreases n - i,
        {
            if self.entries[i].id.eq(id) {
                proof {
                    lemma_reg_index_at(self.entries@, i as int, id@);
                }
                return Some(i);
            }
            i = i + 1;
        }
        proof {
            lemma_reg_index_none(self.entries@, id@);
        }
        None
    }

    /// Registers `entry` unless its id is taken; says whether it was
    /// inserted.
    pub fn insert_if_absent(&mut self, entry: ConnEntry) -> (r: bool)
        requires
            old(self).wf(),
        ensures
            final(self).wf(),
            r == !old(self).contains_id(entry.id@),
            r ==> final(self).entries_view() == old(self).entries_view().push(entry),
            r ==> final(self).contains_id(entry.id@) && final(self).client_of(entry.id@)
                == Some(entry.client),
            r ==> forall|other: Seq<char>| #![trigger final(self).client_of(other)]
                other != entry.id@ ==> final(self).client_of(other)
                    == old(self).client_of(other),
            !r ==> *final(self) == *old(self),
    {
        let ghost entry_snap = entry;
        match self.find_index(&entry.id) {
            Some(_) => false,
            None => {
                proof {
                    lemma_reg_index_push(self.entries@, entry_snap);
                    lemma_reg_not_found(self.entries@, entry_snap.id@);
                }
                let ghost before = self.entries@;
                self.entries.push(entry);
                proof {
                    assert forall|other: Seq<char>| #![trigger self.client_of(other)]
                        other != entry_snap.id@ implies self.client_of(other)
                            == old(self).client_of(other) by {
                        assert(reg_index(before.push(entry_snap), other)
                            == reg_index(before, other));
                        lemma_reg_index_bounds(before, other);
                        lemma_reg_index_bounds(before.push(entry_snap), other);
                        if reg_index(before, other) is Some {
                            let k = reg_index(before, other)->Some_0;
                            assert(before.push(entry_snap)[k] == before[k]);
                        }
                    }
                    assert forall|a: int, b: int| 0 <= a < b < self.entries@.len()
                        implies (#[trigger] self.entries@[a]).id@
                            != (#[trigger] self.entries@[b]).id@ by {
                        if b < before.len() {
                            assert(self.entries@[a] == before[a]);
                            assert(self.entries@[b] == before[b]);
                        } else {
                            assert(self.entries@[a] == before[a]);
                            assert(self.entries@[b] == entry_snap);
                        }
                    }
                }
                true
            },
        }
    }

    /// Removes and returns the entry under `id`; fails with
    /// `ConnectionNotFound` exactly when no such entry exists.
    pub fn remove_and_take(&mut self, id: &String) -> (r: Result<ConnEntry, NeovimError>)
        requires
            old(self).wf(),
        ensures
            final(self).wf(),
            !old(self).contains_id(id@) ==> (r matches Err(NeovimError::ConnectionNotFound(_)))
                && *final(self) == *old(self),
            old(self).contains_id(id@) ==> (r matches Ok(entry) && {
                &&& entry.id@ == id@
                &&& Some(entry.client) == old(self).client_of(id@)
                &&& !final(self).contains_id(id@)
                &&& forall|other: Seq<char>| #![trigger final(self).client_of(other)]
                    other != id@ ==> final(self).client_of(other)
                        == old(self).client_of(other)
            }),
    {
        match self.find_index(id) {
            None => Err(NeovimError::ConnectionNotFound(id.clone())),
            Some(i) => {
                let ghost before = self.entries@;
                let entry = self.entries.remove(i);
                proof {
                    lemma_reg_remove(before, self.entries@, i as int, id@);
                }
                Ok(entry)
            },
        }
    }
}


impl ConnectionRegistry {
    /// A shared borrow of the entry at `i`.
    pub fn entry_at(&self, i: usize) -> (r: &ConnEntry)
        requires
            i < self.entries_view().len(),
        ensures
            *r == self.entries_view()[i as int],
    {
        &self.entries[i]
    }
}

/// Finding at the first matching index.
proof fn lemma_reg_index_at(entries: Seq<ConnEntry>, i: int, id: Seq<char>)
    requires
        0 <= i < entries.len(),
        entries[i].id@ == id,
        forall|j: int| 0 <= j < i ==> (#[trigger] entries[j]).id@ != id,
    ensures
        reg_index(entries, id) == Some(i),
    decreases i,
{
    if i > 0 {
        lemma_reg_index_at(entries.drop_first(), i - 1, id);
    }
}

/// No entry matches: no index.
proof fn lemma_reg_index_none(entries: Seq<ConnEntry>, id: Seq<char>)
    requires
        forall|j: int| 0 <= j < entries.len() ==> (#[trigger] entries[j]).id@ != id,
    ensures
        reg_index(entries, id) is None,
    decreases entries.len(),
{
    if entries.len() > 0 {
        lemma_reg_index_none(entries.drop_first(), id);
    }
}

/// Appending an entry leaves other lookups as they were and adds its own.
proof fn lemma_reg_index_push(entries: Seq<ConnEntry>, entry: ConnEntry)
    requires
        reg_index(entries, entry.id@) is None,
    ensures
        reg_index(entries.push(entry), entry.id@) == Some(entries.len() as int),
        forall|other: Seq<char>| other != entry.id@
            ==> #[trigger] reg_index(entries.push(entry), other) == reg_index(entries, other),
    decreases entries.len(),
{
    if entries.len() == 0 {
        assert(entries.push(entry)[0] == entry);
        assert(entries.push(entry).drop_first() =~= Seq::<ConnEntry>::empty());
        assert forall|other: Seq<char>| other != entry.id@
            implies #[trigger] reg_index(entries.push(entry), other)
                == reg_index(entries, other) by {
            assert(reg_index(entries.push(entry).drop_first(), other) is None);
        }
    } else {
        assert(entries.push(entry)[0] == entries[0]);
        assert(entries.push(entry).drop_first() =~= entries.drop_first().push(entry));
        lemma_reg_index_push(entries.drop_first(), entry);
        assert(reg_index(entries.push(entry), entry.id@)
            == Some(entries.len() as int));
        assert forall|other: Seq<char>| other != entry.id@
            implies #[trigger] reg_index(entries.push(entry), other)
                == reg_index(entries, other) by {
            assert(reg_index(entries.drop_first().push(entry), other)
                == reg_index(entries.drop_first(), other));
        }
    }
}

/// An id that is not found differs from every entry's id.
proof fn lemma_reg_not_found(entries: Seq<ConnEntry>, id: Seq<char>)
    requires
        reg_index(entries, id) is None,
    ensures
        forall|j: int| 0 <= j < entries.len() ==> (#[trigger] entries[j]).id@ != id,
    decreases entries.len(),
{
    if entries.len() > 0 {
        lemma_reg_not_found(entries.drop_first(), id);
        assert forall|j: int| 0 <= j < entries.len()
            implies (#[trigger] entries[j]).id@ != id by {
            if j > 0 {
                assert(entries.drop_first()[j - 1] == entries[j]);
            }
        }
    }
}

/// Removing the entry at the found index removes exactly that id.
proof fn lemma_reg_remove(before: Seq<ConnEntry>, after: Seq<ConnEntry>, i: int, id: Seq<char>)
    requires
        0 <= i < before.len(),
        reg_index(before, id) == Some(i),
        before[i].id@ == id,
        after == before.remove(i),
        forall|a: int, b: int| 0 <= a < b < before.len()
            ==> (#[trigger] before[a]).id@ != (#[trigger] before[b]).id@,
    ensures
        reg_index(after, id) is None,
        forall|other: Seq<char>| #![trigger reg_index(after, other)] other != id
            ==> (match reg_index(after, other) {
            Some(k) => 0 <= k < after.len() && (match reg_index(before, other) {
                Some(k0) => 0 <= k0 < before.len() && before[k0] == after[k],
                None => false,
            }),
            None => reg_index(before, other) is None,
        }),
        forall|a: int, b: int| 0 <= a < b < after.len()
            ==> (#[trigger] after[a]).id@ != (#[trigger] after[b]).id@,
    decreases before.len(),
{
    before.remove_ensures(i);
    assert forall|a: int, b: int| 0 <= a < b < after.len()
        implies (#[trigger] after[a]).id@ != (#[trigger] after[b]).id@ by {
        let a0: int = if a < i { a } else { a + 1 };
        let b0: int = if b < i { b } else { b + 1 };
        assert(after[a] == before[a0]);
        assert(after[b] == before[b0]);
    }
    assert forall|j: int| 0 <= j < after.len() implies (#[trigger] after[j]).id@ != id by {
        let j0: int = if j < i { j } else { j + 1 };
        assert(after[j] == before[j0]);
        if j0 < i {
            assert(before[j0].id@ != before[i].id@);
        } else {
            assert(before[i].id@ != before[j0].id@);
        }
    }
    lemma_reg_index_none(after, id);
    assert forall|other: Seq<char>| #![trigger reg_index(after, other)] other != id
        implies (match reg_index(after, other) {
        Some(k) => 0 <= k < after.len() && (match reg_index(before, other) {
            Some(k0) => 0 <= k0 < before.len() && before[k0] == after[k],
            None => false,
        }),
        None => reg_index(before, other) is None,
    }) by {
        lemma_reg_remove_other(before, after, i, other);
    }
}

/// Lookup of an unrelated id survives removal, pointing at the same entry.
proof fn lemma_reg_remove_other(
    before: Seq<ConnEntry>,
    after: Seq<ConnEntry>,
    i: int,
    other: Seq<char>,
)
    requires
        0 <= i < before.len(),
        after == before.remove(i),
        before[i].id@ != other,
    ensures
        match reg_index(after, other) {
            Some(k) => 0 <= k < after.len() && (match reg_index(before, other) {
                Some(k0) => 0 <= k0 < before.len() && before[k0] == after[k],
                None => false,
            }),
            None => reg_index(before, other) is None,
        },
    decreases before.len(),
{
    before.remove_ensures(i);
    lemma_reg_index_bounds(before, other);
    lemma_reg_index_bounds(after, other);
    if i == 0 {
        assert(after =~= before.drop_first());
    } else {
        assert(after[0] == before[0]);
        assert(after.drop_first() =~= before.drop_first().remove(i - 1));
        if before[0].id@ == other {
        } else {
            lemma_reg_remove_other(before.drop_first(), after.drop_first(), i - 1, other);
        }
    }
}

/// A found index is in range and points at the id looked up.
proof fn lemma_reg_index_bounds(entries: Seq<ConnEntry>, id: Seq<char>)
    ensures
        match reg_index(entries, id) {
            Some(i) => 0 <= i < entries.len() && entries[i].id@ == id,
            None => true,
        },
    decreases entries.len(),
{
    if entries.len() > 0 && entries[0].id@ != id {
        lemma_reg_index_bounds(entries.drop_first(), id);
    }
}

} // verus!
