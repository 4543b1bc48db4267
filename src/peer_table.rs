//! The peer registry: a bounded table of known remote nodes, keyed by address,
//! with an admission policy and a round-robin selection that can prefer peers
//! reachable without link-layer encryption.
use vstd::prelude::*;

use crate::address::same_address;

verus! {

/// Largest number of peers the link layer can hold at once.
pub const MAX_PEERS: usize = 20;

/// One known remote node.
#[derive(Clone, Copy, Debug, PartialEq, Eq)]
pub struct PeerRecord {
    pub address: [u8; 6],
    /// Present only when unicast traffic to this peer is encrypted.
    pub session_key: Option<[u8; 16]>,
    /// Radio channel override, if any.
    pub channel: Option<u8>,
    pub encrypted: bool,
}

/// Why a record was not admitted.
#[derive(Clone, Copy, Debug, PartialEq, Eq, Structural)]
pub enum AdmissionError {
    /// The table already holds as many peers as it may.
    TableFull,
    /// The record asks for encryption but carries no session key.
    InvalidKeyMaterial,
    /// A peer with this address is already in the table.
    AlreadyKnown,
}

/// Why no peer could be selected.
#[derive(Clone, Copy, Debug, PartialEq, Eq, Structural)]
pub enum SelectionError {
    NoPeers,
}

/// A record as created by discovery from a broadcast: unencrypted, no key,
/// no channel override.
pub open spec fn discovered_spec(address: [u8; 6]) -> PeerRecord {
    PeerRecord { address, session_key: None, channel: None, encrypted: false }
}

/// The record that discovery admits for a node heard broadcasting from `address`.
pub fn discovered(address: [u8; 6]) -> (r: PeerRecord)
    ensures
        r == discovered_spec(address),
{
    PeerRecord { address, session_key: None, channel: None, encrypted: false }
}

/// Some record of `peers` has address `address`.
pub open spec fn contains_address(peers: Seq<PeerRecord>, address: [u8; 6]) -> bool {
    exists|i: int| 0 <= i < peers.len() && #[trigger] peers[i].address == address
}

/// No two records of `peers` share an address.
pub open spec fn addresses_unique(peers: Seq<PeerRecord>) -> bool {
    forall|i: int, j: int|
        0 <= i < peers.len() && 0 <= j < peers.len() && i != j ==> #[trigger] peers[i].address
            != #[trigger] peers[j].address
}

/// A record that asks for encryption carries a key.
pub open spec fn key_material_valid(record: PeerRecord) -> bool {
    record.encrypted ==> record.session_key is Some
}

/// The outcome of offering `record` for admission into `peers` under `capacity`: the
/// table must have room, the key material must be valid, and the address new,
/// checked in that order.
pub open spec fn admission(peers: Seq<PeerRecord>, capacity: nat, record: PeerRecord) -> Result<
    (),
    AdmissionError,
> {
    if peers.len() >= capacity {
        Err(AdmissionError::TableFull)
    } else if !key_material_valid(record) {
        Err(AdmissionError::InvalidKeyMaterial)
    } else if contains_address(peers, record.address) {
        Err(AdmissionError::AlreadyKnown)
    } else {
        Ok(())
    }
}

/// The records after offering `record`: appended when admitted, else
/// unchanged.
pub open spec fn after_admitting(
    peers: Seq<PeerRecord>,
    capacity: nat,
    record: PeerRecord,
) -> Seq<PeerRecord> {
    if admission(peers, capacity, record) is Ok {
        peers.push(record)
    } else {
        peers
    }
}

/// The records after offering each of `records` in turn.
pub open spec fn after_admitting_all(
    peers: Seq<PeerRecord>,
    capacity: nat,
    records: Seq<PeerRecord>,
) -> Seq<PeerRecord>
    decreases records.len(),
{
    if records.len() == 0 {
        peers
    } else {
        let before = after_admitting_all(peers, capacity, records.drop_last());
        after_admitting(before, capacity, records.last())
    }
}

/// Admitting one record never makes two records share an address, nor takes
/// the table past its capacity.
pub proof fn lemma_admission_keeps_table_valid(
    peers: Seq<PeerRecord>,
    capacity: nat,
    record: PeerRecord,
)
    requires
        addresses_unique(peers),
        peers.len() <= capacity,
    ensures
        addresses_unique(after_admitting(peers, capacity, record)),
        after_admitting(peers, capacity, record).len() <= capacity,
{
    if admission(peers, capacity, record) is Ok {
        let after = peers.push(record);
        assert forall|i: int, j: int|
            0 <= i < after.len() && 0 <= j < after.len() && i != j implies
            #[trigger] after[i].address != #[trigger] after[j].address by {
            if i < peers.len() && j < peers.len() {
                assert(after[i] == peers[i] && after[j] == peers[j]);
            } else if i < peers.len() {
                assert(after[i] == peers[i]);
            } else {
                assert(after[j] == peers[j]);
            }
        }
    }
}

/// Whatever sequence of records is offered for admission, the table never
/// holds two records with the same address, and never more than its capacity.
pub proof fn lemma_admissions_keep_addresses_unique(
    peers: Seq<PeerRecord>,
    capacity: nat,
    records: Seq<PeerRecord>,
)
    requires
        addresses_unique(peers),
        peers.len() <= capacity,
    ensures
        addresses_unique(after_admitting_all(peers, capacity, records)),
        after_admitting_all(peers, capacity, records).len() <= capacity,
    decreases records.len(),
{
    if records.len() > 0 {
        lemma_admissions_keep_addresses_unique(peers, capacity, records.drop_last());
        lemma_admission_keeps_table_valid(
            after_admitting_all(peers, capacity, records.drop_last()),
            capacity,
            records.last(),
        );
    }
}

/// A table at capacity refuses every record with `TableFull` and stays as it was.
pub proof fn lemma_full_table_refuses(peers: Seq<PeerRecord>, capacity: nat, record: PeerRecord)
    requires
        peers.len() >= capacity,
    ensures
        admission(peers, capacity, record) == Err::<(), AdmissionError>(AdmissionError::TableFull),
        after_admitting(peers, capacity, record) == peers,
{
}

/// Some record of `peers` can be reached without encryption.
pub open spec fn has_unencrypted(peers: Seq<PeerRecord>) -> bool {
    exists|i: int| 0 <= i < peers.len() && !(#[trigger] peers[i].encrypted)
}

/// Whether the record at `i` may be selected: any record when no preference is
/// given or when every record is encrypted, else only an unencrypted one.
pub open spec fn eligible(peers: Seq<PeerRecord>, i: int, prefer_unencrypted: bool) -> bool {
    !prefer_unencrypted || !has_unencrypted(peers) || !peers[i].encrypted
}

/// The index reached `k` steps after `cursor` in a cyclic walk over `n` records.
pub open spec fn cyclic_index(cursor: int, k: int, n: int) -> int {
    (cursor + k) % n
}

/// `idx` is the first eligible index met when walking the table cyclically from
/// `cursor`.
pub open spec fn is_selection(
    peers: Seq<PeerRecord>,
    cursor: int,
    prefer_unencrypted: bool,
    idx: int,
) -> bool {
    &&& 0 <= idx < peers.len()
    &&& eligible(peers, idx, prefer_unencrypted)
    &&& exists|k: int|
        0 <= k < peers.len() && #[trigger] cyclic_index(cursor, k, peers.len() as int) == idx
            && (forall|j: int|
            0 <= j < k ==> !eligible(
                peers,
                #[trigger] cyclic_index(cursor, j, peers.len() as int),
                prefer_unencrypted,
            ))
}

/// With a preference for unencrypted peers, a selection from a table that holds
/// any unencrypted peer is one of them.
pub proof fn lemma_selection_prefers_unencrypted(peers: Seq<PeerRecord>, cursor: int, idx: int)
    requires
        is_selection(peers, cursor, true, idx),
        has_unencrypted(peers),
    ensures
        !peers[idx].encrypted,
{
}

/// From a table of an unencrypted peer `a` and an encrypted peer `b`, in either
/// order, a selection that prefers unencrypted peers always yields `a`; from a
/// table holding `b` alone, it yields `b`.
pub proof fn lemma_selection_between_two(a: PeerRecord, b: PeerRecord, cursor: int, idx: int)
    requires
        !a.encrypted,
        b.encrypted,
    ensures
        is_selection(seq![a, b], cursor, true, idx) ==> seq![a, b][idx] == a,
        is_selection(seq![b, a], cursor, true, idx) ==> seq![b, a][idx] == a,
        is_selection(seq![b], cursor, true, idx) ==> seq![b][idx] == b,
{
    assert(!seq![a, b][0].encrypted);
    assert(!seq![b, a][1].encrypted);
}

/// Without a preference, a selection takes the peer at the cursor, so that
/// repeated selections on an unchanged table visit every peer in turn.
pub proof fn lemma_selection_without_preference(peers: Seq<PeerRecord>, cursor: int)
    requires
        0 <= cursor < peers.len(),
    ensures
        is_selection(peers, cursor, false, cursor),
{
    vstd::arithmetic::div_mod::lemma_small_mod(cursor as nat, peers.len());
    assert(cyclic_index(cursor, 0, peers.len() as int) == cursor);
}

/// Steps a cyclic walk over `n` records takes from index `from` to index `to`.
pub open spec fn cyclic_distance(from: int, to: int, n: int) -> int {
    if from <= to {
        to - from
    } else {
        to - from + n
    }
}

/// No eligible peer is starved: each selection that does not pick an eligible
/// peer `e` moves the cursor strictly closer to `e`, so repeated selections on
/// an unchanged table reach `e` within as many calls as there are peers.
pub proof fn lemma_selection_approaches(
    peers: Seq<PeerRecord>,
    cursor: int,
    prefer_unencrypted: bool,
    idx: int,
    e: int,
)
    requires
        0 <= cursor < peers.len(),
        is_selection(peers, cursor, prefer_unencrypted, idx),
        0 <= e < peers.len(),
        eligible(peers, e, prefer_unencrypted),
        e != idx,
    ensures
        cyclic_distance((idx + 1) % (peers.len() as int), e, peers.len() as int) < cyclic_distance(
            cursor,
            e,
            peers.len() as int,
        ),
{
    let n = peers.len() as int;
    let k = choose|k: int|
        0 <= k < n && #[trigger] cyclic_index(cursor, k, n) == idx && (forall|j: int|
            0 <= j < k ==> !eligible(
                peers,
                #[trigger] cyclic_index(cursor, j, n),
                prefer_unencrypted,
            ));
    let m = cyclic_distance(cursor, e, n);
    lemma_cyclic_index_value(cursor, m, n);
    lemma_cyclic_index_value(cursor, k, n);
    if m < k {
        assert(!eligible(peers, cyclic_index(cursor, m, n), prefer_unencrypted));
    }
    if idx + 1 == n {
        vstd::arithmetic::div_mod::lemma_mod_self_0(n);
    } else {
        vstd::arithmetic::div_mod::lemma_small_mod((idx + 1) as nat, n as nat);
    }
}

/// The index reached by a cyclic walk of fewer than `n` steps.
proof fn lemma_cyclic_index_value(cursor: int, k: int, n: int)
    requires
        0 <= cursor < n,
        0 <= k < n,
    ensures
        cyclic_index(cursor, k, n) == (if cursor + k < n {
            cursor + k
        } else {
            cursor + k - n
        }),
{
    if cursor + k < n {
        vstd::arithmetic::div_mod::lemma_small_mod((cursor + k) as nat, n as nat);
    } else {
        vstd::arithmetic::div_mod::lemma_mod_sub_multiples_vanish(cursor + k, n);
        vstd::arithmetic::div_mod::lemma_small_mod((cursor + k - n) as nat, n as nat);
    }
}

/// One more step of a cyclic walk moves to the next index, wrapping at the end.
proof fn lemma_cyclic_step(cursor: int, k: int, n: int)
    requires
        0 <= cursor,
        0 <= k,
        0 < n,
    ensures
        0 <= cyclic_index(cursor, k, n) < n,
        cyclic_index(cursor, k + 1, n) == (if cyclic_index(cursor, k, n) + 1 == n {
            0
        } else {
            cyclic_index(cursor, k, n) + 1
        }),
{
    let r = (cursor + k) % n;
    vstd::arithmetic::div_mod::lemma_mod_pos_bound(cursor + k, n);
    vstd::arithmetic::div_mod::lemma_mod_pos_bound(cursor + k + 1, n);
    if n > 1 {
        vstd::arithmetic::div_mod::lemma_small_mod(1, n as nat);
        vstd::arithmetic::div_mod::lemma_add_mod_noop(cursor + k, 1, n);
        assert((cursor + k + 1) % n == (r + 1) % n);
        if r + 1 == n {
            vstd::arithmetic::div_mod::lemma_mod_self_0(n);
        } else {
            vstd::arithmetic::div_mod::lemma_small_mod((r + 1) as nat, n as nat);
        }
    }
}

/// The peer registry.
pub struct PeerTable {
    peers: Vec<PeerRecord>,
    capacity: usize,
    cursor: usize,
}

impl View for PeerTable {
    type V = Seq<PeerRecord>;

    closed spec fn view(&self) -> Seq<PeerRecord> {
        self.peers@
    }
}

impl PeerTable {
    /// Most peers the table admits.
    pub closed spec fn capacity(&self) -> nat {
        self.capacity as nat
    }

    /// Where the next cyclic selection starts.
    pub closed spec fn cursor(&self) -> nat {
        self.cursor as nat
    }

    /// Addresses are unique, the table is within its capacity, and the cursor
    /// points into the table (or is zero when it is empty).
    pub closed spec fn wf(&self) -> bool {
        &&& addresses_unique(self.peers@)
        &&& self.peers@.len() <= self.capacity
        &&& if self.peers@.len() == 0 {
            self.cursor == 0
        } else {
            self.cursor < self.peers@.len()
        }
    }

    /// What a well-formed table guarantees to its users.
    pub proof fn lemma_wf(&self)
        requires
            self.wf(),
        ensures
            addresses_unique(self@),
            self@.len() <= self.capacity(),
            self@.len() == 0 ==> self.cursor() == 0,
            self@.len() > 0 ==> self.cursor() < self@.len(),
    {
    }

    /// An empty table that admits up to `capacity` peers.
    pub fn new(capacity: usize) -> (t: PeerTable)
        ensures
            t.wf(),
            t@ == Seq::<PeerRecord>::empty(),
            t.capacity() == capacity,
            t.cursor() == 0,
    {
        PeerTable { peers: Vec::new(), capacity, cursor: 0 }
    }

    /// Number of peers in the table.
    pub fn len(&self) -> (r: usize)
        ensures
            r == self@.len(),
    {
        self.peers.len()
    }

    /// Whether a peer with `address` is in the table.
    pub fn peer_exists(&self, address: &[u8; 6]) -> (r: bool)
        ensures
            r == contains_address(self@, *address),
    {
        let mut i: usize = 0;
        while i < self.peers.len()
            invariant
                i <= self.peers@.len(),
                forall|j: int| 0 <= j < i ==> self.peers@[j].address != *address,
            decreases self.peers@.len() - i,
        {
            if same_address(&self.peers[i].address, address) {
                return true;
            }
            i = i + 1;
        }
        false
    }
    /// Admits `record` when there is room, its key material is valid, and its
    /// address is new; otherwise reports why and leaves the table as it was.
    /// The checks are made in that order.
    pub fn add_peer(&mut self, record: PeerRecord) -> (r: Result<(), AdmissionError>)
        requires
            old(self).wf(),
        ensures
            final(self).wf(),
            final(self).capacity() == old(self).capacity(),
            final(self).cursor() == old(self).cursor(),
            r == admission(old(self)@, old(self).capacity(), record),
            final(self)@ == after_admitting(old(self)@, old(self).capacity(), record),
    {
        if self.peers.len() >= self.capacity {
            return Err(AdmissionError::TableFull);
        }
        if record.encrypted && record.session_key.is_none() {
            return Err(AdmissionError::InvalidKeyMaterial);
        }
        if self.peer_exists(&record.address) {
            return Err(AdmissionError::AlreadyKnown);
        }
        proof {
            lemma_admission_keeps_table_valid(self.peers@, self.capacity as nat, record);
        }
        self.peers.push(record);
        Ok(())
    }

    /// Whether some peer can be reached without encryption.
    pub fn any_unencrypted(&self) -> (r: bool)
        ensures
            r == has_unencrypted(self@),
    {
        let mut i: usize = 0;
        while i < self.peers.len()
            invariant
                i <= self.peers@.len(),
                forall|j: int| 0 <= j < i ==> self.peers@[j].encrypted,
            decreases self.peers@.len() - i,
        {
            if !self.peers[i].encrypted {
                return true;
            }
            i = i + 1;
        }
        false
    }

    /// Selects a peer, walking the table cyclically from where the previous
    /// selection stopped. With `prefer_unencrypted`, an unencrypted peer is
    /// chosen whenever one exists; otherwise any peer is. The walk then resumes
    /// after the chosen peer, so repeated calls on an unchanged table visit
    /// every eligible peer in turn.
    pub fn fetch_peer(&mut self, prefer_unencrypted: bool) -> (r: Result<
        PeerRecord,
        SelectionError,
    >)
        requires
            old(self).wf(),
        ensures
            final(self).wf(),
            final(self)@ == old(self)@,
            final(self).capacity() == old(self).capacity(),
            old(self)@.len() == 0 ==> r == Err::<PeerRecord, SelectionError>(
                SelectionError::NoPeers,
            ) && final(self).cursor() == old(self).cursor(),
            old(self)@.len() > 0 ==> exists|idx: int|
                is_selection(old(self)@, old(self).cursor() as int, prefer_unencrypted, idx)
                    && r == Ok::<PeerRecord, SelectionError>(#[trigger] old(self)@[idx])
                    && final(self).cursor() == (idx + 1) % (old(self)@.len() as int),
    {
        let n = self.peers.len();
        if n == 0 {
            return Err(SelectionError::NoPeers);
        }
        let only_unencrypted = prefer_unencrypted && self.any_unencrypted();
        let ghost peers = self.peers@;
        let ghost c = self.cursor as int;
        let mut k: usize = 0;
        let mut idx: usize = self.cursor;
        proof {
            vstd::arithmetic::div_mod::lemma_small_mod(c as nat, n as nat);
        }
        while only_unencrypted && self.peers[idx].encrypted
            invariant
                n == peers.len(),
                self.peers@ == peers,
                self.wf(),
                c == self.cursor,
                0 <= c < n,
                only_unencrypted == (prefer_unencrypted && has_unencrypted(peers)),
                0 <= k < n,
                idx == cyclic_index(c, k as int, n as int),
                forall|j: int|
                    0 <= j < k ==> !eligible(
                        peers,
                        #[trigger] cyclic_index(c, j, n as int),
                        prefer_unencrypted,
                    ),
            decreases n - k,
        {
            proof {
                assert(!eligible(peers, cyclic_index(c, k as int, n as int), prefer_unencrypted));
                if k + 1 == n {
                    // every index has been visited and none is unencrypted
                    let w = choose|w: int| 0 <= w < peers.len() && !(#[trigger] peers[w].encrypted);
                    let j = cyclic_distance(c, w, n as int);
                    lemma_cyclic_index_value(c, j, n as int);
                    assert(!eligible(peers, cyclic_index(c, j, n as int), prefer_unencrypted));
                }
            }
            idx = if idx + 1 == n { 0 } else { idx + 1 };
            k = k + 1;
            proof {
                lemma_cyclic_step(c, (k - 1) as int, n as int);
            }
        }
        proof {
            assert(eligible(peers, idx as int, prefer_unencrypted));
            assert(is_selection(peers, c, prefer_unencrypted, idx as int));
        }
        let picked = self.peers[idx];
        self.cursor = if idx + 1 == n { 0 } else { idx + 1 };
        proof {
            if idx + 1 == n {
                vstd::arithmetic::div_mod::lemma_mod_self_0(n as int);
            } else {
                vstd::arithmetic::div_mod::lemma_small_mod((idx + 1) as nat, n as nat);
            }
        }
        Ok(picked)
    }
}

} // verus!
