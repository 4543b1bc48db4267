//! What each perpetual task decides on each of its events. The tasks themselves
//! (waiting for frames and ticks, holding the transmit gate, sending) run around
//! these functions; each function takes the event and the shared peer table and
//! returns the action to perform.
use vstd::prelude::*;

use crate::address::{broadcast_address, is_broadcast, is_broadcast_address};
use crate::peer_table::{
    admission,
    after_admitting,
    contains_address,
    discovered,
    discovered_spec,
    is_selection,
    AdmissionError,
    PeerRecord,
    PeerTable,
    SelectionError,
};

verus! {

/// One link-layer delivery unit.
#[derive(Clone, Debug)]
pub struct Frame {
    pub src_address: [u8; 6],
    pub dst_address: [u8; 6],
    pub payload: Vec<u8>,
}

/// One transmission to perform through the transmit gate.
#[derive(Clone, Debug)]
pub struct SendRequest {
    pub destination: [u8; 6],
    pub payload: Vec<u8>,
}

/// What the listener did with one inbound frame.
#[derive(Clone, Copy, Debug, PartialEq, Eq)]
pub enum ListenOutcome {
    /// A broadcast from an unknown node: the node was admitted as a peer.
    Discovered(PeerRecord),
    /// A broadcast from an unknown node that the table refused.
    Refused(AdmissionError),
    /// A broadcast from a node already in the table.
    AlreadyKnown,
    /// A unicast frame: senders are never discovered from these.
    Unicast,
}

/// The bytes of the periodic broadcast greeting, "Hello.".
pub open spec fn broadcast_greeting() -> Seq<u8> {
    seq![72u8, 101u8, 108u8, 108u8, 111u8, 46u8]
}

/// The bytes of the unicast probe, "Hello Peer.".
pub open spec fn probe_greeting() -> Seq<u8> {
    seq![72u8, 101u8, 108u8, 108u8, 111u8, 32u8, 80u8, 101u8, 101u8, 114u8, 46u8]
}

/// The listener's reaction to `frame`: a broadcast from a node not yet in the
/// table admits that node as an unencrypted peer with no key and no channel
/// override; a refusal is reported and is not fatal. Unicast frames and
/// broadcasts from known nodes leave the table as it was.
pub fn on_frame(table: &mut PeerTable, frame: &Frame) -> (r: ListenOutcome)
    requires
        old(table).wf(),
    ensures
        final(table).wf(),
        final(table).capacity() == old(table).capacity(),
        final(table).cursor() == old(table).cursor(),
        !is_broadcast(frame.dst_address) ==> r == ListenOutcome::Unicast && final(table)@ == old(
            table,
        )@,
        is_broadcast(frame.dst_address) && contains_address(old(table)@, frame.src_address) ==> r
            == ListenOutcome::AlreadyKnown && final(table)@ == old(table)@,
        is_broadcast(frame.dst_address) && !contains_address(old(table)@, frame.src_address) ==> {
            let record = discovered_spec(frame.src_address);
            &&& final(table)@ == after_admitting(old(table)@, old(table).capacity(), record)
            &&& match admission(old(table)@, old(table).capacity(), record) {
                Ok(_) => r == ListenOutcome::Discovered(record),
                Err(e) => r == ListenOutcome::Refused(e),
            }
        },
{
    if !is_broadcast_address(&frame.dst_address) {
        return ListenOutcome::Unicast;
    }
    if table.peer_exists(&frame.src_address) {
        return ListenOutcome::AlreadyKnown;
    }
    let record = discovered(frame.src_address);
    match table.add_peer(record) {
        Ok(()) => ListenOutcome::Discovered(record),
        Err(e) => ListenOutcome::Refused(e),
    }
}

/// A broadcast from a node `x` not yet in a table with room admits `x`: the
/// table then holds an address `x`, and the record added for it is unencrypted.
pub proof fn lemma_broadcast_discovers(peers: Seq<PeerRecord>, capacity: nat, x: [u8; 6])
    requires
        !contains_address(peers, x),
        peers.len() < capacity,
    ensures
        contains_address(after_admitting(peers, capacity, discovered_spec(x)), x),
        after_admitting(peers, capacity, discovered_spec(x)) == peers.push(discovered_spec(x)),
        !after_admitting(peers, capacity, discovered_spec(x)).last().encrypted,
{
    let after = after_admitting(peers, capacity, discovered_spec(x));
    assert(after[peers.len() as int].address == x);
}

/// The broadcaster's action on each tick: the greeting, to every listener in range.
pub fn on_broadcast_tick() -> (r: SendRequest)
    ensures
        is_broadcast(r.destination),
        r.payload@ == broadcast_greeting(),
{
    let payload: Vec<u8> = vec![72u8, 101u8, 108u8, 108u8, 111u8, 46u8];
    proof {
        assert(payload@ =~= broadcast_greeting());
    }
    SendRequest { destination: broadcast_address(), payload }
}

/// The prober's action on each tick: select a peer, preferring one reachable
/// without encryption, and greet it. With no peers the cycle is skipped: no
/// send, and the table is left as it was.
pub fn on_probe_tick(table: &mut PeerTable) -> (r: Option<SendRequest>)
    requires
        old(table).wf(),
    ensures
        final(table).wf(),
        final(table)@ == old(table)@,
        final(table).capacity() == old(table).capacity(),
        old(table)@.len() == 0 ==> r is None && final(table).cursor() == old(table).cursor(),
        old(table)@.len() > 0 ==> r is Some && r->Some_0.payload@ == probe_greeting() && exists|
            idx: int,
        |
            is_selection(old(table)@, old(table).cursor() as int, true, idx)
                && r->Some_0.destination == (#[trigger] old(table)@[idx]).address
                && final(table).cursor() == (idx + 1) % (old(table)@.len() as int),
{
    match table.fetch_peer(true) {
        Ok(peer) => {
            let payload: Vec<u8> = vec![
                72u8, 101u8, 108u8, 108u8, 111u8, 32u8, 80u8, 101u8, 101u8, 114u8, 46u8,
            ];
            proof {
                assert(payload@ =~= probe_greeting());
            }
            Some(SendRequest { destination: peer.address, payload })
        },
        Err(SelectionError::NoPeers) => None,
    }
}

} // verus!
