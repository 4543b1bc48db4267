use espnow_duplex::address::{broadcast_address, is_broadcast_address, same_address};
use espnow_duplex::peer_table::{
    discovered, AdmissionError, PeerRecord, PeerTable, SelectionError, MAX_PEERS,
};

fn plain(address: [u8; 6]) -> PeerRecord {
    PeerRecord { address, session_key: None, channel: None, encrypted: false }
}

fn secured(address: [u8; 6]) -> PeerRecord {
    PeerRecord { address, session_key: Some([7u8; 16]), channel: Some(3), encrypted: true }
}

const A: [u8; 6] = [0x10, 0x20, 0x30, 0x40, 0x50, 0x60];
const B: [u8; 6] = [0x10, 0x20, 0x30, 0x40, 0x50, 0x61];
const C: [u8; 6] = [0xaa, 0xbb, 0xcc, 0xdd, 0xee, 0x01];

#[test]
fn broadcast_address_is_all_ones() {
    assert_eq!(broadcast_address(), [0xff; 6]);
    assert!(is_broadcast_address(&[0xff; 6]));
    assert!(!is_broadcast_address(&[0xff, 0xff, 0xff, 0xff, 0xff, 0xfe]));
    assert!(!is_broadcast_address(&A));
}

#[test]
fn same_address_compares_every_byte() {
    assert!(same_address(&A, &A));
    assert!(!same_address(&A, &B));
    assert!(!same_address(&A, &C));
}

#[test]
fn discovered_record_is_unencrypted_without_key_or_channel() {
    assert_eq!(discovered(C), plain(C));
}

#[test]
fn new_table_is_empty() {
    let t = PeerTable::new(MAX_PEERS);
    assert_eq!(t.len(), 0);
    assert!(!t.peer_exists(&A));
}

#[test]
fn add_peer_then_exists() {
    let mut t = PeerTable::new(4);
    assert_eq!(t.add_peer(plain(A)), Ok(()));
    assert!(t.peer_exists(&A));
    assert!(!t.peer_exists(&B));
    assert_eq!(t.len(), 1);
}

#[test]
fn second_add_of_same_address_is_refused() {
    let mut t = PeerTable::new(4);
    assert_eq!(t.add_peer(plain(A)), Ok(()));
    assert_eq!(t.add_peer(secured(A)), Err(AdmissionError::AlreadyKnown));
    assert_eq!(t.len(), 1);
}

#[test]
fn addresses_stay_unique_over_many_additions() {
    let mut t = PeerTable::new(MAX_PEERS);
    let offered = [A, B, A, C, B, C, A];
    let mut admitted = 0;
    for address in offered.iter() {
        if t.add_peer(plain(*address)).is_ok() {
            admitted += 1;
        }
    }
    assert_eq!(admitted, 3);
    assert_eq!(t.len(), 3);
}

#[test]
fn full_table_refuses_and_stays_unchanged() {
    let mut t = PeerTable::new(2);
    assert_eq!(t.add_peer(plain(A)), Ok(()));
    assert_eq!(t.add_peer(plain(B)), Ok(()));
    assert_eq!(t.add_peer(plain(C)), Err(AdmissionError::TableFull));
    assert_eq!(t.len(), 2);
    assert!(!t.peer_exists(&C));
    // fullness is checked before the key and before duplicates
    assert_eq!(t.add_peer(plain(A)), Err(AdmissionError::TableFull));
    let keyless = PeerRecord { address: C, session_key: None, channel: None, encrypted: true };
    assert_eq!(t.add_peer(keyless), Err(AdmissionError::TableFull));
}

#[test]
fn zero_capacity_table_refuses_everything() {
    let mut t = PeerTable::new(0);
    assert_eq!(t.add_peer(plain(A)), Err(AdmissionError::TableFull));
    assert_eq!(t.len(), 0);
}

#[test]
fn encrypted_record_without_key_is_refused() {
    let mut t = PeerTable::new(4);
    let keyless = PeerRecord { address: A, session_key: None, channel: None, encrypted: true };
    assert_eq!(t.add_peer(keyless), Err(AdmissionError::InvalidKeyMaterial));
    assert!(!t.peer_exists(&A));
    assert_eq!(t.add_peer(secured(A)), Ok(()));
    assert!(t.peer_exists(&A));
}

#[test]
fn fetch_on_empty_table_fails() {
    let mut t = PeerTable::new(4);
    assert_eq!(t.fetch_peer(true), Err(SelectionError::NoPeers));
    assert_eq!(t.fetch_peer(false), Err(SelectionError::NoPeers));
}

#[test]
fn fetch_prefers_unencrypted_peer() {
    let mut t = PeerTable::new(4);
    assert_eq!(t.add_peer(plain(A)), Ok(()));
    assert_eq!(t.add_peer(secured(B)), Ok(()));
    for _ in 0..5 {
        assert_eq!(t.fetch_peer(true), Ok(plain(A)));
    }
}

#[test]
fn fetch_prefers_unencrypted_peer_added_last() {
    let mut t = PeerTable::new(4);
    assert_eq!(t.add_peer(secured(B)), Ok(()));
    assert_eq!(t.add_peer(plain(A)), Ok(()));
    for _ in 0..5 {
        assert_eq!(t.fetch_peer(true), Ok(plain(A)));
    }
}

#[test]
fn fetch_falls_back_to_encrypted_peer() {
    let mut t = PeerTable::new(4);
    assert_eq!(t.add_peer(secured(B)), Ok(()));
    assert_eq!(t.fetch_peer(true), Ok(secured(B)));
    assert_eq!(t.fetch_peer(true), Ok(secured(B)));
}

#[test]
fn fetch_cycles_through_unencrypted_peers() {
    let mut t = PeerTable::new(4);
    assert_eq!(t.add_peer(plain(A)), Ok(()));
    assert_eq!(t.add_peer(secured(B)), Ok(()));
    assert_eq!(t.add_peer(plain(C)), Ok(()));
    assert_eq!(t.fetch_peer(true), Ok(plain(A)));
    assert_eq!(t.fetch_peer(true), Ok(plain(C)));
    assert_eq!(t.fetch_peer(true), Ok(plain(A)));
    assert_eq!(t.fetch_peer(true), Ok(plain(C)));
}

#[test]
fn fetch_without_preference_visits_every_peer() {
    let mut t = PeerTable::new(4);
    assert_eq!(t.add_peer(plain(A)), Ok(()));
    assert_eq!(t.add_peer(secured(B)), Ok(()));
    assert_eq!(t.add_peer(plain(C)), Ok(()));
    assert_eq!(t.fetch_peer(false), Ok(plain(A)));
    assert_eq!(t.fetch_peer(false), Ok(secured(B)));
    assert_eq!(t.fetch_peer(false), Ok(plain(C)));
    assert_eq!(t.fetch_peer(false), Ok(plain(A)));
}

#[test]
fn fetch_does_not_change_the_peers() {
    let mut t = PeerTable::new(4);
    assert_eq!(t.add_peer(plain(A)), Ok(()));
    assert_eq!(t.add_peer(secured(B)), Ok(()));
    let _ = t.fetch_peer(true);
    let _ = t.fetch_peer(false);
    assert_eq!(t.len(), 2);
    assert!(t.peer_exists(&A));
    assert!(t.peer_exists(&B));
}
