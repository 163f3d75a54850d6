use cowconnect::con_man::{ConnectionManager, PeerAddr};
use cowconnect::datagram::{Datagram, DatagramType};

fn addr(n: u128) -> PeerAddr {
    PeerAddr { ip: n, port: 1312 }
}

fn decode(bytes: &[u8]) -> Datagram {
    Datagram::from_bytes(bytes).expect("relay output must decode")
}

#[test]
fn mixing_excludes_each_peers_own_voice() {
    let mut cm = ConnectionManager::new();
    for n in 1..=3 {
        cm.connect(addr(n), 0);
    }
    cm.update_audio_buffer(addr(1), 0, vec![1, 1]);
    cm.update_audio_buffer(addr(2), 0, vec![2, 2]);
    cm.update_audio_buffer(addr(3), 0, vec![3, 3]);

    let streams = cm.gather_samples();
    assert_eq!(streams, vec![vec![1, 1], vec![2, 2], vec![3, 3]]);
    let mixed = cm.mix_samples(streams);
    assert_eq!(mixed, vec![vec![5, 5], vec![4, 4], vec![3, 3]]);
}

#[test]
fn mixing_zero_extends_to_the_longest_stream() {
    let mut cm = ConnectionManager::new();
    cm.connect(addr(1), 0);
    cm.connect(addr(2), 0);
    cm.update_audio_buffer(addr(1), 0, vec![1]);
    cm.update_audio_buffer(addr(2), 0, vec![2, 2]);

    let streams = cm.gather_samples();
    let mixed = cm.mix_samples(streams);
    assert_eq!(mixed[0], vec![2, 2]);
    assert_eq!(mixed[1], vec![1, 0]);
}

#[test]
fn mixing_sums_wrap_at_the_word_size() {
    let cm = ConnectionManager::new();
    let mixed = cm.mix_samples(vec![vec![u32::MAX], vec![3], vec![]]);
    assert_eq!(mixed, vec![vec![3], vec![u32::MAX], vec![2]]);
}

#[test]
fn purge_drops_stale_peer_and_its_audio() {
    let mut cm = ConnectionManager::new();
    cm.connect(addr(1), 0);
    cm.connect(addr(2), 0);
    cm.update_audio_buffer(addr(1), 0, vec![9, 9]);
    cm.heartbeat(addr(2), 2000);

    cm.purge_connections(6000, 5000);

    assert!(cm.client_index(addr(1)).is_none());
    assert!(cm.client_index(addr(2)).is_some());

    // The purged peer's buffered audio is gone from the next mix.
    let out = cm.send_audio();
    assert_eq!(out.len(), 1);
    assert_eq!(out[0].0, addr(2));
    let d = decode(&out[0].1);
    assert_eq!(d.datagram_type, DatagramType::Audio(vec![]));
}

#[test]
fn heartbeats_prevent_purge_indefinitely() {
    let mut cm = ConnectionManager::new();
    cm.connect(addr(7), 0);
    for round in 1..=20u64 {
        cm.heartbeat(addr(7), round * 1000);
        cm.purge_connections(round * 1000 + 900, 2000);
        assert!(cm.client_index(addr(7)).is_some(), "purged in round {round}");
    }
}

#[test]
fn silent_peer_is_purged_without_heartbeats() {
    let mut cm = ConnectionManager::new();
    cm.connect(addr(7), 0);
    cm.purge_connections(2001, 2000);
    assert!(cm.client_index(addr(7)).is_none());
}

#[test]
fn reconnect_resets_the_peer() {
    let mut cm = ConnectionManager::new();
    cm.connect(addr(1), 0);
    cm.update_audio_buffer(addr(1), 0, vec![5]);
    cm.send_audio();
    // A second Connect recreates the record: counter back to zero, buffered
    // audio discarded, still a single record.
    cm.connect(addr(1), 100);
    cm.update_audio_buffer(addr(1), 0, vec![]);
    let out = cm.send_audio();
    assert_eq!(out.len(), 1);
    assert_eq!(decode(&out[0].1).seq, 0);
}

#[test]
fn audio_from_unknown_address_is_dropped() {
    let mut cm = ConnectionManager::new();
    cm.connect(addr(1), 0);
    cm.update_audio_buffer(addr(2), 0, vec![1, 2, 3]);
    cm.heartbeat(addr(2), 50);
    assert!(cm.client_index(addr(2)).is_none());
    let streams = cm.gather_samples();
    assert_eq!(streams, vec![Vec::<u32>::new()]);
}

#[test]
fn lone_peer_still_receives_a_datagram_each_tick() {
    let mut cm = ConnectionManager::new();
    cm.connect(addr(1), 0);
    cm.update_audio_buffer(addr(1), 0, vec![7]);

    // Nothing to mix in from others, but the tick still emits a datagram
    // and keeps the outgoing counter moving.
    let out = cm.send_audio();
    assert_eq!(out.len(), 1);
    let first = decode(&out[0].1);
    assert_eq!(first.seq, 0);
    assert_eq!(first.datagram_type, DatagramType::Audio(vec![0]));

    let out = cm.send_audio();
    let second = decode(&out[0].1);
    assert_eq!(second.seq, 1);
    assert_eq!(second.datagram_type, DatagramType::Audio(vec![]));
}

#[test]
fn outgoing_sequence_wraps_per_peer() {
    let mut cm = ConnectionManager::new();
    cm.connect(addr(1), 0);
    for _ in 0..65535 {
        cm.send_audio();
    }
    let out = cm.send_audio();
    assert_eq!(decode(&out[0].1).seq, 65535);
    let out = cm.send_audio();
    assert_eq!(decode(&out[0].1).seq, 0);
}
