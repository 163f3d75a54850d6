use cowconnect::datagram::{ControlType, Datagram, DatagramType};

fn audio(seq: u16, words: Vec<u32>) -> Datagram {
    Datagram::new(seq, DatagramType::Audio(words))
}

fn control(seq: u16, kind: ControlType) -> Datagram {
    Datagram::new(seq, DatagramType::Control(kind))
}

#[test]
fn test_filter() {
    let from_id = |seq: u16| Datagram {
        seq,
        datagram_type: DatagramType::Audio(vec![0.0f32.to_bits()]),
    };

    let list = vec![
        from_id(0),
        from_id(1),
        from_id(1),
        from_id(2),
        from_id(u16::MAX),
        from_id(0),
    ];
    let filtered = cowconnect::datagram::filter(&list);

    let result = vec![
        from_id(0),
        from_id(1),
        from_id(2),
        from_id(u16::MAX),
        from_id(0),
    ];

    for (a, b) in filtered.iter().zip(result.iter()) {
        assert_eq!(*a, b);
    }
}

#[test]
fn cowconnect_test_filter() {
    let from_id = |seq: u16| Datagram {
        seq,
        datagram_type: DatagramType::Audio(vec![0.0f32.to_bits()]),
    };

    let list = vec![
        from_id(0),
        from_id(1),
        from_id(1),
        from_id(2),
        from_id(u16::MAX),
        from_id(0),
    ];
    let filtered = cowconnect::datagram::filter(&list);

    let result = vec![
        from_id(0),
        from_id(1),
        from_id(2),
        from_id(u16::MAX),
        from_id(0),
    ];

    for (a, b) in filtered.iter().zip(result.iter()) {
        assert_eq!(*a, b);
    }
}

#[test]
fn filter_drops_stale_sequences() {
    let list = vec![audio(5, vec![]), audio(4, vec![]), audio(6, vec![])];
    let filtered = cowconnect::datagram::filter(&list);
    assert_eq!(filtered.len(), 2);
    assert_eq!(filtered[0].seq, 5);
    assert_eq!(filtered[1].seq, 6);
}

#[test]
fn audio_round_trip_preserves_float_bits() {
    let samples: Vec<u32> = [0.0f32, -0.0, 1.5, -2.25, f32::MIN_POSITIVE, 12345.678]
        .iter()
        .map(|s| s.to_bits())
        .collect();
    let d = audio(4711, samples.clone());
    let bytes = d.to_bytes();
    let back = Datagram::from_bytes(&bytes).expect("valid encoding must decode");
    assert_eq!(back.seq, 4711);
    match back.datagram_type {
        DatagramType::Audio(words) => assert_eq!(words, samples),
        _ => panic!("expected an audio payload"),
    }
}

#[test]
fn empty_audio_round_trip() {
    let d = audio(65535, vec![]);
    let bytes = d.to_bytes();
    assert_eq!(bytes.len(), 3);
    let back = Datagram::from_bytes(&bytes).expect("header-only audio is valid");
    assert_eq!(back, d);
}

#[test]
fn control_round_trip_all_kinds() {
    for kind in [
        ControlType::Connect,
        ControlType::Disconnect,
        ControlType::Heartbeat,
    ] {
        let d = control(258, kind);
        let bytes = d.to_bytes();
        assert_eq!(bytes.len(), 4);
        let back = Datagram::from_bytes(&bytes).expect("control encoding must decode");
        assert_eq!(back, d);
    }
}

#[test]
fn wire_layout_is_big_endian() {
    let d = audio(0x0102, vec![0x0a0b0c0d]);
    assert_eq!(d.to_bytes(), vec![0x01, 0x02, 0x00, 0x0a, 0x0b, 0x0c, 0x0d]);

    let c = control(0x0102, ControlType::Heartbeat);
    assert_eq!(c.to_bytes(), vec![0x01, 0x02, 0x01, 0x02]);
}

#[test]
fn short_buffers_are_malformed() {
    assert!(Datagram::from_bytes(&[]).is_none());
    assert!(Datagram::from_bytes(&[0]).is_none());
    assert!(Datagram::from_bytes(&[0, 1]).is_none());
}

#[test]
fn ragged_audio_payload_is_malformed() {
    // 3-byte header plus 1, 2, 3, then 5 trailing bytes: never a whole word.
    assert!(Datagram::from_bytes(&[0, 0, 0, 9]).is_none());
    assert!(Datagram::from_bytes(&[0, 0, 0, 9, 9]).is_none());
    assert!(Datagram::from_bytes(&[0, 0, 0, 9, 9, 9]).is_none());
    assert!(Datagram::from_bytes(&[0, 0, 0, 9, 9, 9, 9, 9]).is_none());
}

#[test]
fn unknown_tags_are_malformed() {
    // Top-level tag 2 is neither audio nor control.
    assert!(Datagram::from_bytes(&[0, 0, 2, 0]).is_none());
    // Control with no kind byte.
    assert!(Datagram::from_bytes(&[0, 0, 1]).is_none());
    // Control with an unknown kind byte.
    assert!(Datagram::from_bytes(&[0, 0, 1, 3]).is_none());
}

#[test]
fn control_ignores_trailing_bytes() {
    let back = Datagram::from_bytes(&[0, 7, 1, 2, 99, 99]).expect("kind byte decides");
    assert_eq!(back, control(7, ControlType::Heartbeat));
}

#[test]
fn control_type_bytes() {
    assert_eq!(ControlType::Connect.to_bytes(), vec![0]);
    assert_eq!(ControlType::Disconnect.to_bytes(), vec![1]);
    assert_eq!(ControlType::Heartbeat.to_bytes(), vec![2]);
    assert_eq!(ControlType::from_bytes(&[0]), Some(ControlType::Connect));
    assert_eq!(ControlType::from_bytes(&[1]), Some(ControlType::Disconnect));
    assert_eq!(ControlType::from_bytes(&[2]), Some(ControlType::Heartbeat));
    assert_eq!(ControlType::from_bytes(&[3]), None);
    assert_eq!(ControlType::from_bytes(&[255]), None);
}
