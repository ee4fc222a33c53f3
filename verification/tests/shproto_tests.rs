use shproto::ShprotoError;
use shproto::ShprotoPacket;
use shproto::ShprotoParser;

#[test]
fn crc16_works() {
    let mut packet = ShprotoPacket::<256>::new();
    packet.start(0x03).unwrap();
    packet.add_byte(0x99).unwrap();
    assert_eq!(packet.crc, 10945);
    packet.complete();
    assert_eq!(packet.crc, 0);
    assert_eq!(packet.completed, true);
    assert_eq!(packet.valid, true);
}

#[test]
fn parse() {
    let bytes: [u8; 7] = [0xFF, 0xFE, 0x03, 0x00, 0x01, 0x40, 0xA5];
    let mut parser = ShprotoParser::<256>::new();
    for byte in bytes.as_slice() {
        if let Some(packet) = parser.parse_byte(*byte).unwrap() {
            assert_eq!(packet.crc, 0);
            assert_eq!(packet.data, bytes);
        }
    }
}

#[test]
fn crc_self_check_various_payloads() {
    let payloads: [&[u8]; 4] = [&[], &[0x00], &[0xFE, 0xFD, 0xA5], &[0x12, 0x34, 0x56, 0x78]];
    for payload in payloads.iter() {
        let mut packet = ShprotoPacket::<256>::new();
        packet.start(0x42).unwrap();
        for byte in payload.iter() {
            packet.add_byte(*byte).unwrap();
        }
        packet.complete();
        assert_eq!(packet.crc, 0);
        assert!(packet.completed);
        assert!(packet.valid);
    }
}

#[test]
fn crc_known_value() {
    // The reflected CRC-16 with polynomial 0xA001 and seed 0xFFFF maps the
    // ASCII digits "123456789" to 0x4B37.
    let mut packet = ShprotoPacket::<256>::new();
    packet.start(0x31).unwrap();
    for byte in [0x32u8, 0x33, 0x34, 0x35, 0x36, 0x37, 0x38, 0x39].iter() {
        packet.add_byte(*byte).unwrap();
    }
    assert_eq!(packet.crc, 0x4B37);
}

#[test]
fn escape_round_trip_every_byte() {
    // Each byte value, sent as the single payload byte of a frame, comes
    // back through the parser: the parser re-encodes what it decoded, so
    // the emitted frame's stored bytes equal the builder's.
    for value in 0..=255u8 {
        let mut packet = ShprotoPacket::<256>::new();
        packet.start(0x01).unwrap();
        packet.add_byte(value).unwrap();
        packet.complete();

        let mut parser = ShprotoParser::<256>::new();
        let mut frames: usize = 0;
        for byte in packet.data.iter() {
            if let Some(frame) = parser.parse_byte(*byte).unwrap() {
                frames += 1;
                assert!(frame.valid);
                assert_eq!(frame.crc, 0);
                assert_eq!(frame.data, packet.data);
                let logical = frame.raw_bytes();
                assert_eq!(logical[0], 0x01);
                assert_eq!(logical[1], value);
            }
        }
        assert_eq!(frames, 1);
    }
}

#[test]
fn control_bytes_are_escaped_on_the_wire() {
    let mut packet = ShprotoPacket::<256>::new();
    packet.start(0xFE).unwrap();
    // The command collides with START: stored as ESCAPE then the one's
    // complement.
    assert_eq!(packet.data[2], 0xFD);
    assert_eq!(packet.data[3], 0x01);
    packet.add_byte(0xFD).unwrap();
    assert_eq!(packet.data[4], 0xFD);
    assert_eq!(packet.data[5], 0x02);
    packet.add_byte(0xA5).unwrap();
    assert_eq!(packet.data[6], 0xFD);
    assert_eq!(packet.data[7], 0x5A);
    packet.add_byte(0x10).unwrap();
    assert_eq!(packet.data[8], 0x10);
}

#[test]
fn stop_without_start_emits_nothing() {
    let mut parser = ShprotoParser::<256>::new();
    for byte in [0xA5u8, 0x00, 0xA5, 0x42, 0xFD, 0xA5].iter() {
        let emitted = parser.parse_byte(*byte).unwrap();
        assert!(emitted.is_none());
    }
}

#[test]
fn spurious_start_discards_partial_frame() {
    // A frame is opened and half filled, then a new START arrives: the
    // partial frame vanishes without being emitted, and only the second
    // frame surfaces.
    let mut packet = ShprotoPacket::<256>::new();
    packet.start(0x07).unwrap();
    packet.add_byte(0x08).unwrap();
    packet.complete();

    let mut stream: Vec<u8> = vec![0xFF, 0xFE, 0x01, 0x02, 0x03];
    stream.extend_from_slice(&packet.data);

    let mut parser = ShprotoParser::<256>::new();
    let mut frames: Vec<Vec<u8>> = Vec::new();
    for byte in stream.iter() {
        if let Some(frame) = parser.parse_byte(*byte).unwrap() {
            frames.push(frame.data);
        }
    }
    assert_eq!(frames.len(), 1);
    assert_eq!(frames[0], packet.data);
}

#[test]
fn frames_emitted_in_stream_order() {
    let mut first = ShprotoPacket::<256>::new();
    first.start(0x01).unwrap();
    first.add_byte(0xAA).unwrap();
    first.complete();

    let mut second = ShprotoPacket::<256>::new();
    second.start(0x02).unwrap();
    second.add_byte(0xBB).unwrap();
    second.complete();

    let mut stream: Vec<u8> = Vec::new();
    stream.extend_from_slice(&first.data);
    stream.extend_from_slice(&second.data);

    let mut parser = ShprotoParser::<256>::new();
    let mut frames: Vec<Vec<u8>> = Vec::new();
    for byte in stream.iter() {
        if let Some(frame) = parser.parse_byte(*byte).unwrap() {
            assert!(frame.valid);
            frames.push(frame.data);
        }
    }
    assert_eq!(frames.len(), 2);
    assert_eq!(frames[0], first.data);
    assert_eq!(frames[1], second.data);
}

#[test]
fn builder_capacity_boundary() {
    // Capacity 4: two preamble bytes leave room for exactly two stored
    // bytes of protected region.
    let mut packet = ShprotoPacket::<4>::new();
    assert!(packet.start(0x10).is_ok());
    assert!(packet.add_byte(0x20).is_ok());
    let err = packet.add_byte(0x30);
    assert!(matches!(err, Err(ShprotoError::PushFailed)));
    // The failed append leaves the frame untouched.
    assert_eq!(packet.data, [0xFF, 0xFE, 0x10, 0x20]);
}

#[test]
fn builder_capacity_boundary_escape_pair() {
    // A control byte needs two stored bytes: it fits where two bytes
    // remain and fails where only one does.
    let mut fits = ShprotoPacket::<4>::new();
    assert!(fits.start(0xA5).is_ok());

    let mut tight = ShprotoPacket::<3>::new();
    assert!(matches!(tight.start(0xA5), Err(ShprotoError::PushFailed)));
    assert!(tight.start(0x11).is_ok());
}

#[test]
fn parser_capacity_boundary() {
    // Stored bytes: 2 for the preamble, 5 for the plain protected region,
    // 1 for STOP. Capacity 8 holds the frame exactly.
    let stream: [u8; 8] = [0xFE, 0x01, 0x02, 0x03, 0x04, 0x05, 0xA5, 0x00];
    let mut parser = ShprotoParser::<8>::new();
    let mut frames: usize = 0;
    for byte in stream.iter() {
        if let Some(frame) = parser.parse_byte(*byte).unwrap() {
            frames += 1;
            assert_eq!(frame.data.len(), 8);
        }
    }
    assert_eq!(frames, 1);

    // One stored byte fewer of capacity and the same frame overflows.
    let mut small = ShprotoParser::<7>::new();
    let mut failed = false;
    for byte in stream.iter() {
        match small.parse_byte(*byte) {
            Ok(frame) => assert!(frame.is_none()),
            Err(e) => {
                assert!(matches!(e, ShprotoError::PushFailed));
                failed = true;
                break;
            }
        }
    }
    assert!(failed);
}

#[test]
fn end_to_end_scenario() {
    // Command 0x03 with the single payload byte 0x99 reaches CRC 10945
    // (0x2AC1) before completion; sealing appends 0xC1 then 0x2A and the
    // running CRC self-checks to zero.
    let mut packet = ShprotoPacket::<256>::new();
    packet.start(0x03).unwrap();
    packet.add_byte(0x99).unwrap();
    assert_eq!(packet.crc, 10945);
    packet.complete();
    assert_eq!(packet.crc, 0);
    assert!(packet.valid);
    assert_eq!(packet.data, [0xFF, 0xFE, 0x03, 0x99, 0xC1, 0x2A, 0xA5]);

    // Fed back one byte at a time, the frame comes out whole and valid.
    let mut parser = ShprotoParser::<256>::new();
    let mut frames: usize = 0;
    for byte in packet.data.iter() {
        if let Some(frame) = parser.parse_byte(*byte).unwrap() {
            frames += 1;
            assert!(frame.valid);
            assert_eq!(frame.crc, 0);
            assert_eq!(frame.data, packet.data);
            // The logical bytes: command, payload, then the two CRC bytes.
            let logical = frame.raw_bytes();
            assert_eq!(logical, [0x03, 0x99, 0xC1, 0x2A]);
            assert_eq!(&logical[..2], &[0x03, 0x99]);
        }
    }
    assert_eq!(frames, 1);
}

#[test]
fn raw_bytes_unescapes_control_bytes() {
    let mut packet = ShprotoPacket::<256>::new();
    packet.start(0xFE).unwrap();
    packet.add_byte(0xFD).unwrap();
    packet.add_byte(0xA5).unwrap();
    packet.add_byte(0x77).unwrap();
    assert_eq!(packet.raw_bytes(), [0xFE, 0xFD, 0xA5, 0x77]);
    packet.complete();
    let logical = packet.raw_bytes();
    assert_eq!(&logical[..4], &[0xFE, 0xFD, 0xA5, 0x77]);
    assert_eq!(logical.len(), 6);
}

#[test]
fn invalid_frame_is_reported_not_dropped() {
    // A frame whose CRC bytes are corrupted still surfaces at STOP, marked
    // invalid: validity filtering is the consumer's choice.
    let stream: [u8; 7] = [0xFF, 0xFE, 0x03, 0x99, 0xC1, 0x2B, 0xA5];
    let mut parser = ShprotoParser::<256>::new();
    let mut frames: usize = 0;
    for byte in stream.iter() {
        if let Some(frame) = parser.parse_byte(*byte).unwrap() {
            frames += 1;
            assert!(frame.completed);
            assert!(!frame.valid);
            assert_ne!(frame.crc, 0);
        }
    }
    assert_eq!(frames, 1);
}
