use dem::bits::BitReader;
use dem::bytes::Reader;
use dem::frame::{Frame, FrameKind, FramePayload};
use dem::header::DemoHeader;
use dem::packets::{Packet, PacketKind, ProtocolVersion, parse_update};
use dem::parse::ParseError;
use dem::sound::{Channel, Flags, Sound, SoundDelta, SequenceUpdate};
use dem::usercmd::UserCmdDelta;

fn minimal_header_bytes() -> [u8; 1072] {
    let mut data = [0u8; 1072];
    data[0..8].copy_from_slice(b"HL2DEMO\0");
    data[8..12].copy_from_slice(&3i32.to_le_bytes());
    data[12..16].copy_from_slice(&24i32.to_le_bytes());
    // The four path fields stay zero-padded empty strings; the trailing
    // seconds, ticks, frames and signon length stay zero.
    data
}

#[test]
fn minimal_header_parses() {
    let data = minimal_header_bytes();
    let h = DemoHeader::parse(&data).unwrap();
    assert_eq!(h.demo_protocol, 3);
    assert_eq!(h.network_protocol, 24);
    assert_eq!(h.server_name.to_str().unwrap(), "");
    assert_eq!(h.map_name.to_str().unwrap(), "");
    assert_eq!(h.playback_seconds, 0);
    assert_eq!(h.ticks, 0);
    assert_eq!(h.frames, 0);
    assert_eq!(h.signon_length, 0);
}

#[test]
fn wrong_magic_is_rejected() {
    let mut data = minimal_header_bytes();
    data[0] = b'X';
    let err = DemoHeader::parse(&data).unwrap_err();
    assert_eq!(err.0, vec![b'X', b'L', b'2', b'D', b'E', b'M', b'O', 0]);
}

#[test]
fn stop_frame_uses_three_byte_tick() {
    let data = [7u8, 0, 0, 0];
    let mut r = Reader::new(&data);
    let f = Frame::parse(&mut r).unwrap();
    assert_eq!(f.tick, 0);
    assert!(matches!(f.payload, FramePayload::Stop));
    assert_eq!(r.remaining_len(), 0);
}

#[test]
fn bad_frame_tag_is_rejected() {
    let data = [9u8, 0, 0, 0, 0];
    let mut r = Reader::new(&data);
    let err = Frame::parse(&mut r).unwrap_err();
    assert!(matches!(err, ParseError::BadEnumIndex { value: 9, .. }));
}

#[test]
fn console_command_frame_truncates_at_zero() {
    let mut data = vec![4u8, 1, 0, 0, 0];
    data.extend_from_slice(&5u32.to_le_bytes());
    data.extend_from_slice(b"hi\0zz");
    let mut r = Reader::new(&data);
    let f = Frame::parse(&mut r).unwrap();
    assert_eq!(f.tick, 1);
    match f.payload {
        FramePayload::ConsoleCommand(c) => assert_eq!(c, "hi"),
        other => panic!("unexpected payload {:?}", other),
    }
}

#[test]
fn update_frame_carries_packets_blob() {
    let mut data = vec![2u8, 5, 0, 0, 0];
    data.extend_from_slice(&[0u8; 76]);
    data.extend_from_slice(&7u32.to_le_bytes());
    data.extend_from_slice(&8u32.to_le_bytes());
    data.extend_from_slice(&3u32.to_le_bytes());
    data.extend_from_slice(&[0xAA, 0xBB, 0xCC]);
    let mut r = Reader::new(&data);
    let f = Frame::parse(&mut r).unwrap();
    assert_eq!(f.payload.kind(), FrameKind::Update);
    match f.payload {
        FramePayload::Update(u) => {
            assert_eq!(u.sequence_in, 7);
            assert_eq!(u.sequence_out, 8);
            assert_eq!(u.packets, vec![0xAA, 0xBB, 0xCC]);
        },
        other => panic!("unexpected payload {:?}", other),
    }
    assert_eq!(r.remaining_len(), 0);
}

#[test]
fn packet_kind_covers_the_closed_set() {
    assert_eq!(PacketKind::from_id(0), Some(PacketKind::Nop));
    assert_eq!(PacketKind::from_id(25), Some(PacketKind::GameEvent));
    assert_eq!(PacketKind::from_id(31), Some(PacketKind::GetCvar));
    assert_eq!(PacketKind::from_id(32), None);
}

#[test]
fn tag_width_follows_protocol() {
    assert_eq!(ProtocolVersion(15).packet_kind_bits(), 5);
    assert_eq!(ProtocolVersion(16).packet_kind_bits(), 6);
}

#[test]
fn parse_update_reads_nop_and_stops() {
    let packets = parse_update(vec![0u8], ProtocolVersion(24)).unwrap();
    assert_eq!(packets.len(), 1);
    assert_eq!(packets[0].kind(), PacketKind::Nop);
}

#[test]
fn parse_update_decodes_set_entity_view() {
    // Tag 18 in six bits, then an eleven-bit entity id of five.
    let mut bits = Vec::new();
    for i in 0..6 {
        bits.push((18u32 >> i) & 1 == 1);
    }
    for i in 0..11 {
        bits.push((5u32 >> i) & 1 == 1);
    }
    let mut bytes = vec![0u8; (bits.len() + 7) / 8];
    for (i, &b) in bits.iter().enumerate() {
        if b {
            bytes[i / 8] |= 1 << (i % 8);
        }
    }
    let packets = parse_update(bytes, ProtocolVersion(24)).unwrap();
    // Seventeen message bits leave seven zero padding bits: one more tag
    // still fits and reads as a no-op.
    assert_eq!(packets.len(), 2);
    match &packets[0] {
        Packet::SetEntityView(id) => assert_eq!(*id, 5),
        other => panic!("unexpected packet {:?}", other),
    }
    assert_eq!(packets[1].kind(), PacketKind::Nop);
}

#[test]
fn unsupported_packet_kind_is_fatal() {
    let data = [0u8; 4];
    let mut bits = BitReader::new(&data);
    let err = Packet::parse_with_kind(&mut bits, PacketKind::Disconnect, ProtocolVersion(24))
        .unwrap_err();
    assert!(matches!(err, ParseError::Unsupported { .. }));
}

#[test]
fn tick_packet_fields() {
    let mut data = Vec::new();
    data.extend_from_slice(&100u32.to_le_bytes());
    data.extend_from_slice(&7u16.to_le_bytes());
    data.extend_from_slice(&9u16.to_le_bytes());
    let mut bits = BitReader::new(&data);
    match Packet::parse_with_kind(&mut bits, PacketKind::Tick, ProtocolVersion(24)).unwrap() {
        Packet::Tick(t) => {
            assert_eq!(t.number, 100);
            assert_eq!(t.fixed_time, 7);
            assert_eq!(t.fixed_time_stdev, 9);
        },
        other => panic!("unexpected packet {:?}", other),
    }
}

#[test]
fn usercmd_delta_reads_flagged_fields() {
    // command_number present (9), everything else absent.
    let mut bits = Vec::new();
    bits.push(true);
    for i in 0..32 {
        bits.push((9u32 >> i) & 1 == 1);
    }
    for _ in 0..12 {
        bits.push(false);
    }
    let mut bytes = vec![0u8; (bits.len() + 7) / 8];
    for (i, &b) in bits.iter().enumerate() {
        if b {
            bytes[i / 8] |= 1 << (i % 8);
        }
    }
    let mut r = BitReader::new(&bytes);
    let cmd = UserCmdDelta::parse(&mut r).unwrap();
    assert_eq!(cmd.command_number, Some(9));
    assert_eq!(cmd.tick_count, None);
    assert_eq!(cmd.weapon_select, None);
    assert_eq!(cmd.mouse_delta, (None, None));
}

#[test]
fn signon_state_keeps_raw_out_of_range_byte() {
    let mut data = Vec::new();
    data.push(200u8);
    data.extend_from_slice(&3u32.to_le_bytes());
    let mut bits = BitReader::new(&data);
    match Packet::parse_with_kind(&mut bits, PacketKind::SignonState, ProtocolVersion(24)).unwrap()
    {
        Packet::SignonState(s) => {
            assert_eq!(s.state, Err(200));
            assert_eq!(s.server_count, 3);
        },
        other => panic!("unexpected packet {:?}", other),
    }
}

#[test]
fn sound_delta_reads_flagged_fields() {
    // entity present (7), sound index absent, flags absent, channel present
    // (2 = voice), ambient set, sentence clear.
    let mut bits = Vec::new();
    bits.push(true);
    for i in 0..11 {
        bits.push((7u32 >> i) & 1 == 1);
    }
    bits.push(false);
    bits.push(false);
    bits.push(true);
    for i in 0..3 {
        bits.push((2u32 >> i) & 1 == 1);
    }
    bits.push(true);
    bits.push(false);
    let mut bytes = vec![0u8; (bits.len() + 7) / 8];
    for (i, &b) in bits.iter().enumerate() {
        if b {
            bytes[i / 8] |= 1 << (i % 8);
        }
    }
    let mut r = BitReader::new(&bytes);
    let d = SoundDelta::parse(&mut r).unwrap();
    assert_eq!(d.entity, Some(7));
    assert_eq!(d.sound_index, None);
    assert_eq!(d.flags, None);
    assert_eq!(d.channel, Some(Channel::Voice));
    assert!(d.ambient);
    assert!(!d.sentence);

    let base = Sound::default();
    let applied = d.apply(&base);
    assert_eq!(applied.entity, 7);
    assert_eq!(applied.sound_index, base.sound_index);
    assert_eq!(applied.flags, Flags(0));
    assert_eq!(applied.channel, Channel::Voice);
    assert!(applied.ambient);
}

#[test]
fn sequence_update_round_trip() {
    assert_eq!(SequenceUpdate::derive(5, 5), SequenceUpdate::Unchanged);
    assert_eq!(SequenceUpdate::derive(5, 6), SequenceUpdate::Increment);
    assert_eq!(SequenceUpdate::derive(5, 9), SequenceUpdate::Full(9));
    assert_eq!(SequenceUpdate::Unchanged.apply(5), 5);
    assert_eq!(SequenceUpdate::Increment.apply(5), 6);
    assert_eq!(SequenceUpdate::Full(9).apply(5), 9);

    // Wire forms: unchanged is a single set bit; a full value has two clear
    // bits then ten value bits.
    let mut bits = vec![false, false];
    for i in 0..10 {
        bits.push((300u32 >> i) & 1 == 1);
    }
    let mut bytes = vec![0u8; (bits.len() + 7) / 8];
    for (i, &b) in bits.iter().enumerate() {
        if b {
            bytes[i / 8] |= 1 << (i % 8);
        }
    }
    let mut r = BitReader::new(&bytes);
    assert_eq!(SequenceUpdate::parse(&mut r).unwrap(), SequenceUpdate::Full(300));
    let one = [0x01u8];
    let mut r2 = BitReader::new(&one);
    assert_eq!(SequenceUpdate::parse(&mut r2).unwrap(), SequenceUpdate::Unchanged);
}
