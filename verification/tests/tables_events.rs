use dem::bits::{BitReader, Bits};
use dem::event_data::{DecodedEvent, GameEventError, Value};
use dem::game_events::{GameEventInfo, GameEventList, Kind};
use dem::packets::CreateStringTable;
use dem::parse::{DecompressionError, ParseError};
use dem::string_table::{Extra, NewStringTable, StringTable};
use dem::event_data::GameEventData;

/// Pack bits, first bit lowest, into little-endian bytes.
fn pack(bits: &[bool]) -> Vec<u8> {
    let mut bytes = vec![0u8; (bits.len() + 7) / 8];
    for (i, &b) in bits.iter().enumerate() {
        if b {
            bytes[i / 8] |= 1 << (i % 8);
        }
    }
    bytes
}

fn push_byte(out: &mut Vec<bool>, byte: u8) {
    for i in 0..8 {
        out.push((byte >> i) & 1 == 1);
    }
}

fn push_str(out: &mut Vec<bool>, s: &str) {
    for &b in s.as_bytes() {
        push_byte(out, b);
    }
    push_byte(out, 0);
}

/// One predicted-index row inserting `name`, without extra data.
fn push_simple_row(out: &mut Vec<bool>, name: &str) {
    out.push(true); // use the predicted index
    out.push(true); // has a string
    out.push(false); // not a history back-reference
    push_str(out, name);
    out.push(false); // no extra data
}

#[test]
fn update_single_predicted_row() {
    let mut table = StringTable::create(1, 8, None);
    let mut bits = Vec::new();
    push_simple_row(&mut bits, "abc");
    let data = pack(&bits);
    let mut reader = BitReader::new(&data);
    table.update(&mut reader, 1).unwrap();
    assert_eq!(table.strings.len(), 1);
    assert_eq!(table.strings[0].0, "abc");
    assert_eq!(table.strings[0].1, Extra::Empty);
}

#[test]
fn update_predicted_rows_walk_in_order() {
    let mut table = StringTable::create(3, 8, None);
    let mut bits = Vec::new();
    push_simple_row(&mut bits, "a");
    push_simple_row(&mut bits, "b");
    push_simple_row(&mut bits, "c");
    let data = pack(&bits);
    let mut reader = BitReader::new(&data);
    table.update(&mut reader, 3).unwrap();
    assert_eq!(table.strings[0].0, "a");
    assert_eq!(table.strings[1].0, "b");
    assert_eq!(table.strings[2].0, "c");
}

#[test]
fn update_partial_row_uses_history() {
    let mut table = StringTable::create(2, 8, None);
    let mut bits = Vec::new();
    push_simple_row(&mut bits, "abc");
    // Second row: predicted index, string via history slot zero, keeping
    // two bytes, then the suffix.
    bits.push(true);
    bits.push(true);
    bits.push(true);
    for i in 0..5 {
        bits.push((0u32 >> i) & 1 == 1); // history index 0
    }
    for i in 0..5 {
        bits.push((2u32 >> i) & 1 == 1); // keep two bytes
    }
    push_str(&mut bits, "z");
    bits.push(false);
    let data = pack(&bits);
    let mut reader = BitReader::new(&data);
    table.update(&mut reader, 2).unwrap();
    assert_eq!(table.strings[0].0, "abc");
    assert_eq!(table.strings[1].0, "abz");
}

#[test]
fn update_bad_history_index_fails_without_writes() {
    let mut table = StringTable::create(1, 8, None);
    let mut bits = Vec::new();
    bits.push(true);
    bits.push(true);
    bits.push(true); // partial, but the history is empty
    for _ in 0..10 {
        bits.push(false);
    }
    push_str(&mut bits, "x");
    bits.push(false);
    let data = pack(&bits);
    let mut reader = BitReader::new(&data);
    let err = table.update(&mut reader, 1).unwrap_err();
    match err {
        ParseError::OutOfBounds { value, min, max, .. } => {
            assert_eq!(value, 0);
            assert_eq!(min, 0);
            assert_eq!(max, 0);
        },
        other => panic!("unexpected error {:?}", other),
    }
    assert_eq!(table.strings[0].0, "");
    assert_eq!(table.strings[0].1, Extra::Empty);
}

#[test]
fn update_row_with_fixed_extra() {
    let mut table = StringTable::create(1, 8, Some(4));
    let mut bits = Vec::new();
    bits.push(true);
    bits.push(false); // no string
    bits.push(true); // extra present
    for i in 0..4 {
        bits.push((9u32 >> i) & 1 == 1);
    }
    let data = pack(&bits);
    let mut reader = BitReader::new(&data);
    table.update(&mut reader, 1).unwrap();
    assert_eq!(table.strings[0].1, Extra::Bits { count: 4, data: 9 });
}

fn make_packet(compressed: bool, payload: Vec<u8>, entries: u16) -> CreateStringTable {
    CreateStringTable {
        name: String::from("test"),
        max_entries: 8,
        entries,
        fixed_userdata_size: None,
        compressed,
        data: Bits::from_bytes(payload),
    }
}

#[test]
fn compressed_size_too_small_is_rejected() {
    let mut payload = Vec::new();
    payload.extend_from_slice(&0u32.to_le_bytes());
    payload.extend_from_slice(&3u32.to_le_bytes());
    payload.extend_from_slice(b"SNAP");
    let err = NewStringTable::from_packet(make_packet(true, payload, 0)).unwrap_err();
    assert_eq!(
        err,
        ParseError::Decompression(DecompressionError::CompressedSizeTooSmall)
    );
}

#[test]
fn lzss_yields_empty_table() {
    let mut payload = Vec::new();
    payload.extend_from_slice(&0u32.to_le_bytes());
    payload.extend_from_slice(&4u32.to_le_bytes());
    payload.extend_from_slice(b"LZSS");
    let t = NewStringTable::from_packet(make_packet(true, payload, 0)).unwrap();
    assert_eq!(t.name, "test");
    assert_eq!(t.table.strings.len(), 0);
    assert_eq!(t.table.capacity(), Some(8));
}

#[test]
fn bad_compression_magic_is_rejected() {
    let mut payload = Vec::new();
    payload.extend_from_slice(&0u32.to_le_bytes());
    payload.extend_from_slice(&4u32.to_le_bytes());
    payload.extend_from_slice(b"WHAT");
    let err = NewStringTable::from_packet(make_packet(true, payload, 0)).unwrap_err();
    assert!(matches!(
        err,
        ParseError::Decompression(DecompressionError::BadCompressionType(_))
    ));
}

#[test]
fn snappy_payload_round_trips() {
    let mut rows = Vec::new();
    push_simple_row(&mut rows, "abc");
    let raw = pack(&rows);
    let compressed = snap::raw::Encoder::new().compress_vec(&raw).unwrap();
    let mut payload = Vec::new();
    payload.extend_from_slice(&(raw.len() as u32).to_le_bytes());
    payload.extend_from_slice(&((compressed.len() + 4) as u32).to_le_bytes());
    payload.extend_from_slice(b"SNAP");
    payload.extend_from_slice(&compressed);
    let t = NewStringTable::from_packet(make_packet(true, payload, 1)).unwrap();
    assert_eq!(t.table.strings[0].0, "abc");
}

#[test]
fn uncompressed_payload_updates_rows() {
    let mut rows = Vec::new();
    push_simple_row(&mut rows, "xy");
    let t = NewStringTable::from_packet(make_packet(false, pack(&rows), 1)).unwrap();
    assert_eq!(t.table.strings[0].0, "xy");
    assert_eq!(t.table.fixed_extra_size(), None);
}

fn schema_one_str() -> GameEventList {
    GameEventList(vec![GameEventInfo {
        index: 42,
        name: String::from("x"),
        properties: vec![(Kind::Str, String::from("n"))],
    }])
}

#[test]
fn tiny_game_event_fails_before_lookup() {
    let data = [0xFFu8];
    let mut r = BitReader::new(&data);
    let payload = Bits::copy_into(&mut r, 8).unwrap();
    let err = DecodedEvent::parse(&schema_one_str(), &payload).unwrap_err();
    assert_eq!(err, GameEventError::TooSmall);
}

#[test]
fn game_event_decodes_against_schema() {
    let mut bits = Vec::new();
    for i in 0..9 {
        bits.push((42u32 >> i) & 1 == 1);
    }
    push_str(&mut bits, "ok");
    let data = pack(&bits);
    let mut r = BitReader::new(&data);
    let payload = Bits::copy_into(&mut r, 9 + 8 * 2 + 8).unwrap();
    let ev = DecodedEvent::parse(&schema_one_str(), &payload).unwrap();
    assert_eq!(ev.name, "x");
    assert_eq!(ev.data.0.len(), 1);
    assert_eq!(ev.data.0[0].0, "n");
    assert_eq!(ev.data.0[0].1, Value::Str(String::from("ok")));
}

#[test]
fn unknown_event_index_is_reported() {
    let mut bits = Vec::new();
    for i in 0..9 {
        bits.push((7u32 >> i) & 1 == 1);
    }
    push_byte(&mut bits, 0);
    let data = pack(&bits);
    let mut r = BitReader::new(&data);
    let payload = Bits::copy_into(&mut r, 17).unwrap();
    let err = DecodedEvent::parse(&schema_one_str(), &payload).unwrap_err();
    assert_eq!(err, GameEventError::UnknownEventIndex(7));
}

#[test]
fn game_event_list_parses_nested_records() {
    // One record: index 42, name "x", one Str property "n", End.
    let mut inner = Vec::new();
    for i in 0..9 {
        inner.push((42u32 >> i) & 1 == 1);
    }
    push_str(&mut inner, "x");
    for i in 0..3 {
        inner.push((1u32 >> i) & 1 == 1);
    }
    push_str(&mut inner, "n");
    for _ in 0..3 {
        inner.push(false);
    }
    let inner_bytes = pack(&inner);
    let mut outer = Vec::new();
    for i in 0..9 {
        outer.push((1u32 >> i) & 1 == 1);
    }
    for i in 0..20 {
        outer.push(((inner.len() as u32) >> i) & 1 == 1);
    }
    for &b in &inner_bytes {
        push_byte(&mut outer, b);
    }
    let data = pack(&outer);
    let mut r = BitReader::new(&data);
    let list = GameEventList::parse(&mut r).unwrap();
    assert_eq!(list.0.len(), 1);
    assert_eq!(list.0[0].index, 42);
    assert_eq!(list.0[0].name, "x");
    assert_eq!(list.0[0].properties, vec![(Kind::Str, String::from("n"))]);
}

#[test]
fn string_tables_frame_full_dump() {
    // One table named "t": two rows, the second with a two-byte buffer, and
    // no client table.
    let mut bits = Vec::new();
    push_byte(&mut bits, 1); // table count
    push_str(&mut bits, "t");
    push_byte(&mut bits, 2); // row count, low half of a sixteen-bit field
    push_byte(&mut bits, 0);
    push_str(&mut bits, "first");
    bits.push(false);
    push_str(&mut bits, "second");
    bits.push(true);
    push_byte(&mut bits, 2);
    push_byte(&mut bits, 0);
    push_byte(&mut bits, 0xDE);
    push_byte(&mut bits, 0xAD);
    bits.push(false); // no client table
    let frame = dem::frame::StringTablesFrame::from_raw(pack(&bits));
    let tables = frame.parse().unwrap();
    assert_eq!(tables.0.len(), 1);
    assert_eq!(tables.0[0].0, "t");
    let primary = &tables.0[0].1.primary;
    assert_eq!(primary.strings.len(), 2);
    assert_eq!(primary.strings[0], (String::from("first"), Extra::Empty));
    assert_eq!(
        primary.strings[1],
        (String::from("second"), Extra::Bytes(vec![0xDE, 0xAD]))
    );
    assert!(tables.0[0].1.client.is_none());
    assert_eq!(primary.capacity(), None);
}

#[test]
fn event_data_getters_match_kinds() {
    let data = GameEventData(vec![
        (String::from("w"), Value::Str(String::from("gun"))),
        (String::from("hp"), Value::I16(-3)),
        (String::from("crit"), Value::Bool(true)),
    ]);
    assert_eq!(data.get_str("w").unwrap(), "gun");
    assert_eq!(data.get_i16("hp"), Some(-3));
    assert_eq!(data.get_bool("crit"), Some(true));
    assert_eq!(data.get_i32("hp"), None);
    assert_eq!(data.get_u8("missing"), None);
}
