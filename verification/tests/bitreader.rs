use dem::bits::{BitReader, Bits, Coord, InsufficientBits};

/// Pack bits, first bit lowest, into little-endian bytes.
fn pack(bits: &[bool]) -> Vec<u8> {
    let mut bytes = vec![0u8; (bits.len() + 7) / 8];
    for (i, &b) in bits.iter().enumerate() {
        if b {
            bytes[i / 8] |= 1 << (i % 8);
        }
    }
    bytes
}

fn push_byte(out: &mut Vec<bool>, byte: u8) {
    for i in 0..8 {
        out.push((byte >> i) & 1 == 1);
    }
}

#[test]
fn it_works() {
}

#[test]
fn nibbles_and_underflow() {
    let data = [0xABu8, 0xCD];
    let mut r = BitReader::new(&data);
    assert_eq!(r.read_bits(4).unwrap(), 0xB);
    assert_eq!(r.read_bits(4).unwrap(), 0xA);
    assert_eq!(r.read_bits(4).unwrap(), 0xD);
    assert_eq!(r.read_bits(4).unwrap(), 0xC);
    assert_eq!(
        r.read_bit().unwrap_err(),
        InsufficientBits { requested: 1, available: 0 }
    );
}

#[test]
fn remaining_counts_down() {
    let data = [0x12u8, 0x34, 0x56];
    let mut r = BitReader::new(&data);
    assert_eq!(r.read_bits(5).unwrap(), 0x12 & 0x1F);
    assert_eq!(r.remaining_bits(), 24 - 5);
    r.read_bits(10).unwrap();
    assert_eq!(r.remaining_bits(), 24 - 15);
}

#[test]
fn full_register_read() {
    let data = [0x78u8, 0x56, 0x34, 0x12];
    let mut r = BitReader::new(&data);
    assert_eq!(r.read_bits(32).unwrap(), 0x12345678);
    assert_eq!(r.remaining_bits(), 0);
    assert!(r.read_bit().is_err());
}

#[test]
fn underflow_reports_previous_available() {
    let data = [0xFFu8];
    let mut r = BitReader::new(&data);
    assert_eq!(r.read_bits(4).unwrap(), 0xF);
    assert_eq!(
        r.read_bits(8).unwrap_err(),
        InsufficientBits { requested: 8, available: 4 }
    );
}

#[test]
fn var_u32_leb_example() {
    let data = [0xE5u8, 0x8E, 0x26];
    let mut r = BitReader::new(&data);
    assert_eq!(r.read_var_u32().unwrap(), 624485);
    assert_eq!(r.remaining_bits(), 0);
}

#[test]
fn var_u32_single_byte() {
    let data = [0x05u8, 0xFF];
    let mut r = BitReader::new(&data);
    assert_eq!(r.read_var_u32().unwrap(), 5);
    assert_eq!(r.remaining_bits(), 8);
}

#[test]
fn var_selector_widths() {
    // Selector 0: four bits follow.
    let mut bits = vec![false, false, true, false, true, false];
    bits.extend([false, false]);
    let data = pack(&bits);
    let mut r = BitReader::new(&data);
    assert_eq!(r.read_var().unwrap(), 0b0101);
}

#[test]
fn coord_without_flags_is_zero() {
    let data = [0x00u8];
    let mut r = BitReader::new(&data);
    let c = r.read_coord().unwrap();
    assert_eq!(c, Coord { negative: false, integer: 0, fraction: 0 });
    assert_eq!(c.value_32nds(), 0);
    // Only the two presence flags were consumed: no sign bit.
    assert_eq!(r.remaining_bits(), 6);
}

#[test]
fn coord_integer_and_fraction() {
    // integral=1, fractional=1, sign=1, integer wire 2 (-> 3), fraction 7.
    let mut bits = vec![true, true, true];
    for i in 0..14 {
        bits.push((2u32 >> i) & 1 == 1);
    }
    for i in 0..5 {
        bits.push((7u32 >> i) & 1 == 1);
    }
    let data = pack(&bits);
    let mut r = BitReader::new(&data);
    let c = r.read_coord().unwrap();
    assert_eq!(c, Coord { negative: true, integer: 3, fraction: 7 });
    assert_eq!(c.value_32nds(), -(3 * 32 + 7));
}

#[test]
fn read_string_utf8_and_failure() {
    let data = [b'h', b'i', 0x00, 0xFF];
    let mut r = BitReader::new(&data);
    assert_eq!(r.read_string().unwrap(), "hi");
    let bad = [0xFFu8, 0x00];
    let mut r2 = BitReader::new(&bad);
    assert!(matches!(
        r2.read_string().unwrap_err(),
        dem::bits::ReadStringError::Utf8
    ));
}

#[test]
fn copy_into_round_trips_bits() {
    let data = [0xABu8, 0xCD];
    let mut direct = BitReader::new(&data);
    let mut source = BitReader::new(&data);
    let blob = Bits::copy_into(&mut source, 11).unwrap();
    let mut back = blob.reader();
    for _ in 0..11 {
        assert_eq!(back.read_bit().unwrap(), direct.read_bit().unwrap());
    }
    assert_eq!(source.remaining_bits(), 16 - 11);
}

#[test]
fn bits_len_counts_stored_bytes_and_trailing() {
    let data = [0xFFu8, 0x0F];
    let mut source = BitReader::new(&data);
    let blob = Bits::copy_into(&mut source, 12).unwrap();
    // One whole byte, one partial byte, and four trailing bits.
    assert_eq!(blob.bits_len(), 2 * 8 + 4);
    assert_eq!(blob.raw_bytes(), &[0xFF, 0x0F]);
}

#[test]
fn read_u8_array_collects_bytes() {
    let data = [1u8, 2, 3, 4];
    let mut r = BitReader::new(&data);
    r.read_bits(4).unwrap();
    let out = r.read_u8_array(3).unwrap();
    // Unaligned byte reads splice across byte boundaries.
    assert_eq!(out, vec![0x20, 0x30, 0x40]);
}

#[test]
fn vec3_reads_flagged_components() {
    // Flags x=1, y=0, z=0, then one zero-flag coordinate.
    let mut bits = vec![true, false, false];
    bits.extend([false, false]);
    let data = pack(&bits);
    let mut r = BitReader::new(&data);
    let (x, y, z) = r.read_vec3().unwrap();
    assert_eq!(x, Coord { negative: false, integer: 0, fraction: 0 });
    assert_eq!(y, x);
    assert_eq!(z, x);
}

#[test]
fn signed_reads_reinterpret() {
    let data = [0xFFu8, 0xFF];
    let mut r = BitReader::new(&data);
    assert_eq!(r.read_i16().unwrap(), -1i16);
    let mut bits = Vec::new();
    push_byte(&mut bits, 0x80);
    let data2 = pack(&bits);
    let mut r2 = BitReader::new(&data2);
    assert_eq!(r2.read_i8().unwrap(), -128i8);
}
