use bit_vec::BitVec;
use trace_decoder::frontend::e_packet::{
    build_packet_bits, check_packet, decode_packet, decode_payload, parse_bits, sign_extend,
    u16_from_le_bytes, DecodeError, Packet,
};
use trace_decoder::frontend::encodings::{Fmt, Privilege, Subfmt, UInt};

/// Appends `width` bits of `value`, least significant first.
fn put(bits: &mut Vec<bool>, value: u128, width: usize) {
    for i in 0..width {
        bits.push((value >> i) & 1 == 1);
    }
}

/// Packs bits into bytes, least significant bit of each byte first.
fn pack(bits: &[bool]) -> Vec<u8> {
    let mut bytes = vec![0u8; (bits.len() + 7) / 8];
    for (i, b) in bits.iter().enumerate() {
        if *b {
            bytes[i / 8] |= 1 << (i % 8);
        }
    }
    bytes
}

/// Rebuilds and decodes a packet the way the trace reader does.
fn decode(num_bits_uncompressed: u16, payload: &[u8]) -> Result<Packet, DecodeError> {
    decode_payload(payload.len() as u8, num_bits_uncompressed, payload)
}

/// Rebuilds, checks and decodes a packet step by step.
fn decode_in_steps(num_bits_uncompressed: u16, payload: &[u8]) -> Result<Packet, DecodeError> {
    let bits = build_packet_bits(payload.len() as u8, num_bits_uncompressed, payload);
    match check_packet(&bits) {
        Some(e) => Err(e),
        None => Ok(decode_packet(bits)),
    }
}

fn bits_of(v: &BitVec) -> Vec<bool> {
    v.iter().collect()
}

#[test]
fn parse_bits_reads_lsb_first_and_consumes() {
    // from_bytes lays bits out most significant first: 1,0,1,0,0,0,0,0, 1,1,1,1,1,1,1,1
    let mut v = BitVec::from_bytes(&[0b1010_0000, 0xff]);
    assert_eq!(parse_bits(&mut v, 3), UInt::U8(0b101));
    assert_eq!(v.len(), 13);
    assert_eq!(parse_bits(&mut v, 0), UInt::U8(0));
    assert_eq!(parse_bits(&mut v, 13), UInt::U16(0b1_1111_1110_0000));
    assert_eq!(v.len(), 0);
}

#[test]
fn parse_bits_widths_select_variant() {
    let mut v = BitVec::from_elem(128 + 64 + 33 + 17 + 9, true);
    assert_eq!(parse_bits(&mut v, 9), UInt::U16(0x1ff));
    assert_eq!(parse_bits(&mut v, 17), UInt::U32(0x1_ffff));
    assert_eq!(parse_bits(&mut v, 33), UInt::U64(0x1_ffff_ffff));
    assert_eq!(parse_bits(&mut v, 64), UInt::U64(u64::MAX));
    assert_eq!(parse_bits(&mut v, 128), UInt::U128(u128::MAX));
    assert!(v.is_empty());
}

#[test]
fn parse_bits_split_law_on_values() {
    let bytes = [0x5a, 0xc3, 0x81];
    let mut whole = BitVec::from_bytes(&bytes);
    let mut parts = BitVec::from_bytes(&bytes);
    let all = parse_bits(&mut whole, 20).to_u32().unwrap();
    let low = parse_bits(&mut parts, 7).to_u32().unwrap();
    let high = parse_bits(&mut parts, 13).to_u32().unwrap();
    assert_eq!(all, low + (high << 7));
    assert_eq!(all, low | (high << 7));
    assert_eq!(bits_of(&whole), bits_of(&parts));
}

#[test]
fn build_packet_bits_truncates() {
    let bits = build_packet_bits(2, 5, &[0b0001_0110, 0xff]);
    assert_eq!(bits_of(&bits), vec![false, true, true, false, true]);
}

#[test]
fn build_packet_bits_sign_extends() {
    let bits = build_packet_bits(1, 12, &[0b1000_0001]);
    let mut expected = vec![true, false, false, false, false, false, false, true];
    expected.extend([true; 4]);
    assert_eq!(bits_of(&bits), expected);

    let bits = build_packet_bits(1, 11, &[0b0111_1111]);
    let mut expected = vec![true; 7];
    expected.extend([false; 4]);
    assert_eq!(bits_of(&bits), expected);

    let bits = build_packet_bits(1, 8, &[0b0111_1111]);
    assert_eq!(bits.len(), 8);
}

#[test]
fn decodes_address_packet() {
    let mut bits = Vec::new();
    put(&mut bits, 0b10, 2);
    put(&mut bits, 0x4000_1234, 63);
    put(&mut bits, 1, 1);
    put(&mut bits, 0, 1);
    let payload = pack(&bits);
    assert_eq!(payload.len(), 9);
    let p = decode(67, &payload).unwrap();
    assert_eq!(
        p,
        Packet::FMT_2 { fmt: Fmt::Fmt_2, address: 0x8000_2468, notify: true, updiscon: false }
    );
}

#[test]
fn decodes_start_packet_with_sign_extension() {
    // address 0x7fff_ffff_ffff_fff0 (63 bits): its top bits are all ones,
    // so the encoder drops them and the reader extends the last bit.
    let mut bits = Vec::new();
    put(&mut bits, 0b11, 2);
    put(&mut bits, 0b00, 2);
    put(&mut bits, 1, 1);
    put(&mut bits, 3, 3);
    put(&mut bits, 0x0123_4567_89ab_cdef, 64);
    put(&mut bits, 0x7fff_ffff_ffff_fff0, 63);
    assert_eq!(bits.len(), 135);
    let full = pack(&bits);
    let p = decode(135, &full).unwrap();
    let expected = Packet::FMT_3 {
        fmt: Fmt::Fmt_3,
        subfmt: Subfmt::Start,
        branch: Some(true),
        privilege: Some(Privilege::P_M),
        time: Some(0x0123_4567_89ab_cdef),
        ecause: None,
        interrupt: None,
        thaddr: None,
        address: Some(0xffff_ffff_ffff_ffe0),
        tval: None,
    };
    assert_eq!(p, expected);
    // the first 80 bits end in a one, so 10 bytes carry the whole packet
    let short = &full[..10];
    assert_eq!(decode(135, short).unwrap(), expected);
}

#[test]
fn decodes_trap_packet() {
    let mut bits = Vec::new();
    put(&mut bits, 0b11, 2);
    put(&mut bits, 0b01, 2);
    put(&mut bits, 0, 1);
    put(&mut bits, 1, 3);
    put(&mut bits, 42, 64);
    put(&mut bits, 0x0b, 8);
    put(&mut bits, 1, 1);
    put(&mut bits, 0, 1);
    put(&mut bits, 0x100, 63);
    put(&mut bits, 0xdead_beef, 64);
    put(&mut bits, 0, 1);
    assert_eq!(bits.len(), 210);
    let p = decode(209, &pack(&bits)).unwrap();
    assert_eq!(
        p,
        Packet::FMT_3 {
            fmt: Fmt::Fmt_3,
            subfmt: Subfmt::Trap,
            branch: Some(false),
            privilege: Some(Privilege::P_S),
            time: Some(42),
            ecause: Some(0x0b),
            interrupt: Some(true),
            thaddr: Some(false),
            address: Some(0x200),
            tval: Some(0xdead_beef),
        }
    );
}

#[test]
fn decodes_context_packet() {
    let mut bits = Vec::new();
    put(&mut bits, 0b11, 2);
    put(&mut bits, 0b10, 2);
    put(&mut bits, 6, 3);
    put(&mut bits, 7, 64);
    put(&mut bits, 0, 1);
    let p = decode(71, &pack(&bits)).unwrap();
    assert_eq!(
        p,
        Packet::FMT_3 {
            fmt: Fmt::Fmt_3,
            subfmt: Subfmt::Context,
            branch: None,
            privilege: Some(Privilege::P_VS),
            time: Some(7),
            ecause: None,
            interrupt: None,
            thaddr: None,
            address: None,
            tval: None,
        }
    );
}

#[test]
fn decodes_branch_map_packet() {
    let mut bits = Vec::new();
    put(&mut bits, 0b01, 2);
    put(&mut bits, 5, 5);
    put(&mut bits, 0b101_0011, 7);
    put(&mut bits, 0x40, 63);
    put(&mut bits, 0, 1);
    put(&mut bits, 1, 1);
    assert_eq!(bits.len(), 79);
    let p = decode(79, &pack(&bits)).unwrap();
    assert_eq!(
        p,
        Packet::FMT_1 {
            fmt: Fmt::Fmt_1,
            branches: 5,
            branch_map: 0b101_0011,
            address: 0x80,
            notify: false,
            updiscon: true,
        }
    );
}

#[test]
fn decodes_full_branch_map_packet() {
    let mut bits = Vec::new();
    put(&mut bits, 0b01, 2);
    put(&mut bits, 20, 5);
    put(&mut bits, 0x7fff_0001, 31);
    put(&mut bits, 3, 63);
    put(&mut bits, 1, 1);
    put(&mut bits, 1, 1);
    let p = decode(103, &pack(&bits)).unwrap();
    assert_eq!(
        p,
        Packet::FMT_1 {
            fmt: Fmt::Fmt_1,
            branches: 20,
            branch_map: 0x7fff_0001,
            address: 6,
            notify: true,
            updiscon: true,
        }
    );
}

#[test]
fn rejects_short_packets() {
    assert_eq!(decode(1, &[0xff]), Err(DecodeError::InvalidBitCount));
    // format 2 needs 67 bits
    assert_eq!(decode(66, &[0b10; 9]), Err(DecodeError::InvalidBitCount));
    // format 3, start, with a valid privilege but no room for the address
    let mut bits = Vec::new();
    put(&mut bits, 0b11, 2);
    put(&mut bits, 0b00, 2);
    put(&mut bits, 0, 1);
    put(&mut bits, 0, 3);
    assert_eq!(decode(8, &pack(&bits)), Err(DecodeError::InvalidBitCount));
    // format 1 with 9 branches needs a 15-bit map
    let mut bits = Vec::new();
    put(&mut bits, 0b01, 2);
    put(&mut bits, 9, 5);
    put(&mut bits, 0, 73);
    assert_eq!(decode(86, &pack(&bits)), Err(DecodeError::InvalidBitCount));
    assert_eq!(decode(87, &pack(&bits)).map(|_| ()), Ok(()));
}

#[test]
fn rejects_invalid_privilege() {
    for code in [2u128, 7] {
        let mut bits = Vec::new();
        put(&mut bits, 0b11, 2);
        put(&mut bits, 0b10, 2);
        put(&mut bits, code, 3);
        put(&mut bits, 0, 65);
        assert_eq!(decode(71, &pack(&bits)), Err(DecodeError::InvalidPrivilege));
    }
}

#[test]
fn decodes_user_privilege() {
    let mut bits = Vec::new();
    put(&mut bits, 0b11, 2);
    put(&mut bits, 0b10, 2);
    put(&mut bits, 0, 3);
    put(&mut bits, 5, 64);
    put(&mut bits, 0, 1);
    match decode(71, &pack(&bits)).unwrap() {
        Packet::FMT_3 { privilege, time, .. } => {
            assert_eq!(privilege, Some(Privilege::P_U));
            assert_eq!(time, Some(5));
        }
        p => panic!("unexpected packet {:?}", p),
    }
}

#[test]
fn rejects_unimplemented_formats() {
    // format 0
    assert_eq!(decode(8, &[0b0000_0000]), Err(DecodeError::Unimplemented));
    // format 3, support
    assert_eq!(decode(8, &[0b0000_1111]), Err(DecodeError::Unimplemented));
}

#[test]
fn reads_little_endian_u16() {
    assert_eq!(u16_from_le_bytes([0x34, 0x12]), 0x1234);
    assert_eq!(u16_from_le_bytes([0xff, 0x00]), 0xff);
}

#[test]
fn sign_extends() {
    assert_eq!(sign_extend(0b101, 3), -3);
    assert_eq!(sign_extend(0b011, 3), 3);
    assert_eq!(sign_extend(0xffff_ffff_ffff_fffe, 64), -2);
    assert_eq!(sign_extend(0xf0, 4), 0);
    assert_eq!(sign_extend(1, 1), -1);
}

#[test]
fn decode_payload_agrees_with_its_steps() {
    // an address packet, a packet cut short, and a format 0 packet
    let mut addr = Vec::new();
    put(&mut addr, 0b10, 2);
    put(&mut addr, 0x1234, 63);
    put(&mut addr, 1, 1);
    put(&mut addr, 0, 1);
    let addr_bytes = pack(&addr);
    let cases: Vec<(u16, Vec<u8>)> = vec![
        (addr.len() as u16, addr_bytes.clone()),
        (10, addr_bytes),
        (8, vec![0b0000_0000]),
    ];
    for (n, payload) in cases {
        assert_eq!(decode(n, &payload), decode_in_steps(n, &payload));
    }
    assert!(matches!(decode(10, &pack(&addr)), Err(DecodeError::InvalidBitCount)));
    assert!(matches!(decode(8, &[0]), Err(DecodeError::Unimplemented)));
}
