use spc_converter::container::{
    checksum, decode, decrypt, rle0_decode, rle8_decode, BufferEntry, ContainerHeader,
    ENCRYPTION_KEY,
};
use spc_converter::header::{BufferSection, PackChild, PackHeader, PackVar, ParseError};
use spc_converter::le::{read_u16, read_u32, read_u64};
use spc_converter::text::{decimal, hex8, same_text};

#[test]
fn little_endian_reads() {
    let b = [0x01u8, 0x02, 0x03, 0x04, 0x05, 0x06, 0x07, 0x08, 0x09];
    assert_eq!(read_u16(&b, 0), 0x0201);
    assert_eq!(read_u32(&b, 1), 0x05040302);
    assert_eq!(read_u64(&b, 1), 0x0908070605040302);
}

#[test]
fn checksum_known_values() {
    assert_eq!(checksum(&[]), 0xFFFF_FFFF);
    assert_eq!(checksum(&[0, 0, 0, 0]), 0);
    assert_eq!(checksum(&[1, 0, 0, 0]), 1);
    assert_eq!(checksum(&[1, 2, 3, 4, 5, 6, 7]), 0x0402_070F);
}

#[test]
fn checksum_detects_any_single_byte_change() {
    let clean: Vec<u8> = (0u8..23).map(|x| x.wrapping_mul(37)).collect();
    let stored = checksum(&clean);
    for k in 0..clean.len() {
        for delta in [1u8, 0x80, 0xFF] {
            let mut corrupted = clean.clone();
            corrupted[k] = corrupted[k].wrapping_add(delta);
            assert_ne!(checksum(&corrupted), stored, "byte {} changed by {}", k, delta);
        }
    }
}

#[test]
fn rle8_example() {
    assert_eq!(rle8_decode(&[3, b'A', 2, b'B']), b"AAABB".to_vec());
}

#[test]
fn rle8_ignores_unpaired_byte_and_zero_counts() {
    assert_eq!(rle8_decode(&[]), Vec::<u8>::new());
    assert_eq!(rle8_decode(&[0, b'Z', 1, b'Q', 5]), b"Q".to_vec());
}

#[test]
fn rle0_sets_block_size_then_repeats() {
    assert_eq!(rle0_decode(&[0, 2, 3, b'x', b'y']), b"xyxyxy".to_vec());
}

#[test]
fn rle0_nonzero_control_reuses_block_size() {
    let input = [0, 2, 1, b'x', b'y', 2, b'a', b'b', 3, b'c', b'd'];
    assert_eq!(rle0_decode(&input), b"xyababcdcdcd".to_vec());
}

#[test]
fn rle0_default_block_is_one_byte() {
    assert_eq!(rle0_decode(&[4, b'k']), b"kkkk".to_vec());
}

#[test]
fn rle0_stops_on_truncated_record() {
    assert_eq!(rle0_decode(&[2, b'a', 0]), b"aa".to_vec());
    assert_eq!(rle0_decode(&[2, b'a', 0, 3]), b"aa".to_vec());
    assert_eq!(rle0_decode(&[2, b'a', 0, 3, 1, b'x']), b"aa".to_vec());
    assert_eq!(rle0_decode(&[0, 2, 2, b'x', b'y', 1, b'z']), b"xyxy".to_vec());
}

#[test]
fn decode_dispatches_on_encoding() {
    let data = [0u8, 2, 1, b'a', b'b'];
    assert_eq!(decode(&data, 0), data.to_vec());
    assert_eq!(decode(&data, 1), b"a".to_vec());
    assert_eq!(decode(&data, 2), b"ab".to_vec());
    assert_eq!(decode(&data, 9), data.to_vec());
}

#[test]
fn decrypt_known_values() {
    let mut data: Vec<u8> = (0u8..10).collect();
    decrypt(&mut data, ENCRYPTION_KEY, 0x1234_5678, 4);
    assert_eq!(data, vec![0x94, 0xe7, 0xd5, 0xe9, 0x96, 0xe0, 0xd3, 0xe0, 0x08, 0x09]);

    let mut zeros = vec![0u8; 8];
    decrypt(&mut zeros, ENCRYPTION_KEY, 0, 4);
    assert_eq!(zeros, vec![0xec, 0xbc, 0xeb, 0xfc, 0xea, 0xbc, 0xeb, 0xfc]);
}

#[test]
fn decrypt_leaves_short_input_and_zero_stride_alone() {
    let mut short = vec![1u8, 2, 3];
    decrypt(&mut short, ENCRYPTION_KEY, 7, 4);
    assert_eq!(short, vec![1, 2, 3]);
    let mut data = vec![9u8; 12];
    decrypt(&mut data, ENCRYPTION_KEY, 7, 0);
    assert_eq!(data, vec![9u8; 12]);
}

#[test]
fn container_header_fields() {
    let mut b = vec![0u8; 80];
    b[0..4].copy_from_slice(&0x5350_4330u32.to_le_bytes());
    b[4..8].copy_from_slice(&0xAABB_CCDDu32.to_le_bytes());
    b[8..16].copy_from_slice(&3u64.to_le_bytes());
    b[16..24].copy_from_slice(&80u64.to_le_bytes());
    b[24..28].copy_from_slice(&0x0102_0304u32.to_le_bytes());
    b[28..32].copy_from_slice(&[0xEE; 4]);
    b[32..40].copy_from_slice(&152u64.to_le_bytes());
    let h = ContainerHeader::from_bytes(&b).unwrap();
    assert_eq!(h.ident, ContainerHeader::MAGIC);
    assert_eq!(h.checksum, 0xAABB_CCDD);
    assert_eq!(h.num_buffers, 3);
    assert_eq!(h.buffers_table_ofs, 80);
    assert_eq!(h.seed, 0x0102_0304);
    assert_eq!(h.buffers_data_ofs, 152);
    match ContainerHeader::from_bytes(&b[..79]) {
        Err(ParseError::FileTooSmall { expected, actual }) => {
            assert_eq!(expected, 80);
            assert_eq!(actual, 79);
        }
        other => panic!("unexpected {:?}", other),
    }
}

#[test]
fn record_readers() {
    let mut b = vec![0u8; 104];
    for i in 0..13 {
        b[8 * i..8 * i + 8].copy_from_slice(&((i as u64 + 1) * 10).to_le_bytes());
    }
    let h = PackHeader::from_bytes(&b).unwrap();
    assert_eq!(h.type_name_offset, 10);
    assert_eq!(h.owner_offset, 20);
    assert_eq!(h.name_offset, 30);
    assert_eq!(h.num_vars, 40);
    assert_eq!(h.num_children, 50);
    assert_eq!(h.strings, BufferSection { offset: 60, size: 70 });
    assert_eq!(h.vars, BufferSection { offset: 80, size: 90 });
    assert_eq!(h.children, BufferSection { offset: 100, size: 110 });
    assert_eq!(h.data, BufferSection { offset: 120, size: 130 });
    let v = PackVar::from_bytes(&b[0..40]);
    assert_eq!((v.owner_offset, v.name_offset, v.type_offset, v.data_offset, v.bytes_size), (10, 20, 30, 40, 50));
    let c = PackChild::from_bytes(&b[8..40]);
    assert_eq!((c.owner_offset, c.name_offset, c.data_offset, c.size), (20, 30, 40, 50));
    let mut e = vec![0u8; 24];
    e[0] = 2;
    e[1..8].copy_from_slice(&[0xFF; 7]);
    e[8..16].copy_from_slice(&5u64.to_le_bytes());
    e[16..24].copy_from_slice(&6u64.to_le_bytes());
    let entry = BufferEntry::from_bytes(&e);
    assert_eq!((entry.encoding, entry.offset, entry.size), (2, 5, 6));
    assert!(matches!(
        PackHeader::from_bytes(&b[..103]),
        Err(ParseError::FileTooSmall { expected: 104, actual: 103 })
    ));
}

#[test]
fn text_helpers() {
    assert_eq!(hex8(0x5350_4330), "53504330");
    assert_eq!(hex8(0xAB), "000000AB");
    assert_eq!(decimal(0), "0");
    assert_eq!(decimal(4096), "4096");
    assert!(same_text("data", "data"));
    assert!(!same_text("data", "date"));
    assert!(!same_text("data", "dat"));
}
