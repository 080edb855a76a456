use spc_converter::container::{checksum, unpack_container, ENCRYPTION_KEY};
use spc_converter::header::ParseError;
use spc_converter::object::StorageObject;
use spc_converter::spc_file::{AxisType, ConfigValue, SpcFile};
use spc_converter::spectre::SpectreFile;

/// An object to be written in the stored format.
struct Obj {
    kind: &'static str,
    owner: &'static str,
    name: &'static str,
    vars: Vec<(&'static str, Vec<u8>)>,
    children: Vec<Obj>,
}

fn obj(name: &'static str) -> Obj {
    Obj { kind: "object", owner: "owner", name, vars: Vec::new(), children: Vec::new() }
}

fn with_var(mut o: Obj, name: &'static str, data: Vec<u8>) -> Obj {
    o.vars.push((name, data));
    o
}

fn with_child(mut o: Obj, c: Obj) -> Obj {
    o.children.push(c);
    o
}

fn doubles(name: &'static str, values: &[f64]) -> Obj {
    let mut o = obj(name);
    for v in values {
        o.vars.push(("", v.to_le_bytes().to_vec()));
    }
    o
}

fn text_child(name: &'static str, text: &str) -> Obj {
    let mut bytes = text.as_bytes().to_vec();
    bytes.push(0);
    with_var(obj(name), "data", bytes)
}

fn put_u64(out: &mut Vec<u8>, v: u64) {
    out.extend_from_slice(&v.to_le_bytes());
}

/// Writes `o`: header, strings, variable table, child table, data.
fn build(o: &Obj) -> Vec<u8> {
    let mut strings: Vec<u8> = Vec::new();
    let mut add = |s: &str| -> u64 {
        let at = strings.len() as u64;
        strings.extend_from_slice(s.as_bytes());
        strings.push(0);
        at
    };
    let type_ofs = add(o.kind);
    let owner_ofs = add(o.owner);
    let name_ofs = add(o.name);
    let mut data: Vec<u8> = Vec::new();
    let mut vars: Vec<u8> = Vec::new();
    for (name, bytes) in &o.vars {
        put_u64(&mut vars, add(o.name));
        put_u64(&mut vars, add(name));
        put_u64(&mut vars, add("double"));
        put_u64(&mut vars, data.len() as u64);
        put_u64(&mut vars, bytes.len() as u64);
        data.extend_from_slice(bytes);
    }
    let mut children: Vec<u8> = Vec::new();
    for c in &o.children {
        let bytes = build(c);
        put_u64(&mut children, add(o.name));
        put_u64(&mut children, add(c.name));
        put_u64(&mut children, data.len() as u64);
        put_u64(&mut children, bytes.len() as u64);
        data.extend_from_slice(&bytes);
    }
    let strings_ofs = 104u64;
    let vars_ofs = strings_ofs + strings.len() as u64;
    let children_ofs = vars_ofs + vars.len() as u64;
    let data_ofs = children_ofs + children.len() as u64;
    let mut out = Vec::new();
    put_u64(&mut out, type_ofs);
    put_u64(&mut out, owner_ofs);
    put_u64(&mut out, name_ofs);
    put_u64(&mut out, o.vars.len() as u64);
    put_u64(&mut out, o.children.len() as u64);
    put_u64(&mut out, strings_ofs);
    put_u64(&mut out, strings.len() as u64);
    put_u64(&mut out, vars_ofs);
    put_u64(&mut out, vars.len() as u64);
    put_u64(&mut out, children_ofs);
    put_u64(&mut out, children.len() as u64);
    put_u64(&mut out, data_ofs);
    put_u64(&mut out, data.len() as u64);
    out.extend_from_slice(&strings);
    out.extend_from_slice(&vars);
    out.extend_from_slice(&children);
    out.extend_from_slice(&data);
    out
}

fn spread_inverted(v: u32) -> u32 {
    let b = v & 0xff;
    let b = b | (b << 8);
    !(b | (b << 16))
}

/// The inverse of the container's decryption.
fn encrypt(data: &mut [u8], seed: u32) {
    let n = data.len() / 4;
    if n == 0 {
        return;
    }
    let mut key = (ENCRYPTION_KEY ^ seed).wrapping_add(spread_inverted(n as u32));
    for j in 0..4 {
        let mut i = j;
        while i < n {
            let plain = u32::from_le_bytes(data[4 * i..4 * i + 4].try_into().unwrap());
            let cipher = plain ^ key;
            data[4 * i..4 * i + 4].copy_from_slice(&cipher.to_le_bytes());
            key = key.wrapping_add(!cipher).wrapping_add(spread_inverted(i as u32));
            i += 4;
        }
    }
}

/// Writes a container holding `buffers`, each with its encoding tag.
fn container(buffers: &[(u8, Vec<u8>)], seed: u32) -> Vec<u8> {
    let table_ofs = 80u64;
    let data_ofs = table_ofs + 24 * buffers.len() as u64;
    let mut out = vec![0u8; 80];
    out[0..4].copy_from_slice(&0x5350_4330u32.to_le_bytes());
    out[8..16].copy_from_slice(&(buffers.len() as u64).to_le_bytes());
    out[16..24].copy_from_slice(&table_ofs.to_le_bytes());
    out[24..28].copy_from_slice(&seed.to_le_bytes());
    out[32..40].copy_from_slice(&data_ofs.to_le_bytes());
    let mut offset = 0u64;
    for (encoding, bytes) in buffers {
        let mut entry = vec![0u8; 24];
        entry[0] = *encoding;
        entry[8..16].copy_from_slice(&offset.to_le_bytes());
        entry[16..24].copy_from_slice(&(bytes.len() as u64).to_le_bytes());
        out.extend_from_slice(&entry);
        offset += bytes.len() as u64;
    }
    for (_, bytes) in buffers {
        out.extend_from_slice(bytes);
    }
    let sum = checksum(&out);
    out[4..8].copy_from_slice(&sum.to_le_bytes());
    encrypt(&mut out[80..], seed);
    out
}

fn data_object(uid: &str, data: &[f64], blank: &[f64]) -> Obj {
    let mut o = obj("data");
    o.children.push(text_child("m_uid", uid));
    o.children.push(doubles("m_data", data));
    o.children.push(doubles("m_blank", blank));
    o
}

fn as_f64(v: &[u64]) -> Vec<f64> {
    v.iter().map(|b| f64::from_bits(*b)).collect()
}

#[test]
fn test_spectre_file_structure() {
    let sf = SpectreFile {
        uid: "test".to_string(),
        data: vec![1.0f64.to_bits(), 2.0f64.to_bits(), 3.0f64.to_bits()],
        blank: vec![0.1f64.to_bits(), 0.2f64.to_bits(), 0.3f64.to_bits()],
    };
    assert_eq!(sf.data.len(), 3);
    assert_eq!(sf.blank.len(), 3);
}

#[test]
fn object_round_trip_with_children() {
    let o = with_child(
        with_var(with_var(obj("root"), "a", vec![1, 2, 3]), "b", vec![]),
        with_var(obj("kid"), "x", vec![9]),
    );
    let parsed = StorageObject::from_bytes(&build(&o)).unwrap();
    assert_eq!(parsed.typename, "object");
    assert_eq!(parsed.owner_name, "owner");
    assert_eq!(parsed.var_name, "root");
    assert_eq!(parsed.variables.len(), 2);
    assert_eq!(parsed.variables[0].name, "a");
    assert_eq!(parsed.variables[0].owner, "root");
    assert_eq!(parsed.variables[0].typename, "double");
    assert_eq!(parsed.variables[0].data, vec![1, 2, 3]);
    assert_eq!(parsed.variables[1].data, Vec::<u8>::new());
    assert_eq!(parsed.children.len(), 1);
    assert_eq!(parsed.children[0].var_name, "kid");
    assert_eq!(parsed.children[0].variables[0].data, vec![9]);
    assert_eq!(parsed.find_var("b").unwrap().name, "b");
    assert!(parsed.find_var("c").is_none());
    assert_eq!(parsed.find_child("kid").unwrap().variables.len(), 1);
    assert!(parsed.find_child("root").is_none());
}

#[test]
fn vars_by_name_keeps_last_of_each_name() {
    let o = with_var(with_var(with_var(obj("root"), "a", vec![1]), "b", vec![2]), "a", vec![3]);
    let parsed = StorageObject::from_bytes(&build(&o)).unwrap();
    let by_name = parsed.vars_by_name();
    assert_eq!(by_name.len(), 2);
    assert_eq!(by_name[0].name, "b");
    assert_eq!(by_name[1].name, "a");
    assert_eq!(by_name[1].data, vec![3]);
    assert_eq!(parsed.find_var("a").unwrap().data, vec![1]);
}

#[test]
fn object_shorter_than_header_is_too_small() {
    for len in [0usize, 1, 50, 103] {
        match StorageObject::from_bytes(&vec![0u8; len]) {
            Err(ParseError::FileTooSmall { expected, actual }) => {
                assert_eq!(expected, 104);
                assert_eq!(actual, len);
            }
            other => panic!("unexpected {:?}", other),
        }
    }
}

#[test]
fn ragged_variable_table_is_count_mismatch() {
    let mut bytes = build(&with_var(obj("root"), "a", vec![1]));
    // Variable table size field: 40 becomes 41; the table still fits.
    bytes[64..72].copy_from_slice(&41u64.to_le_bytes());
    match StorageObject::from_bytes(&bytes) {
        Err(ParseError::VarCountMismatch { expected, actual }) => {
            assert_eq!(expected, 1);
            assert_eq!(actual, 1);
        }
        other => panic!("unexpected {:?}", other),
    }
}

#[test]
fn ragged_child_table_is_count_mismatch() {
    let mut bytes = build(&with_child(obj("root"), obj("kid")));
    bytes[80..88].copy_from_slice(&31u64.to_le_bytes());
    match StorageObject::from_bytes(&bytes) {
        Err(ParseError::ChildCountMismatch { expected, actual }) => {
            assert_eq!(expected, 1);
            assert_eq!(actual, 0);
        }
        other => panic!("unexpected {:?}", other),
    }
}

#[test]
fn section_past_end_is_invalid_offset() {
    let mut bytes = build(&obj("root"));
    let len = bytes.len();
    bytes[48..56].copy_from_slice(&(len as u64).to_le_bytes());
    match StorageObject::from_bytes(&bytes) {
        Err(ParseError::InvalidOffset { offset, size }) => {
            assert_eq!(offset, 104 + len as u64);
            assert_eq!(size, len);
        }
        other => panic!("unexpected {:?}", other),
    }
    let mut huge = build(&obj("root"));
    huge[40..48].copy_from_slice(&u64::MAX.to_le_bytes());
    assert!(matches!(
        StorageObject::from_bytes(&huge),
        Err(ParseError::InvalidOffset { offset: u64::MAX, .. })
    ));
}

#[test]
fn string_without_terminator_is_rejected() {
    let mut bytes = build(&obj("root"));
    // The strings section starts at 104; drop its last terminator from view.
    let strings_size = u64::from_le_bytes(bytes[48..56].try_into().unwrap());
    bytes[48..56].copy_from_slice(&(strings_size - 1).to_le_bytes());
    let name_ofs = u64::from_le_bytes(bytes[16..24].try_into().unwrap());
    match StorageObject::from_bytes(&bytes) {
        Err(ParseError::UnterminatedString(at)) => assert_eq!(at, name_ofs),
        other => panic!("unexpected {:?}", other),
    }
}

#[test]
fn deep_nesting_fails_cleanly() {
    let mut o = obj("leaf");
    for _ in 0..300 {
        o = with_child(obj("node"), o);
    }
    let bytes = build(&o);
    assert!(matches!(StorageObject::from_bytes(&bytes), Err(ParseError::NestingTooDeep(256))));
    let mut shallow = obj("leaf");
    for _ in 0..10 {
        shallow = with_child(obj("node"), shallow);
    }
    assert!(StorageObject::from_bytes(&build(&shallow)).is_ok());
}

#[test]
fn container_round_trip_all_encodings() {
    let raw = vec![5u8, 6, 7, 8, 9];
    let bytes = container(
        &[(0, raw.clone()), (1, vec![3, b'A', 2, b'B']), (2, vec![0, 2, 3, b'x', b'y'])],
        0xDEAD_BEEF,
    );
    let buffers = unpack_container(&bytes).unwrap();
    assert_eq!(buffers, vec![raw, b"AAABB".to_vec(), b"xyxyxy".to_vec()]);
}

#[test]
fn wrong_magic_is_type_mismatch() {
    let mut bytes = container(&[(0, vec![1, 2, 3, 4])], 7);
    bytes[0] = b'X';
    match unpack_container(&bytes) {
        Err(ParseError::TypeMismatch { expected, actual }) => {
            assert_eq!(expected, "SPC0 magic (0x53504330)");
            assert_eq!(actual, "0x53504358");
        }
        other => panic!("unexpected {:?}", other),
    }
}

#[test]
fn corrupted_container_fails_checksum() {
    let bytes = container(&[(0, vec![1, 2, 3, 4, 5, 6, 7, 8])], 99);
    let stored = u32::from_le_bytes(bytes[4..8].try_into().unwrap());
    let mut corrupted = bytes.clone();
    let last = corrupted.len() - 1;
    corrupted[last] ^= 0x40;
    match unpack_container(&corrupted) {
        Err(ParseError::TypeMismatch { expected, actual }) => {
            assert_eq!(expected, format!("checksum 0x{:08X}", stored));
            assert_ne!(actual, format!("0x{:08X}", stored));
        }
        other => panic!("unexpected {:?}", other),
    }
}

#[test]
fn short_container_is_too_small() {
    assert!(matches!(
        unpack_container(&[0u8; 79]),
        Err(ParseError::FileTooSmall { expected: 80, actual: 79 })
    ));
}

#[test]
fn buffer_past_end_is_invalid_offset() {
    // One buffer whose entry claims 100 bytes where 4 follow.
    let bytes = {
        let mut out = vec![0u8; 80];
        out[0..4].copy_from_slice(&0x5350_4330u32.to_le_bytes());
        out[8..16].copy_from_slice(&1u64.to_le_bytes());
        out[16..24].copy_from_slice(&80u64.to_le_bytes());
        out[32..40].copy_from_slice(&104u64.to_le_bytes());
        let mut entry = vec![0u8; 24];
        entry[16..24].copy_from_slice(&100u64.to_le_bytes());
        out.extend_from_slice(&entry);
        out.extend_from_slice(&[1, 2, 3, 4]);
        let sum = checksum(&out);
        out[4..8].copy_from_slice(&sum.to_le_bytes());
        encrypt(&mut out[80..], 0);
        out
    };
    match unpack_container(&bytes) {
        Err(ParseError::InvalidOffset { offset, size }) => {
            assert_eq!(offset, 204);
            assert_eq!(size, 108);
        }
        other => panic!("unexpected {:?}", other),
    }
}

#[test]
fn end_to_end_data_only() {
    let data = build(&data_object("CAM1", &[1.0, 2.0, 3.0], &[]));
    let bytes = container(&[(0, data)], 0x1357_9BDF);
    let spc = SpcFile::from_bytes(&bytes).unwrap();
    assert_eq!(spc.uid, "CAM1");
    assert_eq!(spc.data.len(), 3);
    assert_eq!(as_f64(&spc.data), vec![1.0, 2.0, 3.0]);
    assert!(spc.blank.is_empty());
    assert!(!spc.has_calibration());
    assert!(!spc.has_raman_shift());
    assert!(!spc.has_wavelength_axis());
    assert!(spc.config.is_none());
}

#[test]
fn end_to_end_with_calibration_and_config() {
    let data = build(&data_object("CAM2", &[5.0, 6.0, 7.0], &[0.5, 0.25, 0.125]));
    let calibration = build(&doubles("calibration", &[500.0, 10.0, 1.0, 0.0]));
    let config = {
        let mut c = obj("config");
        c.children.push(with_var(obj("raman_wavelength"), "data", 785.0f64.to_le_bytes().to_vec()));
        c.children.push(with_var(obj("exposure"), "data", 0.5f64.to_le_bytes().to_vec()));
        c.children.push(with_var(obj("smoothing"), "data", (-3i32).to_le_bytes().to_vec()));
        c.children.push(with_var(obj("axis"), "data", 2i32.to_le_bytes().to_vec()));
        c.children.push(with_var(obj("baseline"), "data", vec![1]));
        c.children.push(with_var(obj("sgolay"), "data", vec![0]));
        c.children.push(with_var(obj("extra"), "data", 7i32.to_le_bytes().to_vec()));
        c.children.push(with_var(obj("odd"), "data", vec![1, 2, 3]));
        c.children.push(obj("empty"));
        c
    };
    let bytes = container(&[(2, rle0_encode(&data)), (0, calibration), (1, rle8_encode(&build(&config)))], 42);
    let spc = SpcFile::from_bytes(&bytes).unwrap();
    assert_eq!(spc.uid, "CAM2");
    assert_eq!(as_f64(&spc.blank), vec![0.5, 0.25, 0.125]);
    assert!(spc.has_calibration());
    assert_eq!(as_f64(&spc.calibration.as_ref().unwrap().coefficients), vec![500.0, 10.0, 1.0, 0.0]);
    assert!(spc.has_wavelength_axis());
    assert!(spc.has_raman_shift());
    let cfg = spc.config.as_ref().unwrap();
    assert_eq!(cfg.raman_wavelength.map(f64::from_bits), Some(785.0));
    assert_eq!(cfg.exposure.map(f64::from_bits), Some(0.5));
    assert_eq!(cfg.gain, None);
    assert_eq!(cfg.smoothing, Some(-3));
    assert_eq!(cfg.axis, Some(AxisType::RamanShifts));
    assert_eq!(cfg.baseline, Some(true));
    assert_eq!(cfg.sgolay, Some(false));
    assert_eq!(cfg.other.len(), 1);
    assert_eq!(cfg.other[0].0, "extra");
    assert_eq!(cfg.other[0].1, ConfigValue::Int(7));
}

#[test]
fn raman_wavelength_falls_back_to_own_variable() {
    let data = build(&data_object("CAM3", &[1.0, 2.0], &[]));
    let calibration = build(&doubles("calibration", &[1.0, 2.0, 3.0, 4.0]));
    let config = with_var(obj("config"), "raman_wavelength", 532.0f64.to_le_bytes().to_vec());
    let bytes = container(&[(0, data), (0, calibration), (0, build(&config))], 3);
    let spc = SpcFile::from_bytes(&bytes).unwrap();
    let cfg = spc.config.as_ref().unwrap();
    assert_eq!(cfg.raman_wavelength.map(f64::from_bits), Some(532.0));
    assert!(spc.has_raman_shift());
}

#[test]
fn unusable_calibration_gives_no_axis() {
    let data = build(&data_object("CAM4", &[1.0, 2.0, 3.0], &[]));
    let three = build(&doubles("calibration", &[1.0, 2.0, 3.0]));
    let spc = SpcFile::from_bytes(&container(&[(0, data.clone()), (0, three)], 1)).unwrap();
    assert!(spc.has_calibration());
    assert!(!spc.has_wavelength_axis());

    let one_pixel = build(&data_object("CAM5", &[1.0], &[]));
    let four = build(&doubles("calibration", &[1.0, 2.0, 3.0, 4.0]));
    let spc = SpcFile::from_bytes(&container(&[(0, one_pixel), (0, four)], 1)).unwrap();
    assert!(spc.has_calibration());
    assert!(!spc.has_wavelength_axis());
    assert!(!spc.has_raman_shift());

    let bad = build(&with_var(obj("calibration"), "c0", vec![1, 2, 3, 4]));
    let spc = SpcFile::from_bytes(&container(&[(0, data), (0, bad)], 1)).unwrap();
    assert!(!spc.has_calibration());
}

#[test]
fn missing_data_object_is_missing_field() {
    let calibration = build(&doubles("calibration", &[1.0, 2.0, 3.0, 4.0]));
    match SpcFile::from_bytes(&container(&[(0, calibration), (0, vec![1, 2, 3])], 5)) {
        Err(ParseError::MissingField(name)) => assert_eq!(name, "data"),
        other => panic!("unexpected {:?}", other),
    }
    match SpcFile::from_bytes(&container(&[], 5)) {
        Err(ParseError::MissingField(name)) => assert_eq!(name, "No buffers in container"),
        other => panic!("unexpected {:?}", other),
    }
}

#[test]
fn wrong_sized_sample_is_type_mismatch() {
    let mut d = data_object("CAM6", &[1.0], &[]);
    d.children[1].vars.push(("", vec![1, 2, 3, 4]));
    match SpcFile::from_bytes(&container(&[(0, build(&d))], 5)) {
        Err(ParseError::TypeMismatch { expected, actual }) => {
            assert_eq!(expected, "double (8 bytes)");
            assert_eq!(actual, "4 bytes");
        }
        other => panic!("unexpected {:?}", other),
    }
}

#[test]
fn missing_uid_parts_are_missing_fields() {
    let mut d = data_object("CAM7", &[1.0], &[]);
    d.children.remove(0);
    match SpcFile::from_bytes(&container(&[(0, build(&d))], 5)) {
        Err(ParseError::MissingField(name)) => assert_eq!(name, "m_uid"),
        other => panic!("unexpected {:?}", other),
    }
    let mut d = data_object("CAM7", &[1.0], &[]);
    d.children[0] = obj("m_uid");
    match SpcFile::from_bytes(&container(&[(0, build(&d))], 5)) {
        Err(ParseError::MissingField(name)) => assert_eq!(name, "m_uid.data"),
        other => panic!("unexpected {:?}", other),
    }
    let mut d = data_object("CAM7", &[1.0], &[]);
    d.children[0] = with_var(obj("m_uid"), "data", vec![0xFF, 0xFE, 0]);
    match SpcFile::from_bytes(&container(&[(0, build(&d))], 5)) {
        Err(ParseError::MissingField(name)) => assert_eq!(name, "m_uid (invalid UTF-8)"),
        other => panic!("unexpected {:?}", other),
    }
}

#[test]
fn last_data_object_wins() {
    let first = build(&data_object("FIRST", &[1.0], &[]));
    let second = build(&data_object("SECOND", &[1.0, 2.0], &[]));
    let spc = SpcFile::from_buffers(&[first, second]).unwrap();
    assert_eq!(spc.uid, "SECOND");
    assert_eq!(spc.data.len(), 2);
}

#[test]
fn spectre_file_reads_first_buffer() {
    let data = build(&data_object("CAM8", &[4.0, 5.0], &[6.0]));
    let spectre = SpectreFile::from_bytes(&container(&[(0, data.clone())], 11)).unwrap();
    assert_eq!(spectre.uid, "CAM8");
    assert_eq!(as_f64(&spectre.data), vec![4.0, 5.0]);
    assert_eq!(as_f64(&spectre.blank), vec![6.0]);
    let obj = StorageObject::from_bytes(&data).unwrap();
    assert_eq!(SpectreFile::from_storage_object(&obj).unwrap().uid, "CAM8");
}

#[test]
fn axis_type_from_integer() {
    assert_eq!(AxisType::from(0), AxisType::Pixels);
    assert_eq!(AxisType::from(1), AxisType::Wavelengths);
    assert_eq!(AxisType::from(2), AxisType::RamanShifts);
    assert_eq!(AxisType::from(-5), AxisType::Pixels);
}

/// RLE8 encoding: runs of at most 255 equal bytes.
fn rle8_encode(data: &[u8]) -> Vec<u8> {
    let mut out = Vec::new();
    let mut i = 0;
    while i < data.len() {
        let mut n = 1;
        while i + n < data.len() && data[i + n] == data[i] && n < 255 {
            n += 1;
        }
        out.push(n as u8);
        out.push(data[i]);
        i += n;
    }
    out
}

/// RLE0 encoding with one-byte blocks, each written once.
fn rle0_encode(data: &[u8]) -> Vec<u8> {
    let mut out = vec![0, 1, 1, data[0]];
    for b in &data[1..] {
        out.push(1);
        out.push(*b);
    }
    out
}
