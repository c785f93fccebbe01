use maf::{Archive, Entry, Error, Path};

const MAGIC: [u8; 9] = [0xBA, 0xDA, 0x55, 0x6D, 0x61, 0x66, 0x67, 0x65, 0x78];

fn archive_of(items: &[(&str, &[u8])]) -> Archive {
    let mut builder = Archive::builder();
    for (path, contents) in items {
        builder.add_entry(Path::from_maf_str(path).unwrap(), contents.to_vec());
    }
    builder.build()
}

fn as_pairs(entries: &Vec<Entry>) -> Vec<(String, Vec<u8>)> {
    entries
        .iter()
        .map(|e| (e.path.path().to_string(), e.contents.clone()))
        .collect()
}

fn le(bytes: &[u8]) -> u128 {
    let mut v: u128 = 0;
    for (i, b) in bytes.iter().enumerate() {
        v |= (*b as u128) << (8 * i);
    }
    v
}

fn sample() -> Vec<(&'static str, &'static [u8])> {
    vec![
        ("a", b"xyz".as_slice()),
        ("dir/bb", b"\x00\xff".as_slice()),
        ("", b"".as_slice()),
        ("c c~!", b"last".as_slice()),
    ]
}

#[test]
fn legal_path_is_accepted() {
    let p = Path::from_maf_str("a/b_c-1.txt").unwrap();
    assert_eq!(p.path(), "a/b_c-1.txt");
    let q = Path::from_unix_str("a/b_c-1.txt").unwrap();
    assert_eq!(q.path(), "a/b_c-1.txt");
    assert!(Path::from_maf_str(" !~{}[]@").is_ok());
    assert!(Path::from_maf_str("").is_ok());
}

#[test]
fn control_character_is_rejected() {
    match Path::from_maf_str("a\u{0007}b") {
        Err(Error::IllegalPath { path }) => assert_eq!(path, "a\u{0007}b"),
        other => panic!("unexpected {:?}", other),
    }
    assert!(matches!(Path::from_unix_str("a\tb"), Err(Error::IllegalPath { .. })));
    assert!(matches!(Path::from_unix_str("caf\u{e9}"), Err(Error::IllegalPath { .. })));
    assert!(matches!(Path::from_unix_str("x\u{7f}"), Err(Error::IllegalPath { .. })));
}

#[test]
fn round_trip_keeps_entries_and_order() {
    let items = sample();
    let bytes = archive_of(&items).to_bytes();
    let back = Archive::read(&bytes).unwrap();
    let expected: Vec<(String, Vec<u8>)> =
        items.iter().map(|(p, c)| (p.to_string(), c.to_vec())).collect();
    assert_eq!(as_pairs(back.entries()), expected);
}

#[test]
fn encoding_is_deterministic() {
    let items = sample();
    assert_eq!(archive_of(&items).to_bytes(), archive_of(&items).to_bytes());
}

#[test]
fn empty_archive_is_a_bare_header() {
    let archive = Archive::builder().build();
    assert!(archive.is_encodable());
    let bytes = archive.to_bytes();
    assert_eq!(bytes.len(), 64);
    assert_eq!(&bytes[0..9], &MAGIC);
    assert_eq!(bytes[9], 0);
    assert_eq!(le(&bytes[10..12]), 0);
    assert_eq!(le(&bytes[12..16]), 0);
    assert_eq!(le(&bytes[16..24]), 0);
    assert_eq!(le(&bytes[24..40]), 0);
    assert!(bytes[40..64].iter().all(|b| *b == 0));
    let back = Archive::read(&bytes).unwrap();
    assert!(back.entries().is_empty());
}

#[test]
fn offsets_are_running_totals() {
    let bytes = archive_of(&[("a", b"123"), ("bb", b"4"), ("ccc", b"56")]).to_bytes();
    assert_eq!(le(&bytes[12..16]), 3);
    assert_eq!(le(&bytes[16..24]), 6);
    assert_eq!(le(&bytes[24..40]), 6);
    // header, then the data region, then the mapping table, then the paths
    assert_eq!(&bytes[64..70], b"123456");
    let table = 64 + 6;
    let mut path_offsets = Vec::new();
    let mut data_offsets = Vec::new();
    for i in 0..3 {
        let rec = &bytes[table + 32 * i..table + 32 * (i + 1)];
        path_offsets.push(le(&rec[0..8]));
        data_offsets.push(le(&rec[8..24]));
        assert_eq!(le(&rec[24..32]), 0);
    }
    assert_eq!(path_offsets, vec![0, 1, 3]);
    assert_eq!(data_offsets, vec![0, 3, 4]);
    assert_eq!(&bytes[table + 96..], b"abbccc");
    assert_eq!(bytes.len(), 64 + 6 + 96 + 6);
}

#[test]
fn wrong_signature_is_rejected() {
    let mut bytes = archive_of(&sample()).to_bytes();
    for i in 0..9 {
        let mut b = bytes.clone();
        b[i] ^= 0x01;
        assert!(matches!(Archive::read(&b), Err(Error::WrongMagicValue)));
    }
    bytes[0] = 0;
    assert!(matches!(Archive::read(&bytes), Err(Error::WrongMagicValue)));
    assert!(matches!(Archive::read(&[0u8; 64]), Err(Error::WrongMagicValue)));
}

#[test]
fn short_buffer_has_no_header() {
    assert!(matches!(Archive::read(&[]), Err(Error::HeaderReadError)));
    assert!(matches!(Archive::read(&MAGIC), Err(Error::HeaderReadError)));
    assert!(matches!(Archive::read(&[0u8; 63]), Err(Error::HeaderReadError)));
}

#[test]
fn every_proper_prefix_fails_cleanly() {
    let bytes = archive_of(&sample()).to_bytes();
    let table = 64 + 9;
    let paths = table + 4 * 32;
    for k in 0..bytes.len() {
        let r = Archive::read(&bytes[..k]);
        if k < 64 {
            assert!(matches!(r, Err(Error::HeaderReadError)), "cut at {}", k);
        } else if k < paths {
            match r {
                Err(Error::MappingReadError { index }) => {
                    let expected = if k < table { 0 } else { (k - table) / 32 };
                    assert_eq!(index, expected, "cut at {}", k);
                }
                _ => panic!("cut at {}", k),
            }
        } else {
            assert!(matches!(r, Err(Error::PathReadError { .. })), "cut at {}", k);
        }
    }
}

#[test]
fn truncated_path_region_names_the_entry() {
    let bytes = archive_of(&[("a", b"1"), ("bb", b"2"), ("ccc", b"3")]).to_bytes();
    let paths = 64 + 3 + 96;
    assert!(matches!(Archive::read(&bytes[..paths]), Err(Error::PathReadError { index: 0 })));
    assert!(matches!(Archive::read(&bytes[..paths + 2]), Err(Error::PathReadError { index: 1 })));
    assert!(matches!(Archive::read(&bytes[..paths + 5]), Err(Error::PathReadError { index: 2 })));
}

#[test]
fn illegal_stored_path_is_rejected() {
    let mut bytes = archive_of(&[("ok", b"1"), ("xy", b"2")]).to_bytes();
    let n = bytes.len();
    bytes[n - 1] = 0x07;
    assert!(matches!(Archive::read(&bytes), Err(Error::PathReadError { index: 1 })));
    bytes[n - 1] = 0xC3;
    assert!(matches!(Archive::read(&bytes), Err(Error::PathReadError { index: 1 })));
}

#[test]
fn inconsistent_data_offset_is_rejected() {
    let mut bytes = archive_of(&[("a", b"12"), ("b", b"3")]).to_bytes();
    // the second record's data offset points past the data region
    let table = 64 + 3;
    bytes[table + 32 + 8] = 9;
    assert!(matches!(Archive::read(&bytes), Err(Error::MappingReadError { index: 0 })));
}

#[test]
fn extra_trailing_bytes_do_not_change_entries() {
    let items = sample();
    let mut bytes = archive_of(&items).to_bytes();
    bytes.extend_from_slice(b"trailer");
    let back = Archive::read(&bytes).unwrap();
    assert_eq!(back.entries().len(), items.len());
}

#[test]
fn builder_keeps_insertion_order() {
    let mut builder = Archive::builder();
    builder.add_entry(Path::from_unix_str("z").unwrap(), vec![1]);
    builder.add_entry(Path::from_unix_str("a").unwrap(), vec![2]);
    let archive = builder.build();
    assert!(archive.is_encodable());
    let names: Vec<&str> = archive.entries().iter().map(|e| e.path.path()).collect();
    assert_eq!(names, vec!["z", "a"]);
}

#[test]
fn cloned_path_keeps_text() {
    let p = Path::from_maf_str("x/y").unwrap();
    assert_eq!(p.clone().path(), "x/y");
}

#[test]
fn errors_describe_themselves() {
    assert_eq!(Error::HeaderReadError.message(), "Couldn't read the archive's header");
    assert_eq!(Error::WrongMagicValue.message(), "Wrong magic value in the archive's header");
    assert_eq!(Error::SourceReadError.message(), "Couldn't read an entry's contents");
}
