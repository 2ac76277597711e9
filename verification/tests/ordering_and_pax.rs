use uu_tar::entry::EntryType;
use uu_tar::errors::ArchiveError;
use uu_tar::header::{encode_header, Header};
use uu_tar::pax::parse_pax_records;
use uu_tar::reader::read_archive;
use uu_tar::walk::{lex_le_bytes, sort_names};

#[test]
fn test_lex_compare() {
    assert!(lex_le_bytes(b"abc", b"abd"));
    assert!(!lex_le_bytes(b"abd", b"abc"));
    assert!(lex_le_bytes(b"ab", b"abc"));
    assert!(!lex_le_bytes(b"abc", b"ab"));
    assert!(lex_le_bytes(b"same", b"same"));
    assert!(lex_le_bytes(b"", b"x"));
}

#[test]
fn test_sort_names_deterministic_order() {
    let mut names: Vec<Vec<u8>> = vec![
        b"zeta".to_vec(),
        b"alpha".to_vec(),
        b"m".to_vec(),
        b"alpha".to_vec(),
        b"mm".to_vec(),
    ];
    sort_names(&mut names);
    let expect: Vec<Vec<u8>> = vec![
        b"alpha".to_vec(),
        b"alpha".to_vec(),
        b"m".to_vec(),
        b"mm".to_vec(),
        b"zeta".to_vec(),
    ];
    assert_eq!(names, expect);
}

#[test]
fn test_pax_records_parsed() {
    let payload = b"12 path=abc\n21 custom=some value\n";
    let recs = parse_pax_records(payload).unwrap();
    assert_eq!(recs.len(), 2);
    assert_eq!(recs[0].0, b"path".to_vec());
    assert_eq!(recs[0].1, b"abc".to_vec());
    assert_eq!(recs[1].0, b"custom".to_vec());
    assert_eq!(recs[1].1, b"some value".to_vec());
}

#[test]
fn test_pax_records_refuse_bad_length() {
    assert!(parse_pax_records(b"99 path=abc\n").is_none());
    assert!(parse_pax_records(b"x path=abc\n").is_none());
    assert!(parse_pax_records(b"11 pathabc\n\n").is_none());
    assert!(parse_pax_records(b"12 path_abc\n").is_none());
    assert!(parse_pax_records(b"").map(|r| r.len()) == Some(0));
}

fn raw_header(name: &[u8], typeflag: u8, size: u64) -> Vec<u8> {
    let h = Header {
        name: name.to_vec(),
        prefix: Vec::new(),
        mode: 0o644,
        uid: 0,
        gid: 0,
        size,
        mtime: 0,
        typeflag,
        linkname: Vec::new(),
        uname: Vec::new(),
        gname: Vec::new(),
    };
    encode_header(&h).unwrap()
}

fn padded(data: &[u8]) -> Vec<u8> {
    let mut v = data.to_vec();
    while v.len() % 512 != 0 {
        v.push(0);
    }
    v
}

#[test]
fn test_pax_path_overrides_header_name() {
    let mut bytes = Vec::new();
    let pax_payload = b"13 path=over\n";
    bytes.extend_from_slice(&raw_header(b"ignored", b'x', pax_payload.len() as u64));
    bytes.extend_from_slice(&padded(pax_payload));
    bytes.extend_from_slice(&raw_header(b"under", b'0', 0));
    bytes.extend_from_slice(&[0u8; 1024]);
    let items = read_archive(&bytes).unwrap();
    assert_eq!(items.len(), 1);
    assert_eq!(items[0].entry.name, b"over".to_vec());
}

#[test]
fn test_pax_wins_over_gnu_longname() {
    let mut bytes = Vec::new();
    // a GNU long-name member first
    let gnu_payload = b"gnu-name\0";
    bytes.extend_from_slice(&raw_header(b"././@LongLink", b'L', gnu_payload.len() as u64));
    bytes.extend_from_slice(&padded(gnu_payload));
    // then a PAX member naming the same entry
    let pax_payload = b"17 path=pax-name\n";
    bytes.extend_from_slice(&raw_header(b"ignored", b'x', pax_payload.len() as u64));
    bytes.extend_from_slice(&padded(pax_payload));
    bytes.extend_from_slice(&raw_header(b"under", b'0', 0));
    bytes.extend_from_slice(&[0u8; 1024]);
    let items = read_archive(&bytes).unwrap();
    assert_eq!(items.len(), 1);
    assert_eq!(items[0].entry.name, b"pax-name".to_vec());
}

#[test]
fn test_unknown_pax_keys_preserved() {
    let mut bytes = Vec::new();
    let pax_payload = b"20 mtime=1350244992\n15 vendor=acme\n";
    bytes.extend_from_slice(&raw_header(b"ignored", b'x', pax_payload.len() as u64));
    bytes.extend_from_slice(&padded(pax_payload));
    bytes.extend_from_slice(&raw_header(b"file", b'0', 0));
    bytes.extend_from_slice(&[0u8; 1024]);
    let items = read_archive(&bytes).unwrap();
    assert_eq!(items.len(), 1);
    assert_eq!(items[0].pax_extras.len(), 2);
    assert_eq!(items[0].pax_extras[0].0, b"mtime".to_vec());
    assert_eq!(items[0].pax_extras[0].1, b"1350244992".to_vec());
    assert_eq!(items[0].pax_extras[1].0, b"vendor".to_vec());
    assert_eq!(items[0].pax_extras[1].1, b"acme".to_vec());
}

#[test]
fn test_malformed_pax_member_is_error() {
    let mut bytes = Vec::new();
    let pax_payload = b"not a record at all";
    bytes.extend_from_slice(&raw_header(b"ignored", b'x', pax_payload.len() as u64));
    bytes.extend_from_slice(&padded(pax_payload));
    bytes.extend_from_slice(&raw_header(b"file", b'0', 0));
    bytes.extend_from_slice(&[0u8; 1024]);
    assert!(matches!(read_archive(&bytes), Err(ArchiveError::Malformed)));
}

#[test]
fn test_gnu_longname_applies_to_next_entry() {
    let mut bytes = Vec::new();
    let long = vec![b'q'; 140];
    let mut gnu_payload = long.clone();
    gnu_payload.push(0);
    bytes.extend_from_slice(&raw_header(b"././@LongLink", b'L', gnu_payload.len() as u64));
    bytes.extend_from_slice(&padded(&gnu_payload));
    bytes.extend_from_slice(&raw_header(b"truncated-name", b'0', 0));
    bytes.extend_from_slice(&raw_header(b"second", b'0', 0));
    bytes.extend_from_slice(&[0u8; 1024]);
    let items = read_archive(&bytes).unwrap();
    assert_eq!(items.len(), 2);
    assert_eq!(items[0].entry.name, long);
    // the long name applies only to the next member
    assert_eq!(items[1].entry.name, b"second".to_vec());
}

#[test]
fn test_prefix_joined_into_entry_name() {
    let h = Header {
        name: b"file.txt".to_vec(),
        prefix: b"deep/dir".to_vec(),
        mode: 0o644,
        uid: 0,
        gid: 0,
        size: 0,
        mtime: 0,
        typeflag: b'0',
        linkname: Vec::new(),
        uname: Vec::new(),
        gname: Vec::new(),
    };
    let mut bytes = encode_header(&h).unwrap();
    bytes.extend_from_slice(&[0u8; 1024]);
    let items = read_archive(&bytes).unwrap();
    assert_eq!(items[0].entry.name, b"deep/dir/file.txt".to_vec());
}

#[test]
fn test_old_style_regular_typeflag() {
    // a NUL type flag is the historical spelling of a regular file
    let mut block = raw_header(b"old", 0u8, 0);
    // encode_header wrote typeflag 0 directly; the checksum already covers it
    let mut bytes = Vec::new();
    bytes.append(&mut block);
    bytes.extend_from_slice(&[0u8; 1024]);
    let items = read_archive(&bytes).unwrap();
    assert!(matches!(items[0].entry.entry_type, EntryType::RegularFile));
}
