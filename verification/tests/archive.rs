use uu_tar::entry::{ArchiveItem, EntryModel, EntryType};
use uu_tar::errors::ArchiveError;
use uu_tar::reader::read_archive;
use uu_tar::writer::{encode_entry, terminator_blocks, write_archive};

fn entry(name: &[u8], entry_type: EntryType, data: &[u8]) -> ArchiveItem {
    ArchiveItem {
        entry: EntryModel {
            name: name.to_vec(),
            entry_type,
            linkname: Vec::new(),
            size: data.len() as u64,
            mode: 0o644,
            uid: 0,
            gid: 0,
            mtime: 1350244992,
            uname: Vec::new(),
            gname: Vec::new(),
        },
        data: data.to_vec(),
        pax_extras: Vec::new(),
    }
}

#[test]
fn test_empty_archive_refused() {
    let items: Vec<ArchiveItem> = Vec::new();
    assert_eq!(write_archive(&items), Err(ArchiveError::EmptyArchive));
}

#[test]
fn test_two_zero_blocks_decode_empty() {
    let bytes = vec![0u8; 1024];
    let items = read_archive(&bytes).unwrap();
    assert_eq!(items.len(), 0);
}

#[test]
fn test_single_zero_block_truncated() {
    let bytes = vec![0u8; 512];
    assert!(matches!(read_archive(&bytes), Err(ArchiveError::Truncated)));
}

#[test]
fn test_truncated_mid_header() {
    let bytes = vec![0u8; 100];
    assert!(matches!(read_archive(&bytes), Err(ArchiveError::Truncated)));
}

#[test]
fn test_truncated_mid_payload() {
    let items = vec![entry(b"a.txt", EntryType::RegularFile, b"hello")];
    let bytes = write_archive(&items).unwrap();
    // cut inside the payload block
    let cut = &bytes[..700];
    assert!(matches!(read_archive(cut), Err(ArchiveError::Truncated)));
}

#[test]
fn test_missing_terminator_truncated() {
    let items = vec![entry(b"a.txt", EntryType::RegularFile, b"hello")];
    let bytes = write_archive(&items).unwrap();
    // drop the two-block terminator
    let cut = &bytes[..bytes.len() - 1024];
    assert!(matches!(read_archive(cut), Err(ArchiveError::Truncated)));
}

#[test]
fn test_trailing_garbage_tolerated() {
    let items = vec![entry(b"a.txt", EntryType::RegularFile, b"hello")];
    let mut bytes = write_archive(&items).unwrap();
    bytes.extend_from_slice(&[0xAB; 777]);
    let back = read_archive(&bytes).unwrap();
    assert_eq!(back.len(), 1);
    assert_eq!(back[0].entry.name, b"a.txt".to_vec());
}

#[test]
fn test_archive_scenario() {
    let items = vec![
        entry(b"a.txt", EntryType::RegularFile, b"hello"),
        entry(b"b", EntryType::Directory, b""),
        entry(b"b/c.txt", EntryType::RegularFile, b""),
    ];
    let bytes = write_archive(&items).unwrap();
    // three headers, one rounded payload block, two terminator blocks
    assert_eq!(bytes.len(), 512 * 3 + 512 + 1024);
    let back = read_archive(&bytes).unwrap();
    assert_eq!(back.len(), 3);
    assert_eq!(back[0].entry.name, b"a.txt".to_vec());
    assert_eq!(back[0].data, b"hello".to_vec());
    assert!(matches!(back[0].entry.entry_type, EntryType::RegularFile));
    assert_eq!(back[1].entry.name, b"b".to_vec());
    assert!(matches!(back[1].entry.entry_type, EntryType::Directory));
    assert_eq!(back[2].entry.name, b"b/c.txt".to_vec());
    assert_eq!(back[2].data, Vec::<u8>::new());
}

#[test]
fn test_roundtrip_binary_content() {
    let data: Vec<u8> = (0..=255u8).cycle().take(1000).collect();
    let items = vec![entry(b"bin.dat", EntryType::RegularFile, &data)];
    let bytes = write_archive(&items).unwrap();
    let back = read_archive(&bytes).unwrap();
    assert_eq!(back[0].data, data);
    assert_eq!(back[0].entry.size, 1000);
}

#[test]
fn test_roundtrip_unicode_name() {
    let name = "répertoire/ficher-→.txt".as_bytes();
    let items = vec![entry(name, EntryType::RegularFile, b"x")];
    let bytes = write_archive(&items).unwrap();
    let back = read_archive(&bytes).unwrap();
    assert_eq!(back[0].entry.name, name.to_vec());
}

#[test]
fn test_roundtrip_symlink_and_metadata() {
    let mut link = entry(b"link", EntryType::Symlink, b"");
    link.entry.linkname = b"target/elsewhere".to_vec();
    link.entry.mode = 0o777;
    let mut file = entry(b"exec", EntryType::RegularFile, b"#!");
    file.entry.mode = 0o4755; // setuid survives
    file.entry.uid = 123;
    file.entry.gid = 456;
    file.entry.mtime = 4242;
    file.entry.uname = b"someone".to_vec();
    file.entry.gname = b"agroup".to_vec();
    let items = vec![link, file];
    let bytes = write_archive(&items).unwrap();
    let back = read_archive(&bytes).unwrap();
    assert!(matches!(back[0].entry.entry_type, EntryType::Symlink));
    assert_eq!(back[0].entry.linkname, b"target/elsewhere".to_vec());
    assert_eq!(back[0].entry.mode, 0o777);
    assert_eq!(back[1].entry.mode, 0o4755);
    assert_eq!(back[1].entry.uid, 123);
    assert_eq!(back[1].entry.gid, 456);
    assert_eq!(back[1].entry.mtime, 4242);
    assert_eq!(back[1].entry.uname, b"someone".to_vec());
    assert_eq!(back[1].entry.gname, b"agroup".to_vec());
}

#[test]
fn test_long_name_roundtrips_through_extension() {
    let name = vec![b'n'; 250];
    let items = vec![entry(&name, EntryType::RegularFile, b"payload")];
    let bytes = write_archive(&items).unwrap();
    // extension header + extension payload + real header + payload + terminator
    assert_eq!(bytes.len(), 512 + 512 + 512 + 512 + 1024);
    let back = read_archive(&bytes).unwrap();
    assert_eq!(back[0].entry.name, name);
    assert_eq!(back[0].data, b"payload".to_vec());
}

#[test]
fn test_short_name_uses_plain_header_only() {
    let name = vec![b'n'; 90];
    let items = vec![entry(&name, EntryType::RegularFile, b"")];
    let bytes = write_archive(&items).unwrap();
    // one header and the terminator: no extension blocks
    assert_eq!(bytes.len(), 512 + 1024);
    let back = read_archive(&bytes).unwrap();
    assert_eq!(back[0].entry.name, name);
}

#[test]
fn test_long_link_roundtrips_through_extension() {
    let target = vec![b't'; 180];
    let mut link = entry(b"link", EntryType::Symlink, b"");
    link.entry.linkname = target.clone();
    let items = vec![link];
    let bytes = write_archive(&items).unwrap();
    let back = read_archive(&bytes).unwrap();
    assert_eq!(back[0].entry.linkname, target);
}

#[test]
fn test_hardlink_roundtrip() {
    let mut hl = entry(b"second", EntryType::HardLink, b"");
    hl.entry.linkname = b"first".to_vec();
    let items = vec![entry(b"first", EntryType::RegularFile, b"once"), hl];
    let bytes = write_archive(&items).unwrap();
    let back = read_archive(&bytes).unwrap();
    assert!(matches!(back[1].entry.entry_type, EntryType::HardLink));
    assert_eq!(back[1].entry.linkname, b"first".to_vec());
}

#[test]
fn test_writer_rejects_malformed_entry() {
    // a directory carrying payload violates the entry invariants
    let mut bad = entry(b"dir", EntryType::Directory, b"data");
    bad.entry.size = 4;
    let items = vec![bad];
    assert_eq!(write_archive(&items), Err(ArchiveError::Format));
    // declared size disagreeing with the payload is refused too
    let mut bad = entry(b"f", EntryType::RegularFile, b"data");
    bad.entry.size = 3;
    let items = vec![bad];
    assert_eq!(write_archive(&items), Err(ArchiveError::Format));
}

#[test]
fn test_streamed_members_equal_whole_archive() {
    let items = vec![
        entry(b"one", EntryType::RegularFile, b"alpha"),
        entry(b"two", EntryType::Directory, b""),
    ];
    let mut streamed = Vec::new();
    for it in &items {
        streamed.extend_from_slice(&encode_entry(it).unwrap());
    }
    streamed.extend_from_slice(&terminator_blocks());
    assert_eq!(streamed, write_archive(&items).unwrap());
}

#[test]
fn test_encode_entry_rejects_malformed() {
    let mut bad = entry(b"", EntryType::RegularFile, b"");
    bad.entry.name = Vec::new();
    assert_eq!(encode_entry(&bad), Err(ArchiveError::Format));
}

#[test]
fn test_name_length_boundaries() {
    // exactly the field width: plain header, no extension
    let name100 = vec![b'x'; 100];
    let items = vec![entry(&name100, EntryType::RegularFile, b"")];
    let bytes = write_archive(&items).unwrap();
    assert_eq!(bytes.len(), 512 + 1024);
    let back = read_archive(&bytes).unwrap();
    assert_eq!(back[0].entry.name, name100);

    // one byte over: the extension carries it
    let name101 = vec![b'y'; 101];
    let items = vec![entry(&name101, EntryType::RegularFile, b"")];
    let bytes = write_archive(&items).unwrap();
    assert_eq!(bytes.len(), 512 + 512 + 512 + 1024);
    let back = read_archive(&bytes).unwrap();
    assert_eq!(back[0].entry.name, name101);
}

#[test]
fn test_block_aligned_payload_has_no_padding() {
    let data = vec![7u8; 512];
    let items = vec![entry(b"exact", EntryType::RegularFile, &data)];
    let bytes = write_archive(&items).unwrap();
    assert_eq!(bytes.len(), 512 + 512 + 1024);
    let back = read_archive(&bytes).unwrap();
    assert_eq!(back[0].data, data);
}

#[test]
fn test_corrupt_archive_detected() {
    let items = vec![entry(b"a.txt", EntryType::RegularFile, b"hello")];
    let mut bytes = write_archive(&items).unwrap();
    bytes[0] ^= 0x40;
    assert!(matches!(read_archive(&bytes), Err(ArchiveError::Checksum)));
}
