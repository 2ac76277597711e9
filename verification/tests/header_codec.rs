use uu_tar::errors::ArchiveError;
use uu_tar::field::parse_octal;
use uu_tar::header::{decode_header, encode_header, Header};

fn sample_header() -> Header {
    Header {
        name: b"dir/file.txt".to_vec(),
        prefix: Vec::new(),
        mode: 0o644,
        uid: 1000,
        gid: 100,
        size: 1234,
        mtime: 1350244992,
        typeflag: b'0',
        linkname: Vec::new(),
        uname: b"user".to_vec(),
        gname: b"group".to_vec(),
    }
}

#[test]
fn test_header_roundtrip_fields() {
    let h = sample_header();
    let block = encode_header(&h).unwrap();
    assert_eq!(block.len(), 512);
    let d = decode_header(&block).unwrap();
    assert_eq!(d.name, b"dir/file.txt".to_vec());
    assert_eq!(d.mode, 0o644);
    assert_eq!(d.uid, 1000);
    assert_eq!(d.gid, 100);
    assert_eq!(d.size, 1234);
    assert_eq!(d.mtime, 1350244992);
    assert_eq!(d.typeflag, b'0');
    assert_eq!(d.uname, b"user".to_vec());
    assert_eq!(d.gname, b"group".to_vec());
    assert_eq!(d.prefix, Vec::<u8>::new());
}

#[test]
fn test_header_magic_and_checksum_layout() {
    let h = sample_header();
    let block = encode_header(&h).unwrap();
    assert_eq!(&block[257..262], b"ustar");
    assert_eq!(block[262], 0);
    assert_eq!(&block[263..265], b"00");
    // checksum field: six octal digits, NUL, space
    for i in 148..154 {
        assert!(block[i].is_ascii_digit());
    }
    assert_eq!(block[154], 0);
    assert_eq!(block[155], b' ');
}

#[test]
fn test_checksum_flip_any_byte_detected() {
    let h = sample_header();
    let block = encode_header(&h).unwrap();
    for i in 0..512 {
        if (148..156).contains(&i) {
            continue;
        }
        let mut corrupt = block.clone();
        corrupt[i] ^= 1;
        match decode_header(&corrupt) {
            Err(ArchiveError::Checksum) => {},
            other => panic!("flip at {i} gave {other:?}, not a checksum error"),
        }
    }
}

#[test]
fn test_decode_rejects_bad_magic() {
    let h = sample_header();
    let mut block = encode_header(&h).unwrap();
    // change the magic and fix the checksum by re-encoding by hand:
    // instead, decode a block of spaces in the checksum field is easier to
    // build from a fresh encode, so patch magic and recompute the sum.
    block[257] = b'X';
    let mut sum: u64 = 0;
    for i in 0..512 {
        if (148..156).contains(&i) {
            sum += 32;
        } else {
            sum += block[i] as u64;
        }
    }
    let chk = format!("{sum:06o}");
    block[148..154].copy_from_slice(chk.as_bytes());
    block[154] = 0;
    block[155] = b' ';
    match decode_header(&block) {
        Err(ArchiveError::Malformed) => {},
        other => panic!("expected a malformed-header error, got {other:?}"),
    }
}

#[test]
fn test_encode_rejects_oversized_fields() {
    let mut h = sample_header();
    h.name = vec![b'a'; 101];
    assert_eq!(encode_header(&h), Err(ArchiveError::Format));
    let mut h = sample_header();
    h.uid = 0o10000000;
    assert_eq!(encode_header(&h), Err(ArchiveError::Format));
    let mut h = sample_header();
    h.mtime = 0o100000000000;
    assert_eq!(encode_header(&h), Err(ArchiveError::Format));
}

#[test]
fn test_large_size_base256_roundtrip() {
    let mut h = sample_header();
    h.size = 0o100000000000; // one past the octal field's range
    let block = encode_header(&h).unwrap();
    assert_eq!(block[124], 0x80);
    let d = decode_header(&block).unwrap();
    assert_eq!(d.size, 0o100000000000);

    h.size = u64::MAX - 1;
    let block = encode_header(&h).unwrap();
    let d = decode_header(&block).unwrap();
    assert_eq!(d.size, u64::MAX - 1);
}

#[test]
fn test_mode_keeps_twelve_bits() {
    let mut h = sample_header();
    h.mode = 0o7777;
    let block = encode_header(&h).unwrap();
    let d = decode_header(&block).unwrap();
    assert_eq!(d.mode, 0o7777);
}

#[test]
fn test_prefix_joined_on_read() {
    let mut h = sample_header();
    h.prefix = b"some/long/directory".to_vec();
    h.name = b"file.txt".to_vec();
    let block = encode_header(&h).unwrap();
    let d = decode_header(&block).unwrap();
    // the header codec reports the fields as stored
    assert_eq!(d.prefix, b"some/long/directory".to_vec());
    assert_eq!(d.name, b"file.txt".to_vec());
}

#[test]
fn test_parse_octal_tolerates_padding() {
    assert_eq!(parse_octal(b"  644 \0 "), Some(0o644));
    assert_eq!(parse_octal(b"0000644\0"), Some(0o644));
    assert_eq!(parse_octal(b"777\0\0\0\0\0"), Some(0o777));
    assert_eq!(parse_octal(b"        "), None);
    assert_eq!(parse_octal(b"12x45\0\0\0"), None);
    assert_eq!(parse_octal(b"129\0\0\0\0\0"), None);
}
