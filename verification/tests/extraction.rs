use uu_tar::entry::{EntryModel, EntryType};
use uu_tar::errors::ArchiveError;
use uu_tar::extract::{check_safe_path, ExtractAction, ExtractOptions, Extractor};

fn plain_entry(name: &[u8], entry_type: EntryType) -> EntryModel {
    EntryModel {
        name: name.to_vec(),
        entry_type,
        linkname: Vec::new(),
        size: 0,
        mode: 0o755,
        uid: 0,
        gid: 0,
        mtime: 99,
        uname: Vec::new(),
        gname: Vec::new(),
    }
}

fn opts(preserve: bool, absolute: bool) -> ExtractOptions {
    ExtractOptions { preserve_permissions: preserve, absolute_names: absolute }
}

#[test]
fn test_safe_path_judgement() {
    assert!(check_safe_path(b"a/b/c.txt"));
    assert!(check_safe_path(b"..a/weird"));
    assert!(check_safe_path(b"a..b/..c/d.."));
    assert!(!check_safe_path(b""));
    assert!(!check_safe_path(b"/etc/passwd"));
    assert!(!check_safe_path(b"../x"));
    assert!(!check_safe_path(b"a/../x"));
    assert!(!check_safe_path(b"a/.."));
    assert!(!check_safe_path(b".."));
}

#[test]
fn test_unsafe_path_rejected() {
    let mut ex = Extractor::new(opts(false, false));
    let e = plain_entry(b"../../etc/passwd", EntryType::RegularFile);
    assert!(matches!(ex.plan_entry(&e), Err(ArchiveError::UnsafePath)));
}

#[test]
fn test_absolute_name_rejected_by_default() {
    let mut ex = Extractor::new(opts(false, false));
    let e = plain_entry(b"/abs/file", EntryType::RegularFile);
    assert!(matches!(ex.plan_entry(&e), Err(ArchiveError::UnsafePath)));
}

#[test]
fn test_absolute_names_mode_admits_them() {
    let mut ex = Extractor::new(opts(false, true));
    let e = plain_entry(b"/abs/file", EntryType::RegularFile);
    assert!(matches!(ex.plan_entry(&e), Ok(ExtractAction::WriteFile { .. })));
}

#[test]
fn test_permissions_applied_when_preserving() {
    let mut ex = Extractor::new(opts(true, false));
    let mut e = plain_entry(b"d", EntryType::Directory);
    e.mode = 0o1754;
    match ex.plan_entry(&e) {
        Ok(ExtractAction::CreateDir { mode }) => assert_eq!(mode, Some(0o1754)),
        other => panic!("unexpected plan {other:?}"),
    }
    let mut e = plain_entry(b"f", EntryType::RegularFile);
    e.mode = 0o4700;
    e.mtime = 777;
    match ex.plan_entry(&e) {
        Ok(ExtractAction::WriteFile { mode, mtime }) => {
            assert_eq!(mode, Some(0o4700));
            assert_eq!(mtime, 777);
        },
        other => panic!("unexpected plan {other:?}"),
    }
}

#[test]
fn test_permissions_defaulted_when_not_preserving() {
    let mut ex = Extractor::new(opts(false, false));
    let mut e = plain_entry(b"f", EntryType::RegularFile);
    e.mode = 0o4700;
    match ex.plan_entry(&e) {
        Ok(ExtractAction::WriteFile { mode, .. }) => assert_eq!(mode, None),
        other => panic!("unexpected plan {other:?}"),
    }
}

#[test]
fn test_hardlink_needs_earlier_target() {
    let mut ex = Extractor::new(opts(false, false));
    let mut hl = plain_entry(b"copy", EntryType::HardLink);
    hl.linkname = b"orig".to_vec();
    assert!(matches!(ex.plan_entry(&hl), Err(ArchiveError::DanglingLink)));

    let orig = plain_entry(b"orig", EntryType::RegularFile);
    ex.plan_entry(&orig).unwrap();
    match ex.plan_entry(&hl) {
        Ok(ExtractAction::MakeHardLink { target }) => assert_eq!(target, b"orig".to_vec()),
        other => panic!("unexpected plan {other:?}"),
    }
}

#[test]
fn test_symlink_plan_carries_target() {
    let mut ex = Extractor::new(opts(false, false));
    let mut e = plain_entry(b"l", EntryType::Symlink);
    e.linkname = b"../outside".to_vec(); // the link target itself is data
    match ex.plan_entry(&e) {
        Ok(ExtractAction::MakeSymlink { target }) => assert_eq!(target, b"../outside".to_vec()),
        other => panic!("unexpected plan {other:?}"),
    }
}

#[test]
fn test_permissions_preserved_through_pipeline() {
    // mode bits survive the wire format and reach the extraction plan
    // exactly when preservation is asked for
    let item = uu_tar::entry::ArchiveItem {
        entry: EntryModel {
            name: b"tool".to_vec(),
            entry_type: EntryType::RegularFile,
            linkname: Vec::new(),
            size: 2,
            mode: 0o2751, // setgid plus rwxr-x--x
            uid: 0,
            gid: 0,
            mtime: 5,
            uname: Vec::new(),
            gname: Vec::new(),
        },
        data: b"ok".to_vec(),
        pax_extras: Vec::new(),
    };
    let bytes = uu_tar::writer::write_archive(&vec![item]).unwrap();
    let back = uu_tar::reader::read_archive(&bytes).unwrap();
    assert_eq!(back[0].entry.mode, 0o2751);
    let mut ex = Extractor::new(opts(true, false));
    match ex.plan_entry(&back[0].entry) {
        Ok(ExtractAction::WriteFile { mode, mtime }) => {
            assert_eq!(mode, Some(0o2751));
            assert_eq!(mtime, 5);
        },
        other => panic!("unexpected plan {other:?}"),
    }
}

#[test]
fn test_exotic_type_skipped_not_dropped_silently() {
    let mut ex = Extractor::new(opts(false, false));
    let e = plain_entry(b"fifo", EntryType::Other(b'6'));
    assert!(matches!(ex.plan_entry(&e), Ok(ExtractAction::SkipUnsupported)));
}
