use std::mem;

use pkgar::flags::{Architecture, DataVersion, HeaderFlags, Packaging};
use pkgar::mode::{Mode, FILE_BITS, SYMLINK_BITS};
use pkgar::path::{check_path, join_path, stage_hash_path, stage_name_path};
use pkgar::{Entry, Error, Header, ENTRY_SIZE, HEADER_SIZE};

#[test]
fn test_header_size() {
    assert_eq!(mem::size_of::<Header>(), 136);
    assert_eq!(HEADER_SIZE, 136);
}

#[test]
fn test_entry_size() {
    assert_eq!(mem::size_of::<Entry>(), 308);
    assert_eq!(ENTRY_SIZE, 308);
}

#[test]
fn entry_header_size() {
    assert_eq!(mem::size_of::<Header>(), 136);
}

#[test]
fn entry_entry_size() {
    assert_eq!(mem::size_of::<Entry>(), 308);
}

#[test]
fn lib_header_size() {
    assert_eq!(mem::size_of::<Header>(), 136);
}

#[test]
fn lib_entry_size() {
    assert_eq!(mem::size_of::<Entry>(), 308);
}

#[test]
fn packed_header_size() {
    assert_eq!(mem::size_of::<Header>(), 136);
}

#[test]
fn packed_entry_size() {
    assert_eq!(mem::size_of::<Entry>(), 308);
}

#[test]
fn path_check() {
    assert!(check_path(b"/absolute/paths").is_err());
    assert!(check_path(b"trying_to_break_something/../../../..").is_err());
    assert!(check_path(b"./test.sh").is_err());

    check_path(b"normal/relative/path").expect("Normal paths should pass");
}

#[test]
fn path_check_edge_cases() {
    assert!(matches!(check_path(b""), Err(Error::InvalidPathComponent { .. })));
    assert!(matches!(check_path(b"a//b"), Err(Error::InvalidPathComponent { .. })));
    assert!(matches!(check_path(b"a/"), Err(Error::InvalidPathComponent { .. })));
    assert!(matches!(check_path(b"a/./b"), Err(Error::InvalidPathComponent { .. })));
    assert!(matches!(check_path(b".."), Err(Error::InvalidPathComponent { .. })));
    assert!(matches!(check_path(b"a\0b"), Err(Error::InvalidPathComponent { .. })));
    assert!(check_path(b".hidden/..x/x..").is_ok());
    assert!(check_path(b"a").is_ok());
}

#[test]
fn join_and_stage_names() {
    assert_eq!(join_path(b"/base", b"a/b.txt"), b"/base/a/b.txt".to_vec());
    assert_eq!(join_path(b"/base/", b"a"), b"/base/a".to_vec());
    assert_eq!(join_path(b"", b"a"), b"a".to_vec());
    assert_eq!(stage_name_path(b"/base/a/b.txt"), b"/base/a/.pkgar.b.txt".to_vec());
    assert_eq!(stage_name_path(b"b.txt"), b".pkgar.b.txt".to_vec());
    assert_eq!(stage_hash_path(b"/base/a/b.txt", b"00ff"), b"/base/a/.pkgar.00ff".to_vec());
}

#[test]
fn mode_kind_and_perm() {
    let m = Mode::from_bits(0o100644).unwrap();
    assert_eq!(m.kind().bits(), FILE_BITS);
    assert_eq!(m.perm().bits(), 0o644);
    let l = Mode::from_bits(0o120777).unwrap();
    assert_eq!(l.kind().bits(), SYMLINK_BITS);
    assert!(Mode::from_bits(0o1000000).is_none());
    assert_eq!(Mode::from_bits_truncate(0o1100644).bits(), 0o100644);
}

#[test]
fn flags_round_trip() {
    let f = HeaderFlags::new(DataVersion::V0, Architecture::AArch64, Packaging::LZMA);
    assert_eq!(f.0, 0x0001_0300);
    assert_eq!(f.version(), DataVersion::V0);
    assert_eq!(f.architecture(), Architecture::AArch64);
    assert_eq!(f.packaging(), Packaging::LZMA);
    let r = HeaderFlags::new(DataVersion::Reserved(7), Architecture::Reserved(9), Packaging::Reserved(2));
    assert_eq!(r.version(), DataVersion::Reserved(7));
    assert_eq!(r.architecture(), Architecture::Reserved(9));
    assert_eq!(r.packaging(), Packaging::Reserved(2));
    assert_eq!(HeaderFlags(0x0000_0400).architecture(), Architecture::RiscV64);
    assert_eq!(HeaderFlags::default().packaging(), Packaging::Uncompressed);
}

#[test]
fn entry_constructor() {
    let data = b"some file contents";
    let hash = *blake3::hash(data).as_bytes();
    let perm = Mode::from_bits(0o7777).unwrap();
    let entry = Entry::new(hash, 0, data.len() as u64, perm, b"/some/filepath").unwrap();
    entry.verify(&hash, data.len() as u64).unwrap();
}

#[test]
fn entry_bytes_round_trip() {
    let hash = [7u8; 32];
    let e = Entry::new(hash, 0x0102_0304_0506_0708, 42, Mode::from_bits(0o100600).unwrap(), b"x/y").unwrap();
    let b = e.to_bytes();
    assert_eq!(b.len(), ENTRY_SIZE);
    assert_eq!(&b[32..40], &[8, 7, 6, 5, 4, 3, 2, 1]);
    let back = Entry::from_bytes(&b);
    assert_eq!(back.offset(), 0x0102_0304_0506_0708);
    assert_eq!(back.size(), 42);
    assert_eq!(back.path_bytes(), b"x/y");
    assert_eq!(back.path(), b"x/y");
    assert_eq!(back.blake3(), hash);
    assert_eq!(back.mode().unwrap(), Mode::from_bits(0o100600).unwrap());
}

#[test]
fn entry_errors() {
    let long = vec![b'a'; 256];
    assert!(matches!(Entry::new([0; 32], 0, 0, Mode::from_bits(0).unwrap(), &long), Err(Error::PathTooLong { .. })));
    assert!(Entry::new([0; 32], 0, 0, Mode::from_bits(0).unwrap(), &long[..255]).is_ok());
    let e = Entry::new([1; 32], 0, 5, Mode::from_bits(0o100644).unwrap(), b"f").unwrap();
    assert!(matches!(e.verify(&[1; 32], 4), Err(Error::LengthMismatch { actual: 4, expected: 5 })));
    assert!(matches!(e.verify(&[2; 32], 5), Err(Error::InvalidBlake3)));
    let mut bad = e;
    bad.mode = 0o1000000;
    assert!(matches!(bad.mode(), Err(Error::InvalidMode(0o1000000))));
}

#[test]
fn hex_digits() {
    assert_eq!(pkgar::crypto::to_hex(&[0x00, 0xff, 0x1a, 0x90]), b"00ff1a90".to_vec());
    assert_eq!(pkgar::crypto::to_hex(&[]), Vec::<u8>::new());
}

#[test]
fn kind_and_perm_rebuild_the_mode() {
    for bits in [0o100644u32, 0o120777, 0o177777, 0o004755, 0] {
        let m = Mode::from_bits(bits).unwrap();
        assert_eq!(m.kind().bits() | m.perm().bits(), m.bits());
        assert_eq!(m.kind().bits() & m.perm().bits(), 0);
    }
    assert_eq!(Mode::from_bits_truncate(0xffff_ffff).bits(), 0o177777);
}
