use pkgar::mode::{Mode, FILE_BITS, SYMLINK_BITS};
use pkgar::{Error, PackageBuf, PackageBuilder, SecretKey, ENTRY_SIZE, HEADER_SIZE};

const SOME_FILE_PATH: &str = "some/file";
const SOME_FILE_PERMS: u32 = 0o640;
const SOME_FILE_CONTENTS: &str = "some file contents";
const SOME_SYMLINK_DEST: &str = "/some/symlink/destination";
const AN_ABSOLUTE_PATH: &str = "/some/absolute/path";

fn some_file_mode() -> Mode {
    Mode::from_bits_truncate(SOME_FILE_PERMS | FILE_BITS)
}

fn some_symlink_mode() -> Mode {
    Mode::from_bits_truncate(SOME_FILE_PERMS | SYMLINK_BITS)
}

#[test]
fn builder_file_writer() {
    let skey = SecretKey::new();
    let pkey = skey.public_key();

    let mut builder = PackageBuilder::new(skey);
    builder
        .file_reader(SOME_FILE_CONTENTS.as_bytes().to_vec(), SOME_FILE_PATH.as_bytes(), some_file_mode())
        .unwrap();
    let archive = builder.write_archive().unwrap();

    assert_eq!(SOME_FILE_CONTENTS.as_bytes(), &archive[HEADER_SIZE + ENTRY_SIZE..]);

    let src = PackageBuf::new(archive, &pkey).unwrap();
    let entry = src.entries()[0];

    assert_eq!(entry.blake3(), *blake3::hash(SOME_FILE_CONTENTS.as_bytes()).as_bytes());
    assert_eq!(entry.size(), SOME_FILE_CONTENTS.len() as u64);
    assert_eq!(entry.offset(), 0);
    assert_eq!(entry.mode().unwrap(), some_file_mode());
    assert_eq!(entry.path_bytes(), SOME_FILE_PATH.as_bytes());
}

#[test]
fn builder_symlink() {
    let skey = SecretKey::new();
    let pkey = skey.public_key();

    let mut builder = PackageBuilder::new(skey);
    builder
        .symlink(SOME_SYMLINK_DEST.as_bytes().to_vec(), SOME_FILE_PATH.as_bytes(), some_symlink_mode())
        .unwrap();
    let archive = builder.write_archive().unwrap();

    assert_eq!(SOME_SYMLINK_DEST.as_bytes(), &archive[HEADER_SIZE + ENTRY_SIZE..]);

    let src = PackageBuf::new(archive, &pkey).unwrap();
    let entry = src.entries()[0];

    assert_eq!(entry.blake3(), *blake3::hash(SOME_SYMLINK_DEST.as_bytes()).as_bytes());
    assert_eq!(entry.size(), SOME_SYMLINK_DEST.len() as u64);
    assert_eq!(entry.offset(), 0);
    assert_eq!(entry.mode().unwrap(), some_symlink_mode());
    assert_eq!(entry.path_bytes(), SOME_FILE_PATH.as_bytes());
}

#[test]
fn builder_absolute_path() {
    let skey = SecretKey::new();

    let mut builder = PackageBuilder::new(skey);
    assert!(builder
        .file_reader(SOME_FILE_CONTENTS.as_bytes().to_vec(), AN_ABSOLUTE_PATH.as_bytes(), some_file_mode())
        .is_err());
}

#[test]
fn build_empty_directory() {
    let skey = SecretKey::new();
    let pkey = skey.public_key();
    let archive = PackageBuilder::new(skey).write_archive().unwrap();
    assert_eq!(archive.len(), HEADER_SIZE);
    let src = PackageBuf::new(archive, &pkey).unwrap();
    assert_eq!(src.header().count(), 0);
    assert!(src.entries().is_empty());
}

#[test]
fn build_file_and_symlink_in_order() {
    let skey = SecretKey::new();
    let pkey = skey.public_key();
    let mut b = PackageBuilder::new(skey);
    // Added out of order: the archive lists them by path.
    b.symlink(b"b.txt".to_vec(), b"a/c", Mode::from_bits(0o777).unwrap()).unwrap();
    b.file_reader(b"hello\n".to_vec(), b"a/b.txt", Mode::from_bits(0o644).unwrap()).unwrap();
    let archive = b.write_archive().unwrap();
    let src = PackageBuf::new(archive, &pkey).unwrap();
    let paths = src.paths().unwrap();
    assert_eq!(paths, vec![b"a/b.txt".to_vec(), b"a/c".to_vec()]);
    let file = src.entries()[0];
    assert_eq!(file.blake3(), *blake3::hash(b"hello\n").as_bytes());
    assert_eq!(file.size(), 6);
    assert_eq!(file.mode().unwrap().bits(), 0o100644);
    let link = src.entries()[1];
    assert_eq!(link.mode().unwrap().kind().bits(), SYMLINK_BITS);
    assert_eq!(link.offset(), 6);
    assert_eq!(src.entry_data(&link).unwrap(), b"b.txt".to_vec());
}

#[test]
fn build_zero_byte_file() {
    let skey = SecretKey::new();
    let pkey = skey.public_key();
    let mut b = PackageBuilder::new(skey);
    b.file_reader(Vec::new(), b"empty", Mode::from_bits(0o600).unwrap()).unwrap();
    let src = PackageBuf::new(b.write_archive().unwrap(), &pkey).unwrap();
    let e = src.entries()[0];
    assert_eq!(e.size(), 0);
    assert_eq!(e.blake3(), *blake3::hash(b"").as_bytes());
}

#[test]
fn build_rejects_escaping_path() {
    let mut b = PackageBuilder::new(SecretKey::new());
    assert!(matches!(
        b.file_reader(b"x".to_vec(), b"../escape", Mode::from_bits(0o644).unwrap()),
        Err(Error::InvalidPathComponent { .. })
    ));
    assert!(matches!(
        b.symlink(b"x".to_vec(), b"a/./b", Mode::from_bits(0o644).unwrap()),
        Err(Error::InvalidPathComponent { .. })
    ));
}

#[test]
fn build_errors() {
    let mut b = PackageBuilder::new(SecretKey::new());
    b.file(b"abc".to_vec(), 4, b"declared", Mode::from_bits(0o644).unwrap()).unwrap();
    assert!(matches!(b.write_archive(), Err(Error::LengthMismatch { actual: 3, expected: 4 })));
    let mut b = PackageBuilder::new(SecretKey::new());
    let long = vec![b'p'; 256];
    b.file_reader(b"x".to_vec(), &long, Mode::from_bits(0o644).unwrap()).unwrap();
    assert!(matches!(b.write_archive(), Err(Error::PathTooLong { .. })));
}

#[test]
fn build_is_deterministic() {
    let skey = SecretKey::new();
    let make = |first_link: bool| {
        let mut b = PackageBuilder::new(skey);
        if first_link {
            b.symlink(b"t".to_vec(), b"l", Mode::from_bits(0o777).unwrap()).unwrap();
        }
        b.file(b"one".to_vec(), 3, b"d/1", Mode::from_bits(0o644).unwrap()).unwrap();
        if !first_link {
            b.symlink(b"t".to_vec(), b"l", Mode::from_bits(0o777).unwrap()).unwrap();
        }
        b.write_parts().unwrap()
    };
    let (h1, d1) = make(true);
    let (h2, d2) = make(false);
    assert_eq!(h1, h2);
    assert_eq!(d1, d2);
    assert_eq!(d1, b"onet".to_vec());
}

#[test]
fn equal_paths_keep_insertion_order() {
    let skey = SecretKey::new();
    let pkey = skey.public_key();
    let mut b = PackageBuilder::new(skey);
    b.file_reader(b"first".to_vec(), b"same", Mode::from_bits(0o644).unwrap()).unwrap();
    b.file_reader(b"0".to_vec(), b"a", Mode::from_bits(0o644).unwrap()).unwrap();
    b.file_reader(b"second".to_vec(), b"same", Mode::from_bits(0o644).unwrap()).unwrap();
    let src = PackageBuf::new(b.write_archive().unwrap(), &pkey).unwrap();
    let data: Vec<Vec<u8>> = src.entries().iter().map(|e| src.entry_data(e).unwrap()).collect();
    assert_eq!(data, vec![b"0".to_vec(), b"first".to_vec(), b"second".to_vec()]);
}
