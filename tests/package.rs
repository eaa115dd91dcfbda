use pkgar::flags::HeaderFlags;
use pkgar::mode::Mode;
use pkgar::{Entry, Error, Header, PackageBuf, PackageBuilder, PublicKey, SecretKey, ENTRY_SIZE, HEADER_SIZE};

const PACKAGE_ENTRY1: &[u8] = b"some random string file contents\n";
const PACKAGE_ENTRY1_PATH: &[u8] = b"var/db/fun";

const PACKAGE_ENTRY2: &[u8] = b"{\"__comment\":\"Some json data\", \"my_float\":92.17364}";
const PACKAGE_ENTRY2_PATH: &[u8] = b"lib/extra/randomjson.json";

fn sign(msg: &[u8], sk: &SecretKey) -> [u8; 64] {
    let mut sig = [0u8; 64];
    dryoc::classic::crypto_sign::crypto_sign_detached(&mut sig, msg, sk.as_data()).unwrap();
    sig
}

/// A signed header over `table`, with the given count, flags and key field.
fn signed_head(sk: &SecretKey, key_field: [u8; 32], count: u32, flags: u32, table: &[u8]) -> Vec<u8> {
    let mut header = Header {
        signature: [0; 64],
        public_key: key_field,
        blake3: *blake3::hash(table).as_bytes(),
        count,
        flags: HeaderFlags(flags),
    };
    let bytes = header.to_bytes();
    header.signature = sign(&bytes[64..], sk);
    let mut head = header.to_bytes();
    head.extend_from_slice(table);
    head
}

// returns (head, data)
fn package(sk: &SecretKey) -> (Vec<u8>, Vec<u8>) {
    let e1 = Entry::new(
        *blake3::hash(PACKAGE_ENTRY1).as_bytes(),
        0,
        PACKAGE_ENTRY1.len() as u64,
        Mode::from_bits(0o640).unwrap(),
        PACKAGE_ENTRY1_PATH,
    )
    .unwrap();
    let e2 = Entry::new(
        *blake3::hash(PACKAGE_ENTRY2).as_bytes(),
        PACKAGE_ENTRY1.len() as u64,
        PACKAGE_ENTRY2.len() as u64,
        Mode::from_bits(0o644).unwrap(),
        PACKAGE_ENTRY2_PATH,
    )
    .unwrap();
    let mut table = e1.to_bytes();
    table.extend_from_slice(&e2.to_bytes());
    let head = signed_head(sk, sk.public_key().into_data(), 2, 0, &table);
    let mut data = PACKAGE_ENTRY1.to_vec();
    data.extend_from_slice(PACKAGE_ENTRY2);
    (head, data)
}

fn built(sk: &SecretKey) -> Vec<u8> {
    let mut b = PackageBuilder::new(*sk);
    b.file_reader(b"hello\n".to_vec(), b"a/b.txt", Mode::from_bits(0o644).unwrap()).unwrap();
    b.file_reader(b"second file".to_vec(), b"z", Mode::from_bits(0o600).unwrap()).unwrap();
    b.write_archive().unwrap()
}

#[test]
fn pkgbuf_zeros() {
    let sk = SecretKey::new();
    let pkey = sk.public_key();
    let zeros = vec![0u8; HEADER_SIZE + ENTRY_SIZE * 2 + 1000];
    let rslt = PackageBuf::new(zeros, &pkey);
    assert!(rslt.is_err());
}

#[test]
fn pkgbuf_separate_segments() {
    let sk = SecretKey::new();
    let public_key = sk.public_key();
    let (head, data) = package(&sk);

    let head_src = PackageBuf::from_head(head, &public_key).unwrap();
    let entries: Vec<&Entry> = head_src.entries().iter().collect();

    assert_eq!(head_src.header().count(), 2);

    assert_eq!(entries[0].mode().ok(), Mode::from_bits(0o640));
    assert_eq!(entries[0].path_bytes(), PACKAGE_ENTRY1_PATH);
    assert_eq!(entries[1].mode().ok(), Mode::from_bits(0o644));
    assert_eq!(entries[1].path_bytes(), PACKAGE_ENTRY2_PATH);

    let data_src = PackageBuf::from_data(data);
    let mut buf = vec![0; 1024 * 4];

    data_src.read_entry(entries[0], 0, &mut buf).expect("Failed to fill buffer with entry 0");
    assert_eq!(&buf[..entries[0].size() as usize], PACKAGE_ENTRY1);

    data_src.read_entry(entries[1], 0, &mut buf).expect("Failed to fill buffer with entry 1");
    assert_eq!(&buf[..entries[1].size() as usize], PACKAGE_ENTRY2);
}

#[test]
fn pkgbuf_both_segments() {
    let sk = SecretKey::new();
    let pkey = sk.public_key();
    let (mut pkg, mut data) = package(&sk);

    pkg.append(&mut data);

    let src = PackageBuf::new(pkg, &pkey).unwrap();
    let mut entries = src.entries().iter();
    let entry1 = *entries.next().unwrap();
    let entry2 = *entries.next().unwrap();

    assert_eq!(src.header().count(), 2);

    assert_eq!(entry1.mode().ok(), Mode::from_bits(0o640));
    assert_eq!(entry1.path_bytes(), PACKAGE_ENTRY1_PATH);
    assert_eq!(entry2.mode().ok(), Mode::from_bits(0o644));
    assert_eq!(entry2.path_bytes(), PACKAGE_ENTRY2_PATH);

    let mut buf = vec![0; 1024 * 4];

    src.read_entry(&entry1, 0, &mut buf).unwrap();
    assert_eq!(&buf[..entry1.size() as usize], PACKAGE_ENTRY1);
    src.read_entry(&entry2, 0, &mut buf).unwrap();
    assert_eq!(&buf[..entry2.size() as usize], PACKAGE_ENTRY2);
}

#[test]
fn read_at_and_read_entry_bounds() {
    let sk = SecretKey::new();
    let (_, data) = package(&sk);
    let src = PackageBuf::from_data(data);
    let mut buf = [9u8; 4];
    assert_eq!(src.read_at(2, &mut buf).unwrap(), 4);
    assert_eq!(&buf, b"me r");
    let total = (PACKAGE_ENTRY1.len() + PACKAGE_ENTRY2.len()) as u64;
    let mut tail = [9u8; 4];
    assert_eq!(src.read_at(total - 1, &mut tail).unwrap(), 1);
    assert_eq!(tail, [b'}', 9, 9, 9]);
    assert_eq!(src.read_at(total, &mut tail).unwrap(), 0);
    let e = Entry::new([0; 32], 4, 3, Mode::from_bits(0o644).unwrap(), b"x").unwrap();
    let mut big = [0u8; 10];
    assert_eq!(src.read_entry(&e, 1, &mut big).unwrap(), 2);
    assert_eq!(&big[..2], b"ra");
    assert_eq!(src.read_entry(&e, 4, &mut big).unwrap(), 0);
    let far = Entry::new([0; 32], u64::MAX, 3, Mode::from_bits(0o644).unwrap(), b"x").unwrap();
    assert!(matches!(src.read_entry(&far, 1, &mut big), Err(Error::Overflow)));
    let past = Entry::new([0; 32], total - 1, 3, Mode::from_bits(0o644).unwrap(), b"x").unwrap();
    assert!(matches!(src.entry_data(&past), Err(Error::Truncated)));
}

#[test]
fn split_and_reassemble() {
    let sk = SecretKey::new();
    let archive = built(&sk);
    let src = PackageBuf::new(archive.clone(), &sk.public_key()).unwrap();
    let (head, data) = src.split();
    assert_eq!(head.len(), HEADER_SIZE + 2 * ENTRY_SIZE);
    let mut joined = head.clone();
    joined.extend_from_slice(&data);
    assert_eq!(joined, archive);
    let head_src = PackageBuf::from_head(head, &sk.public_key()).unwrap();
    let data_src = PackageBuf::from_data(data);
    let first = head_src.entries()[0];
    assert_eq!(data_src.entry_data(&first).unwrap(), b"hello\n".to_vec());
}

#[test]
fn header_rejects_every_flipped_byte() {
    let sk = SecretKey::new();
    let archive = built(&sk);
    for i in 0..HEADER_SIZE {
        let mut bad = archive.clone();
        bad[i] ^= 0x01;
        let r = PackageBuf::new(bad, &sk.public_key());
        assert!(matches!(r, Err(Error::InvalidSignature)), "byte {}", i);
    }
}

#[test]
fn entry_table_flip_gives_invalid_blake3() {
    let sk = SecretKey::new();
    let archive = built(&sk);
    for i in (HEADER_SIZE..HEADER_SIZE + 2 * ENTRY_SIZE).step_by(37) {
        let mut bad = archive.clone();
        bad[i] ^= 0x80;
        assert!(matches!(PackageBuf::new(bad, &sk.public_key()), Err(Error::InvalidBlake3)), "byte {}", i);
    }
}

#[test]
fn verify_entries_detects_corrupt_table() {
    let sk = SecretKey::new();
    let mut archive = built(&sk);
    let header = Header::new(&archive, &sk.public_key()).unwrap();
    assert_eq!(header.entries(&archive[HEADER_SIZE..]).unwrap().len(), 2);
    archive[HEADER_SIZE + 60] ^= 0xff;
    assert!(matches!(header.entries(&archive[HEADER_SIZE..]), Err(Error::InvalidBlake3)));
    assert!(matches!(header.entries(&archive[HEADER_SIZE..HEADER_SIZE + 10]), Err(Error::Truncated)));
}

#[test]
fn header_errors() {
    let sk = SecretKey::new();
    let other = SecretKey::new();
    let archive = built(&sk);
    assert!(matches!(Header::new(&archive[..HEADER_SIZE - 1], &sk.public_key()), Err(Error::Truncated)));
    assert!(matches!(Header::new(&archive, &other.public_key()), Err(Error::InvalidSignature)));
    // Signed by `sk` but naming another key.
    let head = signed_head(&sk, other.public_key().into_data(), 0, 0, &[]);
    assert!(matches!(Header::new(&head, &sk.public_key()), Err(Error::InvalidKey)));
    // A compressed archive cannot be read here.
    let lzma = signed_head(&sk, sk.public_key().into_data(), 0, 0x0001_0000, &[]);
    assert!(Header::new(&lzma, &sk.public_key()).is_ok());
    assert!(matches!(PackageBuf::new(lzma, &sk.public_key()), Err(Error::NotSupported)));
    let h = Header::new_unchecked(&archive).unwrap();
    assert_eq!(h.count(), 2);
    assert_eq!(h.entries_size().unwrap(), 2 * 308);
    assert_eq!(h.total_size().unwrap(), 136 + 2 * 308);
    assert_eq!(Header::entries_unchecked(&archive[HEADER_SIZE..HEADER_SIZE + 2 * ENTRY_SIZE]).unwrap().len(), 2);
    assert!(matches!(Header::entries_unchecked(&archive[HEADER_SIZE..HEADER_SIZE + 5]), Err(Error::Truncated)));
}

#[test]
fn keys_layout() {
    let sk = SecretKey::new();
    let data = sk.into_data();
    let again = SecretKey::from_data(data);
    assert_eq!(again.as_data(), &data);
    assert_eq!(again.public_key().as_data()[..], data[32..]);
    let pk = PublicKey::from_data([3; 32]);
    assert_eq!(pk.into_data(), [3; 32]);
}
