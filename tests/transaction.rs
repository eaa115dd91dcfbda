use std::cell::{Cell, RefCell};
use std::collections::{BTreeMap, BTreeSet};

use pkgar::mode::Mode;
use pkgar::transaction::{verify_installed, Action, Request, Transaction};
use pkgar::{extract, remove, Error, PackageBuf, PackageBuilder, SecretKey, ENTRY_SIZE, HEADER_SIZE};

/// A file system in memory: files with permission bits, and symlinks.
#[derive(Default, Clone, PartialEq, Debug)]
struct MemFs {
    files: BTreeMap<Vec<u8>, (u32, Vec<u8>)>,
    links: BTreeMap<Vec<u8>, Vec<u8>>,
    dirs: BTreeSet<Vec<u8>>,
}

fn io(path: &[u8], message: &str) -> Error {
    Error::Io { path: path.to_vec(), message: message.to_string() }
}

impl MemFs {
    fn apply(&mut self, q: &Request) -> Result<(), Error> {
        match q {
            Request::CreateDirAll(p) => {
                self.dirs.insert(p.clone());
                Ok(())
            }
            Request::WriteFile { path, perm, data } => {
                self.files.insert(path.clone(), (*perm, data.clone()));
                Ok(())
            }
            Request::Read(p) => {
                if self.files.contains_key(p) || self.links.contains_key(p) {
                    Ok(())
                } else {
                    Err(io(p, "not found"))
                }
            }
            Request::Rename { from, to } => match self.files.remove(from) {
                Some(f) => {
                    self.links.remove(to);
                    self.files.insert(to.clone(), f);
                    Ok(())
                }
                None => Err(io(from, "not found")),
            },
            Request::Symlink { link, target } => {
                self.files.remove(target);
                self.links.insert(target.clone(), link.clone());
                Ok(())
            }
            Request::Remove(p) => {
                if self.files.remove(p).is_some() || self.links.remove(p).is_some() {
                    Ok(())
                } else {
                    Err(io(p, "not found"))
                }
            }
        }
    }

    fn read(&self, p: &[u8]) -> Result<Vec<u8>, Error> {
        match self.files.get(p) {
            Some((_, d)) => Ok(d.clone()),
            None => match self.links.get(p) {
                Some(l) => Ok(l.clone()),
                None => Err(io(p, "not found")),
            },
        }
    }

    fn staged(&self) -> Vec<Vec<u8>> {
        self.files
            .keys()
            .filter(|k| {
                let name = k.rsplit(|b| *b == b'/').next().unwrap();
                name.starts_with(b".pkgar.")
            })
            .cloned()
            .collect()
    }
}

fn archive(sk: &SecretKey, files: &[(&str, &str)], links: &[(&str, &str)]) -> Vec<u8> {
    let mut b = PackageBuilder::new(*sk);
    for (path, data) in files {
        b.file_reader(data.as_bytes().to_vec(), path.as_bytes(), Mode::from_bits(0o644).unwrap()).unwrap();
    }
    for (path, target) in links {
        b.symlink(target.as_bytes().to_vec(), path.as_bytes(), Mode::from_bits(0o777).unwrap()).unwrap();
    }
    b.write_archive().unwrap()
}

#[test]
fn install_round_trip() {
    let sk = SecretKey::new();
    let a = archive(&sk, &[("a/b.txt", "hello\n"), ("top", "t")], &[("a/c", "b.txt")]);
    let src = PackageBuf::new(a, &sk.public_key()).unwrap();
    let fs = RefCell::new(MemFs::default());
    let perform = |q: &Request| fs.borrow_mut().apply(q);
    let taken = |p: &[u8]| fs.borrow().files.contains_key(p);
    let mut t = Transaction::install(&src, b"/root", &taken, &perform).unwrap();
    assert_eq!(t.actions().len(), 3);
    // Nothing is visible before the commit.
    assert!(fs.borrow().files.get(&b"/root/a/b.txt".to_vec()).is_none());
    assert_eq!(t.commit(&perform).unwrap(), 3);
    let f = fs.borrow();
    assert_eq!(f.files.get(&b"/root/a/b.txt".to_vec()), Some(&(0o644, b"hello\n".to_vec())));
    assert_eq!(f.files.get(&b"/root/top".to_vec()), Some(&(0o644, b"t".to_vec())));
    assert_eq!(f.links.get(&b"/root/a/c".to_vec()), Some(&b"b.txt".to_vec()));
    assert!(f.staged().is_empty());
    assert!(f.dirs.contains(&b"/root/a".to_vec()));
    drop(f);
    let read = |p: &[u8]| fs.borrow().read(p);
    verify_installed(&src, b"/root", &read).unwrap();
}

#[test]
fn install_uses_hash_name_when_taken() {
    let sk = SecretKey::new();
    let a = archive(&sk, &[("f", "x")], &[]);
    let src = PackageBuf::new(a, &sk.public_key()).unwrap();
    let fs = RefCell::new(MemFs::default());
    fs.borrow_mut().files.insert(b"d/.pkgar.f".to_vec(), (0, Vec::new()));
    let perform = |q: &Request| fs.borrow_mut().apply(q);
    let taken = |p: &[u8]| fs.borrow().files.contains_key(p);
    let t = Transaction::install(&src, b"d", &taken, &perform).unwrap();
    let hex = blake3::hash(b"x").to_hex();
    let expected = format!("d/.pkgar.{}", hex.as_str()).into_bytes();
    match &t.actions()[0] {
        Action::Rename(tmp, target) => {
            assert_eq!(tmp, &expected);
            assert_eq!(target, &b"d/f".to_vec());
        }
        _ => panic!("expected a rename"),
    }
}

#[test]
fn corrupt_data_is_rejected_and_stages_removed() {
    let sk = SecretKey::new();
    let mut a = archive(&sk, &[("a", "first"), ("b", "second")], &[]);
    let data_start = HEADER_SIZE + 2 * ENTRY_SIZE;
    // Corrupt the second file's bytes: the first is staged, then removed.
    a[data_start + 6] ^= 0x01;
    let src = PackageBuf::new(a, &sk.public_key()).unwrap();
    let fs = RefCell::new(MemFs::default());
    let perform = |q: &Request| fs.borrow_mut().apply(q);
    let taken = |p: &[u8]| fs.borrow().files.contains_key(p);
    assert!(matches!(Transaction::install(&src, b"r", &taken, &perform), Err(Error::InvalidBlake3)));
    assert!(fs.borrow().files.is_empty());
}

#[test]
fn verify_detects_changed_file() {
    let sk = SecretKey::new();
    let a = archive(&sk, &[("a", "first")], &[]);
    let src = PackageBuf::new(a, &sk.public_key()).unwrap();
    let fs = RefCell::new(MemFs::default());
    fs.borrow_mut().files.insert(b"r/a".to_vec(), (0o644, b"firsT".to_vec()));
    let read = |p: &[u8]| fs.borrow().read(p);
    assert!(matches!(verify_installed(&src, b"r", &read), Err(Error::InvalidBlake3)));
    fs.borrow_mut().files.insert(b"r/a".to_vec(), (0o644, b"first!".to_vec()));
    assert!(matches!(verify_installed(&src, b"r", &read), Err(Error::LengthMismatch { actual: 6, expected: 5 })));
    fs.borrow_mut().files.clear();
    assert!(matches!(verify_installed(&src, b"r", &read), Err(Error::Io { .. })));
}

#[test]
fn install_then_remove_restores_tree() {
    let sk = SecretKey::new();
    let a = archive(&sk, &[("x/1", "one"), ("x/y/2", "two")], &[("l", "x/1")]);
    let fs = RefCell::new(MemFs::default());
    fs.borrow_mut().files.insert(b"base/keep".to_vec(), (0o600, b"mine".to_vec()));
    let before = fs.borrow().clone();
    let perform = |q: &Request| fs.borrow_mut().apply(q);
    let taken = |p: &[u8]| fs.borrow().files.contains_key(p);
    assert_eq!(extract(a.clone(), &sk.public_key(), b"base", &taken, &perform).unwrap(), 3);
    assert_eq!(remove(a, &sk.public_key(), b"base", &perform).unwrap(), 3);
    let after = fs.borrow();
    assert_eq!(after.files, before.files);
    assert_eq!(after.links, before.links);
}

#[test]
fn commit_resumes_after_failure() {
    let sk = SecretKey::new();
    let a = archive(&sk, &[("1", "a"), ("2", "b"), ("3", "c")], &[]);
    let src = PackageBuf::new(a, &sk.public_key()).unwrap();
    let fs = RefCell::new(MemFs::default());
    let renames_left = Cell::new(1usize);
    let perform = |q: &Request| {
        if let Request::Rename { from, .. } = q {
            if renames_left.get() == 0 {
                return Err(io(from, "injected"));
            }
            renames_left.set(renames_left.get() - 1);
        }
        fs.borrow_mut().apply(q)
    };
    let taken = |p: &[u8]| fs.borrow().files.contains_key(p);
    let mut t = Transaction::install(&src, b"t", &taken, &perform).unwrap();
    match t.commit(&perform) {
        Err(Error::FailedCommit { changed, remaining, .. }) => {
            assert_eq!(changed, 1);
            assert_eq!(remaining, 2);
        }
        other => panic!("unexpected {:?}", other),
    }
    assert_eq!(t.actions().len(), 2);
    // Exactly one rename is visible: the last planned, "t/3".
    assert!(fs.borrow().files.contains_key(&b"t/3".to_vec()));
    assert!(!fs.borrow().files.contains_key(&b"t/1".to_vec()));
    renames_left.set(10);
    assert_eq!(t.commit(&perform).unwrap(), 2);
    let f = fs.borrow();
    for p in [&b"t/1"[..], b"t/2", b"t/3"] {
        assert!(f.files.contains_key(&p.to_vec()));
    }
    assert!(f.staged().is_empty());
}

#[test]
fn abort_leaves_no_stage() {
    let sk = SecretKey::new();
    let a = archive(&sk, &[("d/1", "a"), ("d/2", "b")], &[("d/l", "1")]);
    let src = PackageBuf::new(a, &sk.public_key()).unwrap();
    let fs = RefCell::new(MemFs::default());
    let perform = |q: &Request| fs.borrow_mut().apply(q);
    let taken = |p: &[u8]| fs.borrow().files.contains_key(p);
    let mut t = Transaction::install(&src, b"r", &taken, &perform).unwrap();
    assert_eq!(fs.borrow().staged().len(), 2);
    assert_eq!(t.abort(&perform).unwrap(), 3);
    assert!(fs.borrow().staged().is_empty());
    assert!(fs.borrow().files.is_empty());
    assert!(t.actions().is_empty());
}

#[test]
fn abort_reports_failure_after_trying_all() {
    let fs = RefCell::new(MemFs::default());
    fs.borrow_mut().files.insert(b".pkgar.b".to_vec(), (0, Vec::new()));
    let perform = |q: &Request| fs.borrow_mut().apply(q);
    let mut t = Transaction::from_actions(vec![
        Action::Rename(b".pkgar.a".to_vec(), b"a".to_vec()),
        Action::Rename(b".pkgar.b".to_vec(), b"b".to_vec()),
        Action::Remove(b"c".to_vec()),
    ]);
    match t.abort(&perform) {
        Err(Error::FailedCommit { changed, remaining, .. }) => {
            assert_eq!(changed, 2);
            assert_eq!(remaining, 1);
        }
        other => panic!("unexpected {:?}", other),
    }
    assert!(fs.borrow().files.is_empty());
    assert_eq!(t.actions().len(), 1);
}

#[test]
fn crafted_escaping_path_is_rejected() {
    let sk = SecretKey::new();
    // Build with a harmless path of the same length, then rewrite it.
    let mut a = archive(&sk, &[("aa/escape", "x")], &[]);
    let path_at = HEADER_SIZE + 52;
    a[path_at..path_at + 9].copy_from_slice(b"../escape");
    let table = a[HEADER_SIZE..HEADER_SIZE + ENTRY_SIZE].to_vec();
    a[96..128].copy_from_slice(blake3::hash(&table).as_bytes());
    let mut sig = [0u8; 64];
    dryoc::classic::crypto_sign::crypto_sign_detached(&mut sig, &a[64..HEADER_SIZE], sk.as_data()).unwrap();
    a[0..64].copy_from_slice(&sig);
    let src = PackageBuf::new(a, &sk.public_key()).unwrap();
    let fs = RefCell::new(MemFs::default());
    let perform = |q: &Request| fs.borrow_mut().apply(q);
    let taken = |p: &[u8]| fs.borrow().files.contains_key(p);
    assert!(matches!(
        Transaction::install(&src, b"base", &taken, &perform),
        Err(Error::InvalidPathComponent { .. })
    ));
    assert!(matches!(Transaction::remove(&src, b"base", &perform), Err(Error::InvalidPathComponent { .. })));
    assert!(fs.borrow().files.is_empty());
}

#[test]
fn build_install_update_remove() {
    let sk = SecretKey::new();
    let files = [("lib.rs", "pub mod a;"), ("main.rs", "fn main() {}"), ("a/mod.rs", "// a")];
    let v1 = archive(&sk, &files, &[]);
    let v2 = archive(&sk, &[files[0], files[2]], &[]);
    let src1 = PackageBuf::new(v1, &sk.public_key()).unwrap();
    let src2 = PackageBuf::new(v2, &sk.public_key()).unwrap();
    let fs = RefCell::new(MemFs::default());
    let perform = |q: &Request| fs.borrow_mut().apply(q);
    let taken = |p: &[u8]| fs.borrow().files.contains_key(p);

    let mut install = Transaction::install(&src1, b"installroot", &taken, &perform).unwrap();
    install.commit(&perform).unwrap();
    assert_eq!(fs.borrow().files.len(), 3);

    let mut update = Transaction::replace(&src1, &src2, b"installroot", &taken, &perform).unwrap();
    update.commit(&perform).unwrap();
    assert!(!fs.borrow().files.contains_key(&b"installroot/main.rs".to_vec()));
    assert_eq!(fs.borrow().files.len(), 2);

    let mut remove = Transaction::remove(&src2, b"installroot", &perform).unwrap();
    remove.commit(&perform).unwrap();
    assert_eq!(fs.borrow().files.len(), 0);
}

#[test]
fn extract_checks_signature_first() {
    let sk = SecretKey::new();
    let a = archive(&sk, &[("f", "x")], &[]);
    let fs = RefCell::new(MemFs::default());
    let perform = |q: &Request| fs.borrow_mut().apply(q);
    let taken = |p: &[u8]| fs.borrow().files.contains_key(p);
    let other = SecretKey::new();
    assert!(matches!(extract(a, &other.public_key(), b"b", &taken, &perform), Err(Error::InvalidSignature)));
    assert!(fs.borrow().files.is_empty());
}

#[test]
fn directory_entry_is_invalid_mode() {
    let sk = SecretKey::new();
    let mut a = archive(&sk, &[("d", "x")], &[]);
    // Rewrite the mode as a directory, then fix up digest and signature.
    let mode_at = HEADER_SIZE + 48;
    a[mode_at..mode_at + 4].copy_from_slice(&0o040755u32.to_le_bytes());
    let table = a[HEADER_SIZE..HEADER_SIZE + ENTRY_SIZE].to_vec();
    a[96..128].copy_from_slice(blake3::hash(&table).as_bytes());
    let mut sig = [0u8; 64];
    dryoc::classic::crypto_sign::crypto_sign_detached(&mut sig, &a[64..HEADER_SIZE], sk.as_data()).unwrap();
    a[0..64].copy_from_slice(&sig);
    let src = PackageBuf::new(a, &sk.public_key()).unwrap();
    let fs = RefCell::new(MemFs::default());
    let perform = |q: &Request| fs.borrow_mut().apply(q);
    let taken = |p: &[u8]| fs.borrow().files.contains_key(p);
    assert!(matches!(
        Transaction::install(&src, b"base", &taken, &perform),
        Err(Error::InvalidMode(0o040755))
    ));
}

#[test]
fn replace_lands_new_entries_before_removing_stale_ones() {
    let sk = SecretKey::new();
    let v1 = archive(&sk, &[("keep", "same"), ("gone", "old"), ("edit", "v1")], &[]);
    let v2 = archive(&sk, &[("keep", "same"), ("edit", "v2"), ("new", "n")], &[]);
    let src1 = PackageBuf::new(v1, &sk.public_key()).unwrap();
    let src2 = PackageBuf::new(v2, &sk.public_key()).unwrap();
    let fs = RefCell::new(MemFs::default());
    let log: RefCell<Vec<&'static str>> = RefCell::new(Vec::new());
    let perform = |q: &Request| {
        match q {
            Request::Rename { .. } => log.borrow_mut().push("rename"),
            Request::Remove(_) => log.borrow_mut().push("remove"),
            _ => {}
        }
        fs.borrow_mut().apply(q)
    };
    let taken = |p: &[u8]| fs.borrow().files.contains_key(p);
    Transaction::install(&src1, b"r", &taken, &perform).unwrap().commit(&perform).unwrap();
    log.borrow_mut().clear();
    let mut t = Transaction::replace(&src1, &src2, b"r", &taken, &perform).unwrap();
    assert!(log.borrow().is_empty());
    t.commit(&perform).unwrap();
    assert_eq!(*log.borrow(), vec!["rename", "rename", "rename", "remove"]);
    let f = fs.borrow();
    assert!(!f.files.contains_key(&b"r/gone".to_vec()));
    assert_eq!(f.files.get(&b"r/edit".to_vec()).unwrap().1, b"v2".to_vec());
    assert_eq!(f.files.get(&b"r/keep".to_vec()).unwrap().1, b"same".to_vec());
    assert!(f.files.contains_key(&b"r/new".to_vec()));
}

#[test]
fn extract_empty_archive_touches_nothing() {
    let sk = SecretKey::new();
    let a = archive(&sk, &[], &[]);
    let calls = Cell::new(0usize);
    let perform = |_: &Request| {
        calls.set(calls.get() + 1);
        Ok(())
    };
    let taken = |_: &[u8]| false;
    assert_eq!(extract(a.clone(), &sk.public_key(), b"b", &taken, &perform).unwrap(), 0);
    assert_eq!(remove(a, &sk.public_key(), b"b", &perform).unwrap(), 0);
    assert_eq!(calls.get(), 0);
}
