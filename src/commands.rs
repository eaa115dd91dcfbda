//! Whole operations on an archive held in memory: verify it, then apply it
//! to a tree or take it away again.
use vstd::prelude::*;

use crate::entry::{path_of, Entry};
use crate::header::{count_field, parses_to, HEADER_SIZE};
use crate::keys::{argon2id_key, secretbox_opened, secretbox_sealed, PublicKey, SecretKeyFile};
use crate::laws::lemma_parses_unique;
use crate::package::{head_refusal, head_size, PackageBuf};
use crate::path::path_is_normal;
use crate::transaction::{
    commit_refused, committed, dirs_made, entry_installable, entry_refused, install_action,
    removal_planned, reported, stage_chosen, stage_written, target_read, Action, Request,
    Transaction,
};
use crate::Error;

verus! {

/// The entry table of an archive.
pub open spec fn table_of(archive: Seq<u8>) -> Seq<u8> {
    archive.subrange(HEADER_SIZE as int, head_size(archive))
}

/// The data region of an archive.
pub open spec fn region_of(archive: Seq<u8>) -> Seq<u8> {
    archive.subrange(head_size(archive), archive.len() as int)
}

/// Every entry of `archive` passed its checks, was staged under `base` and
/// committed: a file by a rename from a staging file that holds its bytes
/// with its permission bits, a symlink by a link to the bytes it holds.
pub open spec fn extracted<F: Fn(&Request) -> Result<(), Error>, G: Fn(&[u8]) -> bool>(
    perform: F,
    taken: G,
    archive: Seq<u8>,
    base: Seq<u8>,
) -> bool {
    exists|es: Seq<Entry>, acts: Seq<Action>|
        parses_to(table_of(archive), es) && acts.len() == es.len() && forall|i: int|
            0 <= i < es.len() ==> {
                &&& entry_installable(region_of(archive), #[trigger] es[i])
                &&& install_action(acts[i], base, region_of(archive), es[i])
                &&& stage_written(perform, acts[i], region_of(archive), es[i])
                &&& stage_chosen(taken, acts[i], base, es[i])
                &&& dirs_made(perform, base, es[i])
                &&& committed(perform, acts[i])
            }
}

/// Every entry of `archive` has a normal path, its target under `base` was
/// read, and the removal of that target was committed.
pub open spec fn removed<F: Fn(&Request) -> Result<(), Error>>(perform: F, archive: Seq<u8>, base: Seq<u8>) -> bool {
    exists|es: Seq<Entry>, acts: Seq<Action>|
        parses_to(table_of(archive), es) && acts.len() == es.len() && forall|i: int|
            0 <= i < es.len() ==> {
                &&& removal_planned(acts[i], base, #[trigger] es[i])
                &&& target_read(perform, base, es[i])
                &&& committed(perform, acts[i])
            }
}

/// Verifies `archive` under `pkey`, stages its entries under `base_dir` and
/// commits them. Returns how many actions took effect.
pub fn extract<F: Fn(&Request) -> Result<(), Error>, G: Fn(&[u8]) -> bool>(
    archive: Vec<u8>,
    pkey: &PublicKey,
    base_dir: &[u8],
    taken: &G,
    perform: &F,
) -> (r: Result<usize, Error>)
    requires
        forall|q: Request| #[trigger] call_requires(*perform, (&q,)),
        forall|p: &[u8]| #[trigger] call_requires(*taken, (p,)),
    ensures
        head_refusal(archive@, pkey.0@) matches Some(e) ==> (r matches Err(f) && f == e),
        head_refusal(archive@, pkey.0@) is None && count_field(archive@) == 0 ==> r == Ok::<usize, Error>(0),
        head_refusal(archive@, pkey.0@) is None ==> forall|es: Seq<Entry>|
            parses_to(table_of(archive@), es) && es.len() > 0 && !entry_installable(region_of(archive@), es[0])
                ==> (r matches Err(f) && entry_refused(region_of(archive@), es[0], f)),
        r matches Ok(n) ==> head_refusal(archive@, pkey.0@) is None && n == count_field(archive@)
            && extracted(*perform, *taken, archive@, base_dir@),        r matches Err(e) ==> head_refusal(archive@, pkey.0@) == Some(e) || (head_refusal(archive@, pkey.0@) is None
            && exists|es: Seq<Entry>, i: int|
            parses_to(table_of(archive@), es) && 0 <= i < es.len() && entry_refused(region_of(archive@), es[i], e))
            || reported(*perform, e) || (e is FailedCommit && exists|x: Action| commit_refused(*perform, x)),
{
    let ghost a = archive@;
    let package = match PackageBuf::new(archive, pkey) {
        Ok(p) => p,
        Err(e) => return Err(e),
    };
    proof {
        assert(package.data_region() =~= region_of(a));
        assert forall|es: Seq<Entry>| parses_to(table_of(a), es) implies es == package.entry_list() by {
            lemma_parses_unique(table_of(a), es, package.entry_list());
        }
    }
    let mut t = match Transaction::install(&package, base_dir, taken, perform) {
        Ok(t) => t,
        Err(e) => {
            proof {
                let es = package.entry_list();
                let i = choose|i: int|
                    0 <= i < es.len() && (forall|j: int|
                        0 <= j < i ==> entry_installable(package.data_region(), #[trigger] es[j])
                            && crate::transaction::stage_cleared(*perform, base_dir@, es[j])) && (entry_refused(
                        package.data_region(),
                        es[i],
                        e,
                    ) || (entry_installable(package.data_region(), es[i]) && reported(*perform, e)));
                if entry_refused(package.data_region(), es[i], e) {
                    assert(parses_to(table_of(a), es) && 0 <= i < es.len() && entry_refused(region_of(a), es[i], e));
                }
            }
            return Err(e);
        },
    };
    let ghost acts = t.pending();
    let r = t.commit(perform);
    proof {
        if r is Err {
            let e = r->Err_0;
            assert(commit_refused(*perform, acts[e->remaining - 1]));
        }
    }
    proof {
        if r is Ok {
            let es = package.entry_list();
            assert forall|i: int| 0 <= i < es.len() implies {
                &&& entry_installable(region_of(a), #[trigger] es[i])
                &&& install_action(acts[i], base_dir@, region_of(a), es[i])
                &&& stage_written(*perform, acts[i], region_of(a), es[i])
                &&& stage_chosen(*taken, acts[i], base_dir@, es[i])
                &&& dirs_made(*perform, base_dir@, es[i])
                &&& committed(*perform, acts[i])
            } by {
                assert(install_action(acts[i], base_dir@, package.data_region(), es[i]));
                assert(committed(*perform, acts[i]));
            }
            assert(extracted(*perform, *taken, a, base_dir@));
        }
    }
    r
}

/// Verifies `archive` under `pkey`, checks that each of its files under
/// `base_dir` can be read, and removes them. Returns how many were removed.
pub fn remove<F: Fn(&Request) -> Result<(), Error>>(
    archive: Vec<u8>,
    pkey: &PublicKey,
    base_dir: &[u8],
    perform: &F,
) -> (r: Result<usize, Error>)
    requires
        forall|q: Request| #[trigger] call_requires(*perform, (&q,)),
    ensures
        head_refusal(archive@, pkey.0@) matches Some(e) ==> (r matches Err(f) && f == e),
        head_refusal(archive@, pkey.0@) is None && count_field(archive@) == 0 ==> r == Ok::<usize, Error>(0),
        head_refusal(archive@, pkey.0@) is None ==> forall|es: Seq<Entry>|
            parses_to(table_of(archive@), es) && es.len() > 0 && !path_is_normal(path_of(es[0].path@))
                ==> (r matches Err(f) && f is InvalidPathComponent),
        r matches Ok(n) ==> head_refusal(archive@, pkey.0@) is None && n == count_field(archive@)
            && removed(*perform, archive@, base_dir@),        r matches Err(e) ==> head_refusal(archive@, pkey.0@) == Some(e) || (head_refusal(archive@, pkey.0@) is None
            && e is InvalidPathComponent && exists|es: Seq<Entry>, i: int|
            parses_to(table_of(archive@), es) && 0 <= i < es.len() && !path_is_normal(path_of(es[i].path@)))
            || reported(*perform, e) || (e is FailedCommit && exists|x: Action| commit_refused(*perform, x)),
{
    let ghost a = archive@;
    let package = match PackageBuf::new(archive, pkey) {
        Ok(p) => p,
        Err(e) => return Err(e),
    };
    proof {
        assert forall|es: Seq<Entry>| parses_to(table_of(a), es) implies es == package.entry_list() by {
            lemma_parses_unique(table_of(a), es, package.entry_list());
        }
    }
    let mut t = match Transaction::remove(&package, base_dir, perform) {
        Ok(t) => t,
        Err(e) => {
            proof {
                let es = package.entry_list();
                if !reported(*perform, e) {
                    let i = choose|i: int|
                        0 <= i < es.len() && ((!path_is_normal(path_of(es[i].path@)) && e is InvalidPathComponent)
                            || reported(*perform, e));
                    assert(parses_to(table_of(a), es) && 0 <= i < es.len() && !path_is_normal(path_of(es[i].path@)));
                }
            }
            return Err(e);
        },
    };
    let ghost acts = t.pending();
    let r = t.commit(perform);
    proof {
        if r is Err {
            let e = r->Err_0;
            assert(commit_refused(*perform, acts[e->remaining - 1]));
        }
    }
    proof {
        if r is Ok {
            let es = package.entry_list();
            assert forall|i: int| 0 <= i < es.len() implies {
                &&& removal_planned(acts[i], base_dir@, #[trigger] es[i])
                &&& target_read(*perform, base_dir@, es[i])
                &&& committed(*perform, acts[i])
            } by {
                assert(removal_planned(acts[i], base_dir@, es[i]));
                assert(committed(*perform, acts[i]));
            }
            assert(removed(*perform, a, base_dir@));
        }
    }
    r
}

/// Opens a key file with its old passphrase and seals it under a new one (an
/// empty one leaves it in the clear).
pub fn re_encrypt(skey_file: &mut SecretKeyFile, old_passwd: &[u8], new_passwd: &[u8]) -> (r: Result<(), Error>)
    ensures
        final(skey_file).salt == old(skey_file).salt,
        final(skey_file).nonce == old(skey_file).nonce,
        r is Ok ==> (new_passwd@.len() == 0 <==> final(skey_file).skey is Plain),
        old(skey_file).skey is Cipher && old_passwd@.len() == 0 ==> r matches Err(Error::PassphraseIncorrect),
        old(skey_file).skey is Plain && new_passwd@.len() == 0 ==> (r is Ok && final(skey_file).skey == old(
            skey_file,
        ).skey),
        r is Ok && new_passwd@.len() > 0 ==> exists|k: Seq<u8>|
            #![trigger secretbox_sealed(k, old(skey_file).nonce@, argon2id_key(new_passwd@, old(skey_file).salt@.take(16)))]
            (old(skey_file).skey is Plain ==> k == old(skey_file).skey->Plain_0@) && (old(
                skey_file,
            ).skey is Cipher ==> secretbox_opened(
                old(skey_file).skey->Cipher_0@,
                old(skey_file).nonce@,
                argon2id_key(old_passwd@, old(skey_file).salt@.take(16)),
            ) == Some(k)) && final(skey_file).skey is Cipher && final(skey_file).skey->Cipher_0@
                == secretbox_sealed(
                k,
                old(skey_file).nonce@,
                argon2id_key(new_passwd@, old(skey_file).salt@.take(16)),
            ),
{
    match skey_file.decrypt(old_passwd) {
        Ok(()) => {},
        Err(e) => return Err(e),
    }
    let ghost opened = skey_file.skey;
    let r = skey_file.encrypt(new_passwd);
    proof {
        if r is Ok && new_passwd@.len() > 0 {
            let k = opened->Plain_0@;
            assert(secretbox_sealed(k, old(skey_file).nonce@, argon2id_key(new_passwd@, old(skey_file).salt@.take(16)))
                == final(skey_file).skey->Cipher_0@);
        }
    }
    r
}

} // verus!
