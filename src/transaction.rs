//! Applies archives to a directory tree through staged, restartable actions.
//!
//! The library decides every file system operation and hands each one, as a
//! `Request`, to a caller-supplied function that performs it.
use vstd::prelude::*;

use crate::bytes::to_vec;
use crate::crypto::{blake3_digest, blake3_of, hex_of, to_hex};
use crate::entry::{path_of, Entry};
use crate::mode::{Mode, FILE_BITS, KIND_BITS, PERM_BITS, SYMLINK_BITS};
use crate::package::{entry_in_region, entry_slice, PackageBuf};
use crate::path::{join, join_path, last_sep, parent_of, path_is_normal, stage_by_hash, stage_by_name};
use crate::Error;

verus! {

/// One file system operation, performed by the caller.
pub enum Request {
    /// Create a directory and its missing ancestors.
    CreateDirAll(Vec<u8>),
    /// Create or truncate a file with these permission bits and contents.
    WriteFile { path: Vec<u8>, perm: u32, data: Vec<u8> },
    /// Read a file in full; only whether that succeeds matters.
    Read(Vec<u8>),
    /// Rename a file, replacing what stands at `to`.
    Rename { from: Vec<u8>, to: Vec<u8> },
    /// Remove what stands at `target`, if anything, and create a symbolic
    /// link there that points to `link`.
    Symlink { link: Vec<u8>, target: Vec<u8> },
    /// Remove a file.
    Remove(Vec<u8>),
}

/// A deferred change to the tree.
pub enum Action {
    /// Link contents, then target
    Symlink(Vec<u8>, Vec<u8>),
    /// Temp files (`.pkgar.*`) to target files
    Rename(Vec<u8>, Vec<u8>),
    Remove(Vec<u8>),
}

/// `q` is the request that makes `a` take effect.
pub open spec fn commit_request(q: Request, a: Action) -> bool {
    match a {
        Action::Symlink(link, target) => q matches Request::Symlink { link: l, target: t } && l@
            == link@ && t@ == target@,
        Action::Rename(tmp, target) => q matches Request::Rename { from, to } && from@ == tmp@
            && to@ == target@,
        Action::Remove(target) => q matches Request::Remove(p) && p@ == target@,
    }
}

/// `q` is the request that undoes the staging of `a`.
pub open spec fn abort_request(q: Request, a: Action) -> bool {
    a matches Action::Rename(tmp, _) && q matches Request::Remove(p) && p@ == a->Rename_0@
}

/// The caller's function reports that it performed `q`.
pub open spec fn performed<F: Fn(&Request) -> Result<(), Error>>(perform: F, q: Request) -> bool {
    exists|r: Result<(), Error>| r is Ok && call_ensures(perform, (&q,), r)
}

/// The caller's function reports that it carried out action `a`.
pub open spec fn committed<F: Fn(&Request) -> Result<(), Error>>(perform: F, a: Action) -> bool {
    exists|q: Request| commit_request(q, a) && performed(perform, q)
}

/// The caller's function reports that it undid the staging of `a`.
pub open spec fn unstaged<F: Fn(&Request) -> Result<(), Error>>(perform: F, a: Action) -> bool {
    exists|q: Request| abort_request(q, a) && performed(perform, q)
}

/// `q` carries out one of `actions`.
pub open spec fn commit_asks(actions: Seq<Action>, q: Request) -> bool {
    exists|j: int| 0 <= j < actions.len() && commit_request(q, actions[j])
}

/// `q` undoes the staging of one of `actions`.
pub open spec fn abort_asks(actions: Seq<Action>, q: Request) -> bool {
    exists|j: int| 0 <= j < actions.len() && abort_request(q, actions[j])
}

/// The caller's function reported an error for the request that carries
/// out `a`.
pub open spec fn commit_refused<F: Fn(&Request) -> Result<(), Error>>(perform: F, a: Action) -> bool {
    exists|q: Request, err: Error| commit_request(q, a) && call_ensures(perform, (&q,), Err(err))
}

/// The caller's function reported an error for the removal of `a`'s
/// temporary file.
pub open spec fn unstage_failed<F: Fn(&Request) -> Result<(), Error>>(perform: F, a: Action) -> bool {
    exists|q: Request, err: Error| abort_request(q, a) && call_ensures(perform, (&q,), Err(err))
}

/// `kept` lists, in planned order, the renames among `before[from..]` whose
/// undoing failed; `idx` gives their places in `before`.
pub open spec fn kept_failures<F: Fn(&Request) -> Result<(), Error>>(
    perform: F,
    before: Seq<Action>,
    kept: Seq<Action>,
    idx: Seq<int>,
    from: int,
) -> bool {
    &&& idx.len() == kept.len()
    &&& forall|k: int| 0 <= k < idx.len() ==> from <= #[trigger] idx[k] < before.len()
    &&& forall|k: int, l: int| 0 <= k < l < idx.len() ==> #[trigger] idx[k] < #[trigger] idx[l]
    &&& forall|k: int|
        0 <= k < idx.len() ==> kept[k] == before[#[trigger] idx[k]] && before[idx[k]] is Rename
            && unstage_failed(perform, before[idx[k]])
}

/// What `abort` leaves: the renames whose undoing failed, in planned order;
/// every other rename was undone.
pub open spec fn abort_outcome<F: Fn(&Request) -> Result<(), Error>>(
    perform: F,
    before: Seq<Action>,
    after: Seq<Action>,
) -> bool {
    exists|idx: Seq<int>|
        kept_failures(perform, before, after, idx, 0) && forall|j: int|
            0 <= j < before.len() && (#[trigger] before[j]) is Rename && !idx.contains(j) ==> unstaged(
                perform,
                before[j],
            )
}

/// A commit that failed: `after` keeps the failed action and those not
/// tried; `changed` took effect and `remaining` are left.
pub open spec fn commit_failed(before: Seq<Action>, after: Seq<Action>, changed: usize, remaining: usize) -> bool {
    &&& remaining >= 1
    &&& changed + remaining == before.len()
    &&& after == before.take(remaining as int)
}

/// A commit that succeeded: every action took effect.
pub open spec fn commit_succeeded(before: Seq<Action>, after: Seq<Action>, changed: usize) -> bool {
    &&& changed == before.len()
    &&& after.len() == 0
}

/// Changes planned for a tree and not yet carried out. Dropping a
/// transaction leaves its staged files on disk; `abort` removes them.
pub struct Transaction {
    actions: Vec<Action>,
}

impl Transaction {
    /// The pending actions, in the order they were planned; they are carried
    /// out from the last.
    pub closed spec fn pending(&self) -> Seq<Action> {
        self.actions@
    }

    /// A transaction with these pending actions.
    pub fn from_actions(actions: Vec<Action>) -> (r: Transaction)
        ensures
            r.pending() == actions@,
    {
        Transaction { actions }
    }

    /// The pending actions.
    pub fn actions(&self) -> (r: &Vec<Action>)
        ensures
            r@ == self.pending(),
    {
        &self.actions
    }

    fn request_for_commit(a: &Action) -> (q: Request)
        ensures
            commit_request(q, *a),
    {
        match a {
            Action::Symlink(link, target) => Request::Symlink {
                link: to_vec(link.as_slice()),
                target: to_vec(target.as_slice()),
            },
            Action::Rename(tmp, target) => Request::Rename {
                from: to_vec(tmp.as_slice()),
                to: to_vec(target.as_slice()),
            },
            Action::Remove(target) => Request::Remove(to_vec(target.as_slice())),
        }
    }

    /// Carries out the pending actions, last planned first. On a failure the
    /// failed action stays pending with those not yet tried, so that a later
    /// call can resume.
    ///
    /// The caller's function need accept only the requests that carry out a
    /// pending action: `commit` makes no other.
    pub fn commit<F: Fn(&Request) -> Result<(), Error>>(&mut self, perform: &F) -> (r: Result<
        usize,
        Error,
    >)
        requires
            forall|q: Request| commit_asks(old(self).pending(), q) ==> #[trigger] call_requires(*perform, (&q,)),
        ensures
            old(self).pending().len() == 0 ==> r == Ok::<usize, Error>(0),
            r matches Ok(n) ==> commit_succeeded(old(self).pending(), final(self).pending(), n),
            r is Ok ==> forall|j: int|
                0 <= j < old(self).pending().len() ==> committed(*perform, #[trigger] old(self).pending()[j]),
            r matches Err(e) ==> (e is FailedCommit && commit_failed(
                old(self).pending(),
                final(self).pending(),
                e->changed,
                e->remaining,
            )),
            r matches Err(e) ==> forall|j: int|
                e->remaining <= j < old(self).pending().len() ==> committed(*perform, #[trigger] old(self).pending()[j]),
            r matches Err(e) ==> commit_refused(*perform, old(self).pending()[e->remaining - 1]),
    {
        let ghost before = self.actions@;
        let total = self.actions.len();
        let mut count: usize = 0;
        while self.actions.len() > 0
            invariant
                before == old(self).pending(),
                total == before.len(),
                count + self.actions@.len() == before.len(),
                self.actions@ == before.take(self.actions@.len() as int),
                forall|q: Request| commit_asks(before, q) ==> #[trigger] call_requires(*perform, (&q,)),
                forall|j: int|
                    self.actions@.len() <= j < before.len() ==> committed(*perform, #[trigger] before[j]),
            decreases self.actions@.len(),
        {
            let ghost pre = self.actions@;
            let action = self.actions.pop().unwrap();
            let ghost at = self.actions@.len() as int;
            proof {
                assert(action == before[at]);
            }
            let q = Self::request_for_commit(&action);
            assert(commit_asks(before, q));
            let res = perform(&q);
            match res {
                Ok(()) => {
                    count += 1;
                    proof {
                        assert(performed(*perform, q));
                        assert(committed(*perform, action));
                        assert(self.actions@ =~= before.take(self.actions@.len() as int));
                    }
                },
                Err(err) => {
                    proof {
                        assert(commit_refused(*perform, action));
                    }
                    self.actions.push(action);
                    proof {
                        assert(self.actions@ =~= before.take(self.actions@.len() as int));
                        assert(commit_failed(before, self.actions@, count, self.actions@.len() as usize));
                    }
                    let remaining = self.actions.len();
                    let failure = Error::FailedCommit {
                        source: Box::new(err),
                        changed: count,
                        remaining,
                    };
                    return Err(failure);
                },
            }
        }
        proof {
            assert(commit_succeeded(before, self.actions@, count));
        }
        Ok(count)
    }

    /// Undoes the staging of every pending action without committing: the
    /// temporary file of each rename is removed; the other actions staged
    /// nothing. Every action is tried once; those whose undoing failed stay
    /// pending, in their planned order, and the last failure is returned.
    ///
    /// The caller's function need accept only the removal of a pending
    /// rename's temporary file: `abort` makes no other request, so it never
    /// touches a target.
    pub fn abort<F: Fn(&Request) -> Result<(), Error>>(&mut self, perform: &F) -> (r: Result<
        usize,
        Error,
    >)
        requires
            forall|q: Request| abort_asks(old(self).pending(), q) ==> #[trigger] call_requires(*perform, (&q,)),
        ensures
            r matches Ok(n) ==> n == old(self).pending().len() && final(self).pending().len() == 0,
            r is Ok ==> forall|j: int|
                0 <= j < old(self).pending().len() && (#[trigger] old(self).pending()[j]) is Rename
                    ==> unstaged(*perform, old(self).pending()[j]),
            r matches Err(e) ==> (e matches Error::FailedCommit { changed, remaining, .. }
                && remaining == final(self).pending().len() && remaining >= 1 && changed
                + remaining == old(self).pending().len()),
            r is Ok <==> final(self).pending().len() == 0,
            (forall|j: int| 0 <= j < old(self).pending().len() ==> !(#[trigger] old(self).pending()[j] is Rename))
                ==> r is Ok,
            abort_outcome(*perform, old(self).pending(), final(self).pending()),
    {
        let ghost before = self.actions@;
        let ghost mut idx: Seq<int> = seq![];
        let n = self.actions.len();
        let mut count: usize = 0;
        let mut kept: usize = 0;
        let mut last_err: Option<Error> = None;
        let mut i: usize = 0;
        while i < n
            invariant
                before == old(self).pending(),
                n == before.len(),
                0 <= i <= n,
                kept <= i,
                count + kept == i,
                idx.len() == kept,
                self.actions@.len() == kept + (n - i),
                self.actions@.skip(kept as int) == before.take(n - i),
                kept_failures(*perform, before, self.actions@.take(kept as int), idx, n - i),
                forall|j: int|
                    n - i <= j < n && (#[trigger] before[j]) is Rename && !idx.contains(j) ==> unstaged(
                        *perform,
                        before[j],
                    ),
                last_err is Some <==> kept > 0,
                forall|q: Request| abort_asks(before, q) ==> #[trigger] call_requires(*perform, (&q,)),
            decreases n - i,
        {
            let ghost pre = self.actions@;
            let action = self.actions.pop().unwrap();
            let ghost at: int = n - i - 1;
            proof {
                assert(pre.skip(kept as int)[at] == pre[kept + at]);
                assert(before.take(n - i)[at] == before[at]);
                assert(self.actions@.skip(kept as int) =~= before.take(n - i - 1));
                assert(self.actions@.take(kept as int) =~= pre.take(kept as int));
            }
            let failed = match &action {
                Action::Rename(tmp, _) => {
                    let q = Request::Remove(to_vec(tmp.as_slice()));
                    assert(abort_request(q, action));
                    assert(abort_asks(before, q));
                    match perform(&q) {
                        Ok(()) => {
                            proof {
                                assert(performed(*perform, q));
                                assert(unstaged(*perform, action));
                            }
                            None
                        },
                        Err(err) => {
                            proof {
                                assert(unstage_failed(*perform, action));
                            }
                            Some(err)
                        },
                    }
                },
                _ => None,
            };
            match failed {
                Some(err) => {
                    let ghost mid = self.actions@;
                    let ghost old_idx = idx;
                    self.actions.insert(0, action);
                    proof {
                        idx = seq![at] + old_idx;
                        assert(self.actions@.skip(kept + 1) =~= mid.skip(kept as int));
                        assert(forall|j: int| 0 < j <= kept ==> self.actions@[j] == mid[j - 1]);
                        assert(self.actions@.take(kept + 1) =~= seq![action] + mid.take(kept as int));
                        assert forall|j: int|
                            n - i - 1 <= j < n && (#[trigger] before[j]) is Rename && !idx.contains(j)
                            implies unstaged(*perform, before[j]) by {
                            if j == at {
                                assert(idx[0] == j);
                            }
                            if old_idx.contains(j) {
                                let w = choose|w: int| 0 <= w < old_idx.len() && old_idx[w] == j;
                                assert(idx[w + 1] == j);
                            }
                        }
                    }
                    kept += 1;
                    last_err = Some(err);
                },
                None => {
                    proof {
                        assert forall|j: int|
                            n - i - 1 <= j < n && (#[trigger] before[j]) is Rename && !idx.contains(j)
                            implies unstaged(*perform, before[j]) by {
                        }
                    }
                    count += 1;
                },
            }
            i += 1;
        }
        proof {
            assert(self.actions@.take(kept as int) =~= self.actions@);
            assert(abort_outcome(*perform, before, self.actions@)) by {
                assert(kept_failures(*perform, before, self.actions@, idx, 0));
            }
        }
        match last_err {
            Some(err) => {
                proof {
                    assert(kept_failures(*perform, before, self.actions@, idx, 0));
                    assert(0 <= idx[0] < n);
                    assert(before[idx[0]] is Rename);
                }
                Err(Error::FailedCommit { source: Box::new(err), changed: count, remaining: kept })
            },
            None => {
                proof {
                    assert(before.take(n as int) =~= before);
                    assert forall|j: int|
                        0 <= j < n && (#[trigger] before[j]) is Rename implies unstaged(*perform, before[j]) by {
                        assert(!idx.contains(j));
                    }
                }
                Ok(count)
            },
        }
    }
}

/// Whether the mode's kind is a regular file or a symbolic link, with no
/// unknown bit.
pub open spec fn mode_installable(mode: u32) -> bool {
    &&& Mode::known_bits(mode)
    &&& (mode & KIND_BITS == FILE_BITS || mode & KIND_BITS == SYMLINK_BITS)
}

/// Whether `e` passes every check before it is staged from `region`.
pub open spec fn entry_installable(region: Seq<u8>, e: Entry) -> bool {
    &&& path_is_normal(path_of(e.path@))
    &&& mode_installable(e.mode)
    &&& entry_in_region(region, e)
    &&& blake3_of(entry_slice(region, e)) == e.blake3@
}

/// `err` is the error for the first check that `e` fails.
pub open spec fn entry_refused(region: Seq<u8>, e: Entry, err: Error) -> bool {
    if !path_is_normal(path_of(e.path@)) {
        err is InvalidPathComponent
    } else if !mode_installable(e.mode) {
        err == Error::InvalidMode(e.mode)
    } else if !entry_in_region(region, e) {
        err is Truncated
    } else if blake3_of(entry_slice(region, e)) != e.blake3@ {
        err is InvalidBlake3
    } else {
        false
    }
}

/// Where `e` lands under `base`.
pub open spec fn target_of(base: Seq<u8>, e: Entry) -> Seq<u8> {
    join(base, path_of(e.path@))
}

/// The action planned for `e`: a rename from one of its two staging names,
/// or a symlink to the bytes it holds.
pub open spec fn install_action(a: Action, base: Seq<u8>, region: Seq<u8>, e: Entry) -> bool {
    let target = target_of(base, e);
    if e.mode & KIND_BITS == FILE_BITS {
        &&& a is Rename
        &&& a->Rename_1@ == target
        &&& (a->Rename_0@ == stage_by_name(target) || a->Rename_0@ == stage_by_hash(
            target,
            hex_of(e.blake3@),
        ))
    } else {
        &&& a is Symlink
        &&& a->Symlink_0@ == entry_slice(region, e)
        &&& a->Symlink_1@ == target
    }
}

/// For a rename, the caller reports that the staged file was written with
/// the entry's permission bits and bytes.
pub open spec fn stage_written<F: Fn(&Request) -> Result<(), Error>>(
    perform: F,
    a: Action,
    region: Seq<u8>,
    e: Entry,
) -> bool {
    a is Rename ==> exists|q: Request|
        #![trigger performed(perform, q)]
        q is WriteFile && q->path@ == a->Rename_0@ && q->perm == e.mode & PERM_BITS && q->data@
            == entry_slice(region, e) && performed(perform, q)
}

/// `err` came back from the caller's function.
pub open spec fn reported<F: Fn(&Request) -> Result<(), Error>>(perform: F, err: Error) -> bool {
    exists|q: Request| call_ensures(perform, (&q,), Err(err))
}

/// One of the two staging paths of `e`'s target.
pub open spec fn is_stage_of(p: Seq<u8>, base: Seq<u8>, e: Entry) -> bool {
    p == stage_by_name(target_of(base, e)) || p == stage_by_hash(target_of(base, e), hex_of(e.blake3@))
}

/// A request that `install` may make for `e`, once `e` has passed its checks
/// against `region`: create the directory of its target, or write or remove
/// one of its staging files. None of them touches a target, and an entry
/// that fails its checks gets no request at all.
pub open spec fn install_asks_for(base: Seq<u8>, region: Seq<u8>, e: Entry, q: Request) -> bool {
    &&& entry_installable(region, e)
    &&& {
        ||| (q is CreateDirAll && last_sep(target_of(base, e)) >= 0 && q->CreateDirAll_0@ == parent_of(
            target_of(base, e),
        ))
        ||| (q is WriteFile && is_stage_of(q->path@, base, e))
        ||| (q is Remove && is_stage_of(q->Remove_0@, base, e))
    }
}

/// A request that `install` may make for one of `entries`.
pub open spec fn install_asks(base: Seq<u8>, region: Seq<u8>, entries: Seq<Entry>, q: Request) -> bool {
    exists|i: int| 0 <= i < entries.len() && install_asks_for(base, region, #[trigger] entries[i], q)
}

/// The caller reports that the directory of `e`'s target exists, if the
/// target has one.
pub open spec fn dirs_made<F: Fn(&Request) -> Result<(), Error>>(perform: F, base: Seq<u8>, e: Entry) -> bool {
    last_sep(target_of(base, e)) >= 0 ==> exists|q: Request|
        #![trigger performed(perform, q)]
        q is CreateDirAll && q->CreateDirAll_0@ == parent_of(target_of(base, e)) && performed(perform, q)
}

/// For a rename, its staging path is the name-based one exactly when the
/// caller's `taken` answered that this path is free.
pub open spec fn stage_chosen<G: Fn(&[u8]) -> bool>(taken: G, a: Action, base: Seq<u8>, e: Entry) -> bool {
    a is Rename ==> exists|p: &[u8], b: bool|
        #![trigger call_ensures(taken, (p,), b)]
        p@ == stage_by_name(target_of(base, e)) && call_ensures(taken, (p,), b) && (b ==> a->Rename_0@
            == stage_by_hash(target_of(base, e), hex_of(e.blake3@))) && (!b ==> a->Rename_0@
            == stage_by_name(target_of(base, e)))
}

/// For a file entry, the removal of one of its staging files was asked for
/// and either done or reported failed.
pub open spec fn stage_cleared<F: Fn(&Request) -> Result<(), Error>>(perform: F, base: Seq<u8>, e: Entry) -> bool {
    e.mode & KIND_BITS == FILE_BITS ==> exists|q: Request|
        #![trigger is_stage_of(q->Remove_0@, base, e)]
        q is Remove && is_stage_of(q->Remove_0@, base, e) && (performed(perform, q) || exists|err: Error|
            call_ensures(perform, (&q,), Err(err)))
}

impl Transaction {
    fn stage_entry<F: Fn(&Request) -> Result<(), Error>, G: Fn(&[u8]) -> bool>(
        src: &PackageBuf,
        e: &Entry,
        base_dir: &[u8],
        taken: &G,
        perform: &F,
    ) -> (r: Result<Action, Error>)
        requires
            src.wf(),
            forall|q: Request| install_asks_for(base_dir@, src.data_region(), *e, q) ==> #[trigger] call_requires(*perform, (&q,)),
            forall|p: &[u8]| #[trigger] call_requires(*taken, (p,)),
        ensures
            r matches Ok(a) ==> entry_installable(src.data_region(), *e) && install_action(
                a,
                base_dir@,
                src.data_region(),
                *e,
            ) && stage_written(*perform, a, src.data_region(), *e) && stage_chosen(*taken, a, base_dir@, *e)
                && dirs_made(*perform, base_dir@, *e),
            r matches Err(err) ==> entry_refused(src.data_region(), *e, err) || (entry_installable(
                src.data_region(),
                *e,
            ) && reported(*perform, err)),
    {
        let rel = match e.check_path() {
            Ok(p) => p,
            Err(err) => return Err(err),
        };
        let mode = match e.mode() {
            Ok(m) => m,
            Err(err) => return Err(err),
        };
        let kind = mode.bits() & KIND_BITS;
        if kind != FILE_BITS && kind != SYMLINK_BITS {
            return Err(Error::InvalidMode(e.mode));
        }
        let data = match src.entry_data(e) {
            Ok(d) => d,
            Err(err) => return Err(err),
        };
        let hash = blake3_digest(data.as_slice());
        if !crate::bytes::bytes_eq(&hash, &e.blake3) {
            return Err(Error::InvalidBlake3);
        }
        let target = join_path(base_dir, rel);
        let start = crate::path::name_start(target.as_slice());
        if start > 0 {
            let q = Request::CreateDirAll(to_vec(&target.as_slice()[0..start - 1]));
            assert(install_asks_for(base_dir@, src.data_region(), *e, q));
            match perform(&q) {
                Ok(()) => {
                    assert(performed(*perform, q));
                },
                Err(err) => return Err(err),
            }
        }
        if kind == FILE_BITS {
            let by_name = crate::path::stage_name_path(target.as_slice());
            let is_taken = taken(by_name.as_slice());
            let tmp = if is_taken {
                let hex = to_hex(&e.blake3);
                crate::path::stage_hash_path(target.as_slice(), hex.as_slice())
            } else {
                by_name
            };
            let q = Request::WriteFile { path: to_vec(tmp.as_slice()), perm: mode.bits() & PERM_BITS, data };
            assert(install_asks_for(base_dir@, src.data_region(), *e, q));
            match perform(&q) {
                Ok(()) => {},
                Err(err) => return Err(err),
            }
            let a = Action::Rename(tmp, target);
            assert(performed(*perform, q));
            assert(stage_chosen(*taken, a, base_dir@, *e));
            Ok(a)
        } else {
            Ok(Action::Symlink(data, target))
        }
    }

    /// Stages every entry of `src` under `base_dir`, in table order: the
    /// directory of each target is created, a regular file is written to a
    /// hidden sibling of its target, a symlink is held in memory. Nothing is
    /// visible until `commit`. When an entry fails its checks, or a request
    /// fails, the staged files are removed again (by `abort`) and the error
    /// is returned.
    ///
    /// The caller's function need accept only the requests of
    /// `install_asks`: `install` makes no other, so no target is created,
    /// changed or removed.
    pub fn install<F: Fn(&Request) -> Result<(), Error>, G: Fn(&[u8]) -> bool>(
        src: &PackageBuf,
        base_dir: &[u8],
        taken: &G,
        perform: &F,
    ) -> (r: Result<Transaction, Error>)
        requires
            src.wf(),
            forall|q: Request| install_asks(base_dir@, src.data_region(), src.entry_list(), q) ==> #[trigger] call_requires(*perform, (&q,)),
            forall|p: &[u8]| #[trigger] call_requires(*taken, (p,)),
        ensures
            src.entry_list().len() == 0 ==> (r matches Ok(t) && t.pending().len() == 0),
            r matches Ok(t) ==> {
                &&& t.pending().len() == src.entry_list().len()
                &&& forall|i: int|
                    0 <= i < src.entry_list().len() ==> entry_installable(
                        src.data_region(),
                        #[trigger] src.entry_list()[i],
                    )
                &&& forall|i: int|
                    0 <= i < src.entry_list().len() ==> install_action(
                        #[trigger] t.pending()[i],
                        base_dir@,
                        src.data_region(),
                        src.entry_list()[i],
                    ) && stage_written(*perform, t.pending()[i], src.data_region(), src.entry_list()[i])
                        && stage_chosen(*taken, t.pending()[i], base_dir@, src.entry_list()[i])
                        && dirs_made(*perform, base_dir@, src.entry_list()[i])
            },
            r matches Err(err) ==> exists|i: int|
                0 <= i < src.entry_list().len() && (forall|j: int|
                    0 <= j < i ==> entry_installable(src.data_region(), #[trigger] src.entry_list()[j])
                        && stage_cleared(*perform, base_dir@, src.entry_list()[j]))
                    && (entry_refused(src.data_region(), src.entry_list()[i], err) || (entry_installable(
                    src.data_region(),
                    src.entry_list()[i],
                ) && reported(*perform, err))),
            src.entry_list().len() > 0 && !entry_installable(src.data_region(), src.entry_list()[0])
                ==> (r matches Err(err) && entry_refused(src.data_region(), src.entry_list()[0], err)),
    {
        let entries = src.entries();
        let mut t = Transaction { actions: Vec::new() };
        let mut i: usize = 0;
        while i < entries.len()
            invariant
                src.wf(),
                entries@ == src.entry_list(),
                forall|q: Request| install_asks(base_dir@, src.data_region(), entries@, q) ==> #[trigger] call_requires(*perform, (&q,)),
                forall|p: &[u8]| #[trigger] call_requires(*taken, (p,)),
                0 <= i <= entries@.len(),
                t.actions@.len() == i,
                forall|j: int|
                    0 <= j < i ==> entry_installable(src.data_region(), #[trigger] entries@[j]),
                forall|j: int|
                    0 <= j < i ==> install_action(
                        #[trigger] t.actions@[j],
                        base_dir@,
                        src.data_region(),
                        entries@[j],
                    ) && stage_written(*perform, t.actions@[j], src.data_region(), entries@[j])
                        && stage_chosen(*taken, t.actions@[j], base_dir@, entries@[j])
                        && dirs_made(*perform, base_dir@, entries@[j]),
            decreases entries@.len() - i,
        {
            proof {
                assert forall|q: Request| install_asks_for(base_dir@, src.data_region(), entries@[i as int], q) implies #[trigger] call_requires(
                    *perform,
                    (&q,),
                ) by {
                    assert(install_asks(base_dir@, src.data_region(), entries@, q));
                }
            }
            match Self::stage_entry(src, &entries[i], base_dir, taken, perform) {
                Ok(a) => {
                    t.actions.push(a);
                },
                Err(err) => {
                    let ghost staged = t.actions@;
                    proof {
                        assert forall|q: Request| abort_asks(staged, q) implies #[trigger] call_requires(
                            *perform,
                            (&q,),
                        ) by {
                            let j = choose|j: int| 0 <= j < staged.len() && abort_request(q, staged[j]);
                            assert(install_action(staged[j], base_dir@, src.data_region(), entries@[j]));
                            assert(install_asks_for(base_dir@, src.data_region(), entries@[j], q));
                            assert(install_asks(base_dir@, src.data_region(), entries@, q));
                        }
                    }
                    let _ = t.abort(perform);
                    proof {
                        let idx = choose|idx: Seq<int>|
                            kept_failures(*perform, staged, t.actions@, idx, 0) && forall|j: int|
                                0 <= j < staged.len() && (#[trigger] staged[j]) is Rename && !idx.contains(j)
                                    ==> unstaged(*perform, staged[j]);
                        assert forall|j: int| 0 <= j < i implies stage_cleared(*perform, base_dir@, #[trigger] entries@[j]) by {
                            assert(install_action(staged[j], base_dir@, src.data_region(), entries@[j]));
                            if entries@[j].mode & KIND_BITS == FILE_BITS {
                                if idx.contains(j) {
                                    let k = choose|k: int| 0 <= k < idx.len() && idx[k] == j;
                                    assert(unstage_failed(*perform, staged[idx[k]]));
                                    let (q, e2) = choose|q: Request, e2: Error| abort_request(q, staged[j]) && call_ensures(*perform, (&q,), Err(e2));
                                    assert(is_stage_of(q->Remove_0@, base_dir@, entries@[j]));
                                } else {
                                    assert(unstaged(*perform, staged[j]));
                                    let q = choose|q: Request| abort_request(q, staged[j]) && performed(*perform, q);
                                    assert(is_stage_of(q->Remove_0@, base_dir@, entries@[j]));
                                }
                            }
                        }
                    }
                    return Err(err);
                },
            }
            i += 1;
        }
        Ok(t)
    }

    /// Plans the removal of every entry of `src` from `base_dir`. Each
    /// installed file is first read in full, so that a missing or unreadable
    /// one stops the plan before anything is removed.
    ///
    /// The caller's function need accept only the reading of a target: this
    /// function makes no other request.
    pub fn remove<F: Fn(&Request) -> Result<(), Error>>(
        src: &PackageBuf,
        base_dir: &[u8],
        perform: &F,
    ) -> (r: Result<Transaction, Error>)
        requires
            forall|q: Request| remove_asks(base_dir@, src.entry_list(), q) ==> #[trigger] call_requires(*perform, (&q,)),
        ensures
            src.entry_list().len() == 0 ==> (r matches Ok(t) && t.pending().len() == 0),
            r matches Ok(t) ==> {
                &&& t.pending().len() == src.entry_list().len()
                &&& forall|i: int|
                    0 <= i < src.entry_list().len() ==> removal_planned(
                        #[trigger] t.pending()[i],
                        base_dir@,
                        src.entry_list()[i],
                    ) && target_read(*perform, base_dir@, src.entry_list()[i])
            },
            r matches Err(err) ==> exists|i: int|
                0 <= i < src.entry_list().len() && ((!path_is_normal(path_of(src.entry_list()[i].path@))
                    && err is InvalidPathComponent) || reported(*perform, err)),
            src.entry_list().len() > 0 && !path_is_normal(path_of(src.entry_list()[0].path@)) ==> (r matches Err(
                err,
            ) && err is InvalidPathComponent),
    {
        let entries = src.entries();
        let mut t = Transaction { actions: Vec::new() };
        let mut i: usize = 0;
        while i < entries.len()
            invariant
                entries@ == src.entry_list(),
                forall|q: Request| remove_asks(base_dir@, entries@, q) ==> #[trigger] call_requires(*perform, (&q,)),
                0 <= i <= entries@.len(),
                t.actions@.len() == i,
                forall|j: int|
                    0 <= j < i ==> removal_planned(#[trigger] t.actions@[j], base_dir@, entries@[j])
                        && target_read(*perform, base_dir@, entries@[j]),
            decreases entries@.len() - i,
        {
            let rel = match entries[i].check_path() {
                Ok(p) => p,
                Err(err) => return Err(err),
            };
            let target = join_path(base_dir, rel);
            let q = Request::Read(to_vec(target.as_slice()));
            assert(remove_asks(base_dir@, entries@, q)) by {
                assert(q is Read && q->Read_0@ == target_of(base_dir@, entries@[i as int]));
            }
            match perform(&q) {
                Ok(()) => {
                    assert(performed(*perform, q));
                },
                Err(err) => {
                    proof {
                        if i > 0 {
                            assert(removal_planned(t.actions@[0], base_dir@, entries@[0]));
                        }
                    }
                    return Err(err);
                },
            }
            t.actions.push(Action::Remove(target));
            assert(removal_planned(t.actions@[i as int], base_dir@, entries@[i as int]));
            i += 1;
        }
        proof {
            if i > 0 {
                assert(removal_planned(t.actions@[0], base_dir@, entries@[0]));
            }
        }
        Ok(t)
    }
}

/// A request that `Transaction::remove` may make: reading the target of one
/// of `entries`.
pub open spec fn remove_asks(base: Seq<u8>, entries: Seq<Entry>, q: Request) -> bool {
    exists|i: int| 0 <= i < entries.len() && q is Read && q->Read_0@ == target_of(base, #[trigger] entries[i])
}

/// The caller reports that it read `e`'s target.
pub open spec fn target_read<F: Fn(&Request) -> Result<(), Error>>(perform: F, base: Seq<u8>, e: Entry) -> bool {
    exists|q: Request|
        #![trigger performed(perform, q)]
        q is Read && q->Read_0@ == target_of(base, e) && performed(perform, q)
}

/// `a` removes what `e` installed under `base`.
pub open spec fn removal_planned(a: Action, base: Seq<u8>, e: Entry) -> bool {
    &&& path_is_normal(path_of(e.path@))
    &&& a is Remove
    &&& a->Remove_0@ == target_of(base, e)
}

/// Whether some entry of `es` has digest `d`.
pub open spec fn digest_in(es: Seq<Entry>, d: Seq<u8>) -> bool {
    exists|j: int| 0 <= j < es.len() && (#[trigger] es[j]).blake3@ == d
}

/// Whether some entry of `es` has path `p`.
pub open spec fn path_in(es: Seq<Entry>, p: Seq<u8>) -> bool {
    exists|j: int| 0 <= j < es.len() && path_of((#[trigger] es[j]).path@) == p
}

/// The entries of `old` whose digest no entry of `new` has, in order,
/// leaving out those whose path `new` installs again (its rename replaces
/// them).
pub open spec fn stale(old: Seq<Entry>, new: Seq<Entry>) -> Seq<Entry>
    decreases old.len(),
{
    if old.len() == 0 {
        seq![]
    } else if digest_in(new, old.last().blake3@) || path_in(new, path_of(old.last().path@)) {
        stale(old.drop_last(), new)
    } else {
        stale(old.drop_last(), new).push(old.last())
    }
}

impl Transaction {
    fn has_path(es: &Vec<Entry>, p: &[u8]) -> (r: bool)
        ensures
            r == path_in(es@, p@),
    {
        let mut j: usize = 0;
        while j < es.len()
            invariant
                0 <= j <= es@.len(),
                forall|k: int| 0 <= k < j ==> path_of((#[trigger] es@[k]).path@) != p@,
            decreases es@.len() - j,
        {
            if crate::bytes::bytes_eq(es[j].path_bytes(), p) {
                return true;
            }
            j += 1;
        }
        false
    }

    fn has_digest(es: &Vec<Entry>, d: &[u8; 32]) -> (r: bool)
        ensures
            r == digest_in(es@, d@),
    {
        let mut j: usize = 0;
        while j < es.len()
            invariant
                0 <= j <= es@.len(),
                forall|k: int| 0 <= k < j ==> (#[trigger] es@[k]).blake3@ != d@,
            decreases es@.len() - j,
        {
            if crate::bytes::bytes_eq(&es[j].blake3, d) {
                return true;
            }
            j += 1;
        }
        false
    }

    /// Upgrades `base_dir` from `old` to `new`: installs `new`, and plans the
    /// removal of each stale entry of `old`. The removals are planned beneath
    /// the install actions, so `commit`, which carries out the last planned
    /// first, lands every new entry before it unlinks a stale one.
    ///
    /// An entry of `old` is stale when `new` has no entry with its digest and
    /// none with its path. An old entry whose digest is gone but whose path
    /// `new` installs again is not removed: the new entry's rename has
    /// already replaced it, and removing the path afterwards would delete the
    /// new file.
    ///
    /// It makes no request of its own beyond those of `install`: it deletes
    /// nothing until `commit`.
    pub fn replace<F: Fn(&Request) -> Result<(), Error>, G: Fn(&[u8]) -> bool>(
        old: &PackageBuf,
        new: &PackageBuf,
        base_dir: &[u8],
        taken: &G,
        perform: &F,
    ) -> (r: Result<Transaction, Error>)
        requires
            new.wf(),
            forall|q: Request| install_asks(base_dir@, new.data_region(), new.entry_list(), q) ==> #[trigger] call_requires(*perform, (&q,)),
            forall|p: &[u8]| #[trigger] call_requires(*taken, (p,)),
        ensures
            r matches Ok(t) ==> {
                let n = new.entry_list().len();
                let gone = stale(old.entry_list(), new.entry_list());
                &&& t.pending().len() == gone.len() + n
                &&& forall|k: int|
                    0 <= k < gone.len() ==> #[trigger] removal_planned(t.pending()[k], base_dir@, gone[k])
                &&& forall|i: int|
                    0 <= i < n ==> install_action(
                        #[trigger] t.pending()[gone.len() + i],
                        base_dir@,
                        new.data_region(),
                        new.entry_list()[i],
                    ) && entry_installable(new.data_region(), new.entry_list()[i]) && stage_written(
                        *perform,
                        t.pending()[gone.len() + i],
                        new.data_region(),
                        new.entry_list()[i],
                    ) && stage_chosen(*taken, t.pending()[gone.len() + i], base_dir@, new.entry_list()[i])
                        && dirs_made(*perform, base_dir@, new.entry_list()[i])
            },
            r matches Err(err) ==> (err is InvalidPathComponent && exists|k: int|
                0 <= k < stale(old.entry_list(), new.entry_list()).len() && !path_is_normal(
                    path_of(stale(old.entry_list(), new.entry_list())[k].path@),
                )) || exists|i: int|
                0 <= i < new.entry_list().len() && (forall|j: int|
                    0 <= j < i ==> entry_installable(new.data_region(), #[trigger] new.entry_list()[j]))
                    && (entry_refused(new.data_region(), new.entry_list()[i], err) || (entry_installable(
                    new.data_region(),
                    new.entry_list()[i],
                ) && reported(*perform, err))),
    {
        let old_entries = old.entries();
        let new_entries = new.entries();
        let mut removes: Vec<Action> = Vec::new();
        let ghost mut gone: Seq<Entry> = seq![];
        let mut i: usize = 0;
        while i < old_entries.len()
            invariant
                old_entries@ == old.entry_list(),
                new_entries@ == new.entry_list(),
                0 <= i <= old_entries@.len(),
                gone == stale(old_entries@.take(i as int), new_entries@),
                removes@.len() == gone.len(),
                forall|k: int|
                    0 <= k < gone.len() ==> #[trigger] removal_planned(removes@[k], base_dir@, gone[k]),
            decreases old_entries@.len() - i,
        {
            let e = &old_entries[i];
            proof {
                assert(old_entries@.take(i + 1).drop_last() =~= old_entries@.take(i as int));
                assert(old_entries@.take(i + 1).last() == *e);
            }
            if !Self::has_digest(new_entries, &e.blake3) && !Self::has_path(new_entries, e.path_bytes()) {
                let rel = match e.check_path() {
                    Ok(p) => p,
                    Err(err) => {
                        proof {
                            let g = stale(old_entries@.take(i + 1), new_entries@);
                            assert(g.last() == *e);
                            lemma_stale_prefix(old_entries@, new_entries@, i as int + 1);
                        }
                        return Err(err);
                    },
                };
                let ghost before_push = removes@;
                let ghost old_gone = gone;
                removes.push(Action::Remove(join_path(base_dir, rel)));
                proof {
                    gone = gone.push(*e);
                    assert(gone == stale(old_entries@.take(i + 1), new_entries@));
                    assert(gone[gone.len() - 1] == *e);
                    assert forall|k: int| 0 <= k < gone.len() implies #[trigger] removal_planned(
                        removes@[k],
                        base_dir@,
                        gone[k],
                    ) by {
                        if k < gone.len() - 1 {
                            assert(removes@[k] == before_push[k]);
                            assert(gone[k] == old_gone[k]);
                            assert(removal_planned(before_push[k], base_dir@, old_gone[k]));
                        }
                    }
                }
            }
            i += 1;
        }
        let mut t = match Self::install(new, base_dir, taken, perform) {
            Ok(t) => t,
            Err(err) => {
                return Err(err);
            },
        };
        proof {
            assert(old_entries@.take(old_entries@.len() as int) =~= old_entries@);
        }
        let ghost installed = t.actions@;
        let ghost planned = removes@;
        let mut actions = removes;
        actions.append(&mut t.actions);
        proof {
            let n = new.entry_list().len();
            let m = planned.len();
            assert(actions@ == planned + installed);
            assert forall|i: int| 0 <= i < n implies #[trigger] actions@[m + i] == installed[i] by {}
            let g = stale(old.entry_list(), new.entry_list());
            assert(g == gone);
            assert forall|k: int| 0 <= k < g.len() implies #[trigger] removal_planned(
                actions@[k],
                base_dir@,
                g[k],
            ) by {
                assert(actions@[k] == planned[k]);
                assert(removal_planned(planned[k], base_dir@, gone[k]));
            }
        }
        Ok(Transaction { actions })
    }
}

/// The stale entries of a prefix of `old` are a prefix of those of `old`.
pub proof fn lemma_stale_prefix(old: Seq<Entry>, new: Seq<Entry>, i: int)
    requires
        0 <= i <= old.len(),
    ensures
        stale(old.take(i), new).len() <= stale(old, new).len(),
        stale(old, new).take(stale(old.take(i), new).len() as int) == stale(old.take(i), new),
    decreases old.len() - i,
{
    if i < old.len() {
        lemma_stale_prefix(old.drop_last(), new, i);
        assert(old.drop_last().take(i) =~= old.take(i));
        let a = stale(old.drop_last(), new);
        let b = stale(old, new);
        let c = stale(old.take(i), new);
        if !digest_in(new, old.last().blake3@) {
            assert(b.take(c.len() as int) =~= a.take(c.len() as int));
        }
    } else {
        assert(old.take(i) =~= old);
        assert(stale(old, new).take(stale(old, new).len() as int) =~= stale(old, new));
    }
}

/// The caller's reader gave back `contents` for the file at `path`.
pub open spec fn read_gave<R: Fn(&[u8]) -> Result<Vec<u8>, Error>>(read: R, path: Seq<u8>, contents: Seq<u8>) -> bool {
    exists|p: &[u8], c: Vec<u8>| p@ == path && c@ == contents && call_ensures(read, (p,), Ok(c))
}

/// The file installed for `e` under `base` holds what `e` records.
pub open spec fn installed_intact<R: Fn(&[u8]) -> Result<Vec<u8>, Error>>(read: R, base: Seq<u8>, e: Entry) -> bool {
    &&& path_is_normal(path_of(e.path@))
    &&& exists|c: Seq<u8>|
        read_gave(read, target_of(base, e), c) && c.len() == e.size() && blake3_of(c) == e.blake3@
}

/// `err` is why the file installed for `e` under `base` does not match it.
pub open spec fn installed_refused<R: Fn(&[u8]) -> Result<Vec<u8>, Error>>(
    read: R,
    base: Seq<u8>,
    e: Entry,
    err: Error,
) -> bool {
    if !path_is_normal(path_of(e.path@)) {
        err is InvalidPathComponent
    } else {
        (exists|p: &[u8]| p@ == target_of(base, e) && call_ensures(read, (p,), Err(err)))
            || exists|c: Seq<u8>|
            read_gave(read, target_of(base, e), c) && if c.len() != e.size() {
                err == (Error::LengthMismatch { actual: c.len() as u64, expected: e.size() })
            } else {
                blake3_of(c) != e.blake3@ && err is InvalidBlake3
            }
    }
}

/// Hashes each file installed from `src` under `base_dir`, read through
/// `read`, and compares it with its entry.
pub fn verify_installed<R: Fn(&[u8]) -> Result<Vec<u8>, Error>>(
    src: &PackageBuf,
    base_dir: &[u8],
    read: &R,
) -> (r: Result<(), Error>)
    requires
        forall|p: &[u8]| #[trigger] call_requires(*read, (p,)),
    ensures
        r is Ok ==> forall|i: int|
            0 <= i < src.entry_list().len() ==> installed_intact(*read, base_dir@, #[trigger] src.entry_list()[i]),
        r matches Err(err) ==> exists|i: int|
            0 <= i < src.entry_list().len() && (forall|j: int|
                0 <= j < i ==> installed_intact(*read, base_dir@, #[trigger] src.entry_list()[j]))
                && installed_refused(*read, base_dir@, #[trigger] src.entry_list()[i], err),
{
    let entries = src.entries();
    let mut i: usize = 0;
    while i < entries.len()
        invariant
            entries@ == src.entry_list(),
            forall|p: &[u8]| #[trigger] call_requires(*read, (p,)),
            0 <= i <= entries@.len(),
            forall|j: int| 0 <= j < i ==> installed_intact(*read, base_dir@, #[trigger] entries@[j]),
        decreases entries@.len() - i,
    {
        let e = &entries[i];
        let rel = match e.check_path() {
            Ok(p) => p,
            Err(err) => {
                assert(installed_refused(*read, base_dir@, *e, err));
                return Err(err);
            },
        };
        let target = join_path(base_dir, rel);
        let contents = match read(target.as_slice()) {
            Ok(c) => c,
            Err(err) => {
                assert(installed_refused(*read, base_dir@, *e, err));
                return Err(err);
            },
        };
        let hash = blake3_digest(contents.as_slice());
        match e.verify(&hash, contents.len() as u64) {
            Ok(()) => {},
            Err(err) => {
                assert(read_gave(*read, target_of(base_dir@, *e), contents@));
                assert(installed_refused(*read, base_dir@, *e, err));
                return Err(err);
            },
        }
        proof {
            assert(read_gave(*read, target_of(base_dir@, *e), contents@));
            assert(installed_intact(*read, base_dir@, *e));
        }
        i += 1;
    }
    Ok(())
}

/// Abort leaves no trace. Every file that `install` stages is a `.pkgar.`
/// sibling of its target, and once `abort` has succeeded on the transaction,
/// the caller has reported removing each of them.
pub proof fn lemma_abort_clears_stages<F: Fn(&Request) -> Result<(), Error>>(
    perform: F,
    base: Seq<u8>,
    region: Seq<u8>,
    entries: Seq<Entry>,
    actions: Seq<Action>,
)
    requires
        actions.len() == entries.len(),
        forall|i: int|
            0 <= i < entries.len() ==> install_action(#[trigger] actions[i], base, region, entries[i]),
        forall|j: int| 0 <= j < actions.len() && (#[trigger] actions[j]) is Rename ==> unstaged(perform, actions[j]),
    ensures
        forall|i: int|
            0 <= i < entries.len() && #[trigger] actions[i] is Rename ==> {
                &&& crate::path::is_stage_path(actions[i]->Rename_0@)
                &&& exists|q: Request| #![trigger performed(perform, q)]
                    q is Remove && q->Remove_0@ == actions[i]->Rename_0@ && performed(perform, q)
            },
{
    assert forall|i: int|
        0 <= i < entries.len() && #[trigger] actions[i] is Rename implies {
            &&& crate::path::is_stage_path(actions[i]->Rename_0@)
            &&& exists|q: Request| #![trigger performed(perform, q)]
                q is Remove && q->Remove_0@ == actions[i]->Rename_0@ && performed(perform, q)
        } by {
        let target = target_of(base, entries[i]);
        crate::path::lemma_hex_no_sep(entries[i].blake3@);
        crate::path::lemma_stage_names(target, hex_of(entries[i].blake3@));
        assert(install_action(actions[i], base, region, entries[i]));
        assert(unstaged(perform, actions[i]));
        let q = choose|q: Request| abort_request(q, actions[i]) && performed(perform, q);
        assert(q is Remove && q->Remove_0@ == actions[i]->Rename_0@);
    }
}

/// A retried commit finishes what a failed one left: the two calls together
/// carry out every action exactly once.
pub proof fn lemma_commit_retry(
    before: Seq<Action>,
    after_fail: Seq<Action>,
    changed: usize,
    remaining: usize,
    after_retry: Seq<Action>,
    retried: usize,
)
    requires
        commit_failed(before, after_fail, changed, remaining),
        commit_succeeded(after_fail, after_retry, retried),
    ensures
        retried == remaining,
        changed + retried == before.len(),
        after_fail == before.take(remaining as int),
        after_retry.len() == 0,
{
}

} // verus!
