use vstd::prelude::*;

use crate::env::{after_action, after_actions, copy_bytes, restored, EnvAction, EnvTable, KeySet};
use crate::error::JailError;
use std::path::PathBuf;

verus! {

/// `std::path::PathBuf` is carried through the library without being inspected.
#[verifier::external_type_specification]
#[verifier::external_body]
pub struct ExPathBuf(PathBuf);

/// What is left to undo of an open directory sandbox.
#[derive(Debug, PartialEq, Eq)]
pub enum Cleanup<D> {
    /// Nothing: the cleanup was carried out or given up.
    Nothing,
    /// Return to the original directory; no directory is left to delete.
    ReturnOnly,
    /// Return to the original directory, then delete this directory.
    ReturnAndDelete(D),
}

/// A directory sandbox on its way to being opened: the lock token `L` is
/// held, the ephemeral directory `D` is made and the working directory read;
/// the process has still to enter `D`.
pub struct Opening<D, L> {
    lock: L,
    temp_directory: D,
    original_directory: PathBuf,
}

impl<D, L> Opening<D, L> {
    /// The ephemeral directory to enter.
    pub closed spec fn dir(&self) -> D {
        self.temp_directory
    }

    /// The working directory from before.
    pub closed spec fn original(&self) -> PathBuf {
        self.original_directory
    }

    /// The lock token that is held.
    pub closed spec fn token(&self) -> L {
        self.lock
    }

    /// First step of opening a sandbox, once the lock is held, given how
    /// making the ephemeral directory went and what reading the working
    /// directory gave.
    ///
    /// On failure the error comes with the directory, if one was made, to be
    /// deleted, so that a failed opening leaves nothing behind; the lock is
    /// let go.
    pub fn new(
        lock: L,
        created: Result<D, std::io::Error>,
        original_directory: Result<PathBuf, std::io::Error>,
    ) -> (r: Result<Self, (Option<D>, JailError)>)
        ensures
            r is Ok <==> (created is Ok && original_directory is Ok),
            r is Ok ==> {
                let o = r->Ok_0;
                &&& o.dir() == created->Ok_0
                &&& o.original() == original_directory->Ok_0
                &&& o.token() == lock
            },
            created is Err ==> r == Err::<Self, (Option<D>, JailError)>(
                (None, JailError::TempDirCreationFailed(created->Err_0)),
            ),
            created is Ok && original_directory is Err ==> r == Err::<Self, (Option<D>, JailError)>(
                (Some(created->Ok_0), JailError::DirectoryChangeFailed(original_directory->Err_0)),
            ),
    {
        match created {
            Err(e) => Err((None, JailError::TempDirCreationFailed(e))),
            Ok(temp_directory) => match original_directory {
                Err(e) => Err((Some(temp_directory), JailError::DirectoryChangeFailed(e))),
                Ok(original_directory) => Ok(Opening { lock, temp_directory, original_directory }),
            },
        }
    }

    /// The ephemeral directory to enter.
    pub fn directory(&self) -> (r: &D)
        ensures
            *r == self.dir(),
    {
        &self.temp_directory
    }
}

/// A directory sandbox: while it is open the process works in an ephemeral
/// directory `D`, and the sandbox holds the lock token `L` that keeps other
/// sandboxes out.
///
/// The owner performs the effects the sandbox asks for and reports how they
/// went; the sandbox decides what comes next. Each step of the cleanup is
/// handed out at most once: once a close went through or failed, or a
/// teardown ran, the sandbox is closed and nothing is left to undo.
pub struct Jailer<D, L> {
    temp_directory: Option<D>,
    original_directory: PathBuf,
    lock: L,
    is_closed: bool,
}

impl<D, L> Jailer<D, L> {
    /// The ephemeral directory, while the sandbox still holds it.
    pub closed spec fn ephemeral(&self) -> Option<D> {
        self.temp_directory
    }

    /// The working directory from before the sandbox was opened.
    pub closed spec fn original(&self) -> PathBuf {
        self.original_directory
    }

    /// The lock token that the sandbox holds.
    pub closed spec fn token(&self) -> L {
        self.lock
    }

    /// Whether the cleanup was carried out or given up.
    pub closed spec fn closed(&self) -> bool {
        self.is_closed
    }

    /// What a teardown of this sandbox would have to undo.
    pub open spec fn pending_cleanup(&self) -> Cleanup<D> {
        if self.closed() {
            Cleanup::Nothing
        } else {
            match self.ephemeral() {
                Some(d) => Cleanup::ReturnAndDelete(d),
                None => Cleanup::ReturnOnly,
            }
        }
    }

    /// Opens the sandbox, given how entering the ephemeral directory went. On
    /// failure the directory is handed back with the error, to be deleted, and
    /// the lock is let go.
    pub fn new(opening: Opening<D, L>, entered: Result<(), std::io::Error>) -> (r: Result<
        Self,
        (D, JailError),
    >)
        ensures
            r is Ok <==> entered is Ok,
            r is Ok ==> {
                let j = r->Ok_0;
                &&& j.ephemeral() == Some(opening.dir())
                &&& j.original() == opening.original()
                &&& j.token() == opening.token()
                &&& !j.closed()
            },
            entered is Err ==> r == Err::<Self, (D, JailError)>(
                (opening.dir(), JailError::DirectoryChangeFailed(entered->Err_0)),
            ),
    {
        let Opening { lock, temp_directory, original_directory } = opening;
        match entered {
            Err(e) => Err((temp_directory, JailError::DirectoryChangeFailed(e))),
            Ok(()) => Ok(
                Jailer {
                    temp_directory: Some(temp_directory),
                    original_directory,
                    lock,
                    is_closed: false,
                },
            ),
        }
    }

    /// The working directory from before the sandbox was opened.
    pub fn original_directory(&self) -> (r: &PathBuf)
        ensures
            *r == self.original(),
    {
        &self.original_directory
    }

    /// The ephemeral directory, while the sandbox still holds it.
    pub fn directory(&self) -> (r: Option<&D>)
        ensures
            match r {
                Some(d) => self.ephemeral() == Some(*d),
                None => self.ephemeral() is None,
            },
    {
        self.temp_directory.as_ref()
    }

    /// Whether the cleanup was carried out or given up.
    pub fn is_closed(&self) -> (r: bool)
        ensures
            r == self.closed(),
    {
        self.is_closed
    }

    /// First step of an explicit close, given how returning to the original
    /// directory went.
    ///
    /// On success the sandbox hands out its directory (if it still holds
    /// one) for deletion. On failure the close is given up: the sandbox hands
    /// out its directory with the error, to be kept on disk for inspection,
    /// and is closed, so that no teardown tries again.
    pub fn close_returned(&mut self, returned: Result<(), std::io::Error>) -> (r: Result<
        Option<D>,
        (Option<D>, JailError),
    >)
        requires
            !old(self).closed(),
        ensures
            returned is Ok ==> r == Ok::<Option<D>, (Option<D>, JailError)>(old(self).ephemeral()),
            returned is Err ==> r == Err::<Option<D>, (Option<D>, JailError)>(
                (old(self).ephemeral(), JailError::DirectoryChangeFailed(returned->Err_0)),
            ),
            final(self).ephemeral() is None,
            final(self).closed() == returned is Err,
            final(self).original() == old(self).original(),
            final(self).token() == old(self).token(),
            returned is Err ==> final(self).pending_cleanup() == Cleanup::<D>::Nothing,
    {
        let d = self.temp_directory.take();
        match returned {
            Err(e) => {
                self.is_closed = true;
                Err((d, JailError::DirectoryChangeFailed(e)))
            },
            Ok(()) => Ok(d),
        }
    }

    /// Last step of an explicit close, given how deleting the directory went
    /// (`Ok` where there was none to delete).
    ///
    /// Either way the sandbox is closed afterwards: a teardown finds nothing
    /// to undo, and no step is tried again.
    pub fn close_deleted(&mut self, deleted: Result<(), std::io::Error>) -> (r: Result<
        (),
        JailError,
    >)
        requires
            !old(self).closed(),
            old(self).ephemeral() is None,
        ensures
            deleted is Ok ==> r is Ok,
            deleted is Err ==> r == Err::<(), JailError>(
                JailError::DirectoryDeletionFailed(deleted->Err_0),
            ),
            final(self).ephemeral() is None,
            final(self).closed(),
            final(self).original() == old(self).original(),
            final(self).token() == old(self).token(),
            final(self).pending_cleanup() == Cleanup::<D>::Nothing,
    {
        self.is_closed = true;
        match deleted {
            Err(e) => Err(JailError::DirectoryDeletionFailed(e)),
            Ok(()) => Ok(()),
        }
    }

    /// The implicit teardown: hands out what is left to undo, which the owner
    /// carries out on a best-effort basis, and marks the sandbox closed so that
    /// nothing is handed out twice.
    pub fn teardown(&mut self) -> (r: Cleanup<D>)
        ensures
            r == old(self).pending_cleanup(),
            final(self).closed(),
            final(self).pending_cleanup() == Cleanup::<D>::Nothing,
            final(self).ephemeral() == if old(self).closed() {
                old(self).ephemeral()
            } else {
                None
            },
            final(self).original() == old(self).original(),
            final(self).token() == old(self).token(),
    {
        if self.is_closed {
            Cleanup::Nothing
        } else {
            self.is_closed = true;
            match self.temp_directory.take() {
                Some(d) => Cleanup::ReturnAndDelete(d),
                None => Cleanup::ReturnOnly,
            }
        }
    }
}

/// A sandbox whose close went through or failed, or that was torn down, has
/// nothing left for a teardown: no cleanup step is tried twice.
pub proof fn lemma_no_double_cleanup<D, L>(j: Jailer<D, L>)
    requires
        j.closed(),
    ensures
        j.pending_cleanup() == Cleanup::<D>::Nothing,
{
}

/// An environment sandbox: a directory sandbox together with the environment
/// as it was when the sandbox was opened, and the names whose values are to be
/// kept as they are when it closes.
pub struct EnvJailer<D, L> {
    jailer: Jailer<D, L>,
    original_env_vars_os: EnvTable,
    preserved_env_vars_os: KeySet,
}

/// `current` with the removals of the first `n` entries of `names` done: the
/// names among them that are not preserved are gone.
spec fn cleared(
    current: Map<Seq<u8>, Seq<u8>>,
    names: Seq<(Vec<u8>, Vec<u8>)>,
    n: int,
    preserved: Set<Seq<u8>>,
) -> Map<Seq<u8>, Seq<u8>> {
    Map::new(
        |k: Seq<u8>|
            current.contains_key(k) && (preserved.contains(k) || !exists|j: int|
                0 <= j < n && #[trigger] names[j].0@ == k),
        |k: Seq<u8>| current[k],
    )
}

/// The preserved part of `current` with the first `n` entries of `snapshot`
/// that are not preserved put back.
spec fn refilled(
    current: Map<Seq<u8>, Seq<u8>>,
    snapshot: Map<Seq<u8>, Seq<u8>>,
    entries: Seq<(Vec<u8>, Vec<u8>)>,
    n: int,
    preserved: Set<Seq<u8>>,
) -> Map<Seq<u8>, Seq<u8>> {
    Map::new(
        |k: Seq<u8>|
            if preserved.contains(k) {
                current.contains_key(k)
            } else {
                exists|j: int| 0 <= j < n && #[trigger] entries[j].0@ == k
            },
        |k: Seq<u8>|
            if preserved.contains(k) {
                current[k]
            } else {
                snapshot[k]
            },
    )
}

/// Appending one action to a list applies it last.
proof fn lemma_after_push(env: Map<Seq<u8>, Seq<u8>>, actions: Seq<EnvAction>, a: EnvAction)
    ensures
        after_actions(env, actions.push(a)) == after_action(after_actions(env, actions), a),
{
    assert(actions.push(a).drop_last() =~= actions);
}

impl<D, L> EnvJailer<D, L> {
    /// The environment as it was when the sandbox was opened.
    pub closed spec fn snapshot(&self) -> Map<Seq<u8>, Seq<u8>> {
        self.original_env_vars_os@
    }

    /// The names whose values a close leaves as they are.
    pub closed spec fn preserved(&self) -> Set<Seq<u8>> {
        self.preserved_env_vars_os@
    }

    /// The directory sandbox inside.
    pub closed spec fn inner(&self) -> Jailer<D, L> {
        self.jailer
    }

    /// The snapshot and the preserved names are well formed.
    pub closed spec fn wf(&self) -> bool {
        self.original_env_vars_os.wf() && self.preserved_env_vars_os.wf()
    }

    /// Opens an environment sandbox over `jailer`, with `snapshot` read from
    /// the environment before `jailer` was opened. No name is preserved yet.
    pub fn new(snapshot: EnvTable, jailer: Jailer<D, L>) -> (r: Self)
        requires
            snapshot.wf(),
        ensures
            r.wf(),
            r.snapshot() == snapshot@,
            r.preserved() == Set::<Seq<u8>>::empty(),
            r.inner() == jailer,
    {
        EnvJailer {
            jailer,
            original_env_vars_os: snapshot,
            preserved_env_vars_os: KeySet::new(),
        }
    }

    /// The working directory from before the sandbox was opened.
    pub fn original_directory(&self) -> (r: &PathBuf)
        ensures
            *r == self.inner().original(),
    {
        self.jailer.original_directory()
    }

    /// The directory sandbox inside.
    pub fn jailer(&self) -> (r: &Jailer<D, L>)
        ensures
            *r == self.inner(),
    {
        &self.jailer
    }

    /// Marks `key` as preserved: a close leaves its value, or its absence, as
    /// it then is. The variable itself is not touched.
    pub fn set_preserved_env(&mut self, key: Vec<u8>)
        requires
            old(self).wf(),
        ensures
            final(self).wf(),
            final(self).preserved() == old(self).preserved().insert(key@),
            final(self).snapshot() == old(self).snapshot(),
            final(self).inner() == old(self).inner(),
    {
        self.preserved_env_vars_os.insert(key);
    }

    /// Takes `key` off the preserved names. The variable itself is not
    /// touched.
    pub fn remove_preserved_env(&mut self, key: &Vec<u8>)
        requires
            old(self).wf(),
        ensures
            final(self).wf(),
            final(self).preserved() == old(self).preserved().remove(key@),
            final(self).snapshot() == old(self).snapshot(),
            final(self).inner() == old(self).inner(),
    {
        self.preserved_env_vars_os.remove(key);
    }

    /// The environment as it was when the sandbox was opened.
    pub fn original_env_vars_os(&self) -> (r: &EnvTable)
        requires
            self.wf(),
        ensures
            r.wf(),
            r@ == self.snapshot(),
    {
        &self.original_env_vars_os
    }

    /// The names whose values a close leaves as they are.
    pub fn preserved_env_vars_os(&self) -> (r: &KeySet)
        requires
            self.wf(),
        ensures
            r.wf(),
            r@ == self.preserved(),
    {
        &self.preserved_env_vars_os
    }

    /// The changes that restore the environment, given the environment
    /// `current` as it is now.
    ///
    /// First every variable of `current` that is not preserved is removed,
    /// then every variable of the snapshot that is not preserved is set to its
    /// value there. Carried out in order, they leave the preserved names as
    /// they are in `current` and every other name as in the snapshot.
    pub fn revert_env_vars(&self, current: &EnvTable) -> (plan: Vec<EnvAction>)
        requires
            self.wf(),
            current.wf(),
        ensures
            after_actions(current@, plan@) == restored(current@, self.snapshot(), self.preserved()),
            forall|i: int, j: int|
                0 <= i < j < plan@.len() && #[trigger] plan@[i] is Assign ==> #[trigger] plan@[j] is Assign,
            forall|i: int|
                0 <= i < plan@.len() ==> match #[trigger] plan@[i] {
                    EnvAction::Remove(k) => current@.contains_key(k@) && !self.preserved().contains(
                        k@,
                    ),
                    EnvAction::Assign(k, v) => self.snapshot().contains_key(k@)
                        && self.snapshot()[k@] == v@ && !self.preserved().contains(k@),
                },
    {
        let ghost cur = current@;
        let ghost snap = self.snapshot();
        let ghost pre = self.preserved();
        let now = current.entries();
        let mut plan: Vec<EnvAction> = Vec::new();
        let mut i: usize = 0;
        assert(after_actions(cur, plan@) =~= cleared(cur, now@, 0, pre));
        while i < now.len()
            invariant
                0 <= i <= now@.len(),
                forall|j: int|
                    0 <= j < now@.len() ==> cur.contains_key(#[trigger] now@[j].0@) && cur[now@[j].0@]
                        == now@[j].1@,
                forall|k: Seq<u8>|
                    #[trigger] cur.contains_key(k) ==> exists|j: int|
                        0 <= j < now@.len() && #[trigger] now@[j].0@ == k,
                pre == self.preserved(),
                self.wf(),
                after_actions(cur, plan@) == cleared(cur, now@, i as int, pre),
                forall|m: int|
                    0 <= m < plan@.len() ==> match #[trigger] plan@[m] {
                        EnvAction::Remove(k) => cur.contains_key(k@) && !pre.contains(k@),
                        EnvAction::Assign(_, _) => false,
                    },
            decreases now@.len() - i,
        {
            let key = &now[i].0;
            if !self.preserved_env_vars_os.contains(key) {
                let a = EnvAction::Remove(copy_bytes(key));
                proof {
                    lemma_after_push(cur, plan@, a);
                }
                plan.push(a);
                assert(after_actions(cur, plan@) =~= cleared(cur, now@, i as int + 1, pre)) by {
                    assert forall|k: Seq<u8>|
                        #[trigger] cleared(cur, now@, i as int, pre).remove(key@).contains_key(k)
                            == cleared(cur, now@, i as int + 1, pre).contains_key(k) by {
                        if exists|j: int| 0 <= j < i && #[trigger] now@[j].0@ == k {
                            let j = choose|j: int| 0 <= j < i && #[trigger] now@[j].0@ == k;
                            assert(0 <= j < i + 1 && now@[j].0@ == k);
                        }
                        if k == key@ {
                            assert(now@[i as int].0@ == k);
                        }
                    }
                }
            } else {
                assert(after_actions(cur, plan@) =~= cleared(cur, now@, i as int + 1, pre)) by {
                    assert forall|k: Seq<u8>|
                        #[trigger] cleared(cur, now@, i as int, pre).contains_key(k)
                            == cleared(cur, now@, i as int + 1, pre).contains_key(k) by {
                        if exists|j: int| 0 <= j < i && #[trigger] now@[j].0@ == k {
                            let j = choose|j: int| 0 <= j < i && #[trigger] now@[j].0@ == k;
                            assert(0 <= j < i + 1 && now@[j].0@ == k);
                        }
                        if exists|j: int| 0 <= j < i + 1 && #[trigger] now@[j].0@ == k {
                            let j = choose|j: int| 0 <= j < i + 1 && #[trigger] now@[j].0@ == k;
                            if j == i {
                                assert(pre.contains(k));
                            }
                        }
                    }
                }
            }
            i = i + 1;
        }
        let ghost removals = plan@.len();
        let old_env = self.original_env_vars_os.entries();
        assert(after_actions(cur, plan@) =~= refilled(cur, snap, old_env@, 0, pre)) by {
            assert forall|k: Seq<u8>|
                #[trigger] cleared(cur, now@, now@.len() as int, pre).contains_key(k)
                    == refilled(cur, snap, old_env@, 0, pre).contains_key(k) by {
                if cur.contains_key(k) {
                    let j = choose|j: int| 0 <= j < now@.len() && #[trigger] now@[j].0@ == k;
                }
            }
        }
        let mut i: usize = 0;
        while i < old_env.len()
            invariant
                0 <= i <= old_env@.len(),
                removals <= plan@.len(),
                forall|j: int|
                    0 <= j < old_env@.len() ==> snap.contains_key(#[trigger] old_env@[j].0@)
                        && snap[old_env@[j].0@] == old_env@[j].1@,
                forall|k: Seq<u8>|
                    #[trigger] snap.contains_key(k) ==> exists|j: int|
                        0 <= j < old_env@.len() && #[trigger] old_env@[j].0@ == k,
                pre == self.preserved(),
                snap == self.snapshot(),
                self.wf(),
                after_actions(cur, plan@) == refilled(cur, snap, old_env@, i as int, pre),
                forall|m: int|
                    0 <= m < plan@.len() ==> match #[trigger] plan@[m] {
                        EnvAction::Remove(k) => cur.contains_key(k@) && !pre.contains(k@) && m
                            < removals,
                        EnvAction::Assign(k, v) => snap.contains_key(k@) && snap[k@] == v@
                            && !pre.contains(k@) && m >= removals,
                    },
            decreases old_env@.len() - i,
        {
            let key = &old_env[i].0;
            let value = &old_env[i].1;
            if !self.preserved_env_vars_os.contains(key) {
                let a = EnvAction::Assign(copy_bytes(key), copy_bytes(value));
                proof {
                    lemma_after_push(cur, plan@, a);
                }
                plan.push(a);
                assert(after_actions(cur, plan@) =~= refilled(
                    cur,
                    snap,
                    old_env@,
                    i as int + 1,
                    pre,
                )) by {
                    assert forall|k: Seq<u8>|
                        #[trigger] refilled(cur, snap, old_env@, i as int, pre).insert(
                            key@,
                            value@,
                        ).contains_key(k) == refilled(
                            cur,
                            snap,
                            old_env@,
                            i as int + 1,
                            pre,
                        ).contains_key(k) by {
                        if exists|j: int| 0 <= j < i && #[trigger] old_env@[j].0@ == k {
                            let j = choose|j: int| 0 <= j < i && #[trigger] old_env@[j].0@ == k;
                            assert(0 <= j < i + 1 && old_env@[j].0@ == k);
                        }
                        if k == key@ {
                            assert(old_env@[i as int].0@ == k);
                        }
                    }
                }
            } else {
                assert(after_actions(cur, plan@) =~= refilled(
                    cur,
                    snap,
                    old_env@,
                    i as int + 1,
                    pre,
                )) by {
                    assert forall|k: Seq<u8>|
                        #[trigger] refilled(cur, snap, old_env@, i as int, pre).contains_key(k)
                            == refilled(cur, snap, old_env@, i as int + 1, pre).contains_key(k) by {
                        if exists|j: int| 0 <= j < i && #[trigger] old_env@[j].0@ == k {
                            let j = choose|j: int| 0 <= j < i && #[trigger] old_env@[j].0@ == k;
                            assert(0 <= j < i + 1 && old_env@[j].0@ == k);
                        }
                    }
                }
            }
            i = i + 1;
        }
        assert(after_actions(cur, plan@) =~= restored(cur, snap, pre)) by {
            assert forall|k: Seq<u8>|
                #[trigger] refilled(cur, snap, old_env@, old_env@.len() as int, pre).contains_key(k)
                    == restored(cur, snap, pre).contains_key(k) by {
                if snap.contains_key(k) {
                    let j = choose|j: int| 0 <= j < old_env@.len() && #[trigger] old_env@[j].0@ == k;
                }
            }
        }
        plan
    }

    /// Closes the environment sandbox, given the environment `current` as it
    /// is now: the changes that restore the environment, to be carried out
    /// first, and the directory sandbox inside, to be closed after them.
    pub fn close(self, current: &EnvTable) -> (r: (Vec<EnvAction>, Jailer<D, L>))
        requires
            self.wf(),
            current.wf(),
        ensures
            after_actions(current@, r.0@) == restored(current@, self.snapshot(), self.preserved()),
            r.1 == self.inner(),
    {
        let plan = self.revert_env_vars(current);
        (plan, self.jailer)
    }
}

/// Where nothing is preserved, a restore gives back exactly the snapshot,
/// whatever was removed, added or changed in between.
pub proof fn lemma_restore_round_trip(
    current: Map<Seq<u8>, Seq<u8>>,
    snapshot: Map<Seq<u8>, Seq<u8>>,
)
    ensures
        restored(current, snapshot, Set::empty()) == snapshot,
{
    assert(restored(current, snapshot, Set::empty()) =~= snapshot);
}

/// A restore leaves a preserved name as it is (set to the same value, or
/// unset), and gives every other name its value, or absence, in the snapshot.
pub proof fn lemma_restore_by_name(
    current: Map<Seq<u8>, Seq<u8>>,
    snapshot: Map<Seq<u8>, Seq<u8>>,
    preserved: Set<Seq<u8>>,
    k: Seq<u8>,
)
    ensures
        preserved.contains(k) ==> (restored(current, snapshot, preserved).contains_key(k)
            <==> current.contains_key(k)),
        preserved.contains(k) && current.contains_key(k) ==> restored(current, snapshot, preserved)[k]
            == current[k],
        !preserved.contains(k) ==> (restored(current, snapshot, preserved).contains_key(k)
            <==> snapshot.contains_key(k)),
        !preserved.contains(k) && snapshot.contains_key(k) ==> restored(
            current,
            snapshot,
            preserved,
        )[k] == snapshot[k],
{
}

} // verus!
