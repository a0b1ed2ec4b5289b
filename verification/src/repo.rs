//! The repository handle: one object store, one index and one ref
//! store, with the operations the presentation layer consumes — init,
//! stage, unstage, commit, status, log and branch handling. All disk
//! and terminal I/O stays outside; the working tree enters as a list
//! of scanned files, and every result leaves as plain values.

use vstd::prelude::*;
use crate::errors::GitError;
use crate::index::{Index, IndexEntryV, index_entry};
use crate::lex::clone_bytes;
use crate::log::{commits_closed, is_commit, commit_at, log_walk, walk_spec};
use crate::objects::{Commit, CommitV, Object, ObjectId, ObjectV, TreeEntry, TreeEntryV};
use crate::refs::{
    BranchEntry, RefEntryV, RefStore, RefTargetV, Resolution, branches_spec, full_fuel,
    lemma_ref_find, lemma_ref_find_at, ref_find, ref_target, refs_sorted, resolve_spec,
};
use crate::status::{
    StatusEntry, WorkFile, compute_status, report_model, status_post, tree_model, work_model,
};
use crate::store::{Store, lemma_put_shape, put_id_spec, put_store_spec};

verus! {

/// The name of the branch a fresh repository's HEAD is attached to:
/// "main" as bytes.
pub open spec fn default_branch() -> Seq<u8> {
    seq![109u8, 97u8, 105u8, 110u8]
}

fn default_branch_name() -> (r: Vec<u8>)
    ensures
        r@ == default_branch(),
{
    let mut v: Vec<u8> = Vec::new();
    v.push(109);
    v.push(97);
    v.push(105);
    v.push(110);
    proof {
        assert(v@ =~= default_branch());
    }
    v
}

/// Every directly bound ref names a stored commit.
pub open spec fn refs_valid(s: Seq<ObjectV>, refs: Seq<RefEntryV>) -> bool {
    forall|i: int|
        0 <= i < refs.len() ==> ((#[trigger] refs[i]).target matches RefTargetV::Direct(id)
            ==> is_commit(s, id))
}

/// Growing the store by a non-commit object disturbs no commit fact
/// and no ref fact.
proof fn lemma_put_keeps_graph(s: Seq<ObjectV>, v: ObjectV, refs: Seq<RefEntryV>)
    requires
        commits_closed(s),
        refs_valid(s, refs),
        !(v is Commit),
    ensures
        commits_closed(put_store_spec(s, v)),
        refs_valid(put_store_spec(s, v), refs),
        forall|id: ObjectId| is_commit(s, id) ==> #[trigger] is_commit(put_store_spec(s, v), id),
{
    lemma_put_shape(s, v);
    let s1 = put_store_spec(s, v);
    assert forall|i: int| 0 <= i < s1.len() && (#[trigger] s1[i]) is Commit implies {
        let c = s1[i]->Commit_0;
        &&& c.tree.raw < s1.len() && s1[c.tree.raw as int] is Tree
        &&& forall|k: int|
            0 <= k < c.parents.len() ==> (#[trigger] c.parents[k]).raw < i
                && s1[c.parents[k].raw as int] is Commit
    } by {
        assert(i < s.len());
        assert(s1[i] == s[i]);
        let c = s[i]->Commit_0;
        assert(s1[c.tree.raw as int] == s[c.tree.raw as int]);
        assert forall|k: int| 0 <= k < c.parents.len() implies (#[trigger] c.parents[k]).raw < i
            && s1[c.parents[k].raw as int] is Commit by {
            assert(c.parents[k].raw < i && s[c.parents[k].raw as int] is Commit);
        }
    }
    assert forall|i: int|
        0 <= i < refs.len() implies ((#[trigger] refs[i]).target matches RefTargetV::Direct(id)
            ==> is_commit(s1, id)) by {
        match refs[i].target {
            RefTargetV::Direct(tid) => {
                assert(is_commit(s, tid));
                assert(s1[tid.raw as int] == s[tid.raw as int]);
            },
            _ => {},
        }
    }
}

/// Growing the store by a commit whose tree is a stored tree and whose
/// parents are stored commits keeps the graph closed.
proof fn lemma_put_commit_keeps_graph(s: Seq<ObjectV>, c: CommitV, refs: Seq<RefEntryV>)
    requires
        commits_closed(s),
        refs_valid(s, refs),
        c.tree.raw < s.len(),
        s[c.tree.raw as int] is Tree,
        forall|k: int| 0 <= k < c.parents.len() ==> is_commit(s, #[trigger] c.parents[k]),
    ensures
        commits_closed(put_store_spec(s, ObjectV::Commit(c))),
        refs_valid(put_store_spec(s, ObjectV::Commit(c)), refs),
{
    lemma_put_shape(s, ObjectV::Commit(c));
    let s1 = put_store_spec(s, ObjectV::Commit(c));
    assert forall|i: int| 0 <= i < s1.len() && (#[trigger] s1[i]) is Commit implies {
        let cc = s1[i]->Commit_0;
        &&& cc.tree.raw < s1.len() && s1[cc.tree.raw as int] is Tree
        &&& forall|k: int|
            0 <= k < cc.parents.len() ==> (#[trigger] cc.parents[k]).raw < i
                && s1[cc.parents[k].raw as int] is Commit
    } by {
        if i < s.len() {
            assert(s1[i] == s[i]);
            let cc = s[i]->Commit_0;
            assert(s1[cc.tree.raw as int] == s[cc.tree.raw as int]);
            assert forall|k: int| 0 <= k < cc.parents.len() implies (
            #[trigger] cc.parents[k]).raw < i && s1[cc.parents[k].raw as int] is Commit by {
                assert(cc.parents[k].raw < i && s[cc.parents[k].raw as int] is Commit);
            }
        } else {
            assert(s1[i] == ObjectV::Commit(c));
            let cc = s1[i]->Commit_0;
            assert(cc == c);
            assert(s1[c.tree.raw as int] == s[c.tree.raw as int]);
            assert forall|k: int| 0 <= k < cc.parents.len() implies (
            #[trigger] cc.parents[k]).raw < i && s1[cc.parents[k].raw as int] is Commit by {
                assert(is_commit(s, c.parents[k]));
                assert(s1[c.parents[k].raw as int] == s[c.parents[k].raw as int]);
            }
        }
    }
    assert forall|i: int|
        0 <= i < refs.len() implies ((#[trigger] refs[i]).target matches RefTargetV::Direct(id)
            ==> is_commit(s1, id)) by {
        match refs[i].target {
            RefTargetV::Direct(tid) => {
                assert(is_commit(s, tid));
                assert(s1[tid.raw as int] == s[tid.raw as int]);
            },
            _ => {},
        }
    }
}

/// A resolution that ends at a commit ends at some directly bound ref.
proof fn lemma_resolve_commit(refs: Seq<RefEntryV>, n: Seq<u8>, fuel: nat)
    ensures
        resolve_spec(refs, n, fuel) matches Resolution::Commit(id) ==> exists|i: int|
            0 <= i < refs.len() && (#[trigger] refs[i]).target == RefTargetV::Direct(id),
    decreases fuel,
{
    lemma_ref_find(refs, n);
    match ref_target(refs, n) {
        Some(RefTargetV::Symbolic(next)) => {
            if fuel > 0 {
                lemma_resolve_commit(refs, next, (fuel - 1) as nat);
            }
        },
        Some(RefTargetV::Direct(id)) => {
            let i = ref_find(refs, n).unwrap();
            assert(refs[i].target == RefTargetV::Direct(id));
        },
        None => {},
    }
}

/// After an update that binds `nm` to the stored commit `id` and moves
/// no other name, every direct ref still names a stored commit.
proof fn lemma_refs_valid_update(
    s: Seq<ObjectV>,
    r0: Seq<RefEntryV>,
    r1: Seq<RefEntryV>,
    nm: Seq<u8>,
    id: ObjectId,
)
    requires
        refs_sorted(r1),
        refs_valid(s, r0),
        ref_target(r1, nm) == Some(RefTargetV::Direct(id)),
        is_commit(s, id),
        forall|q: Seq<u8>| q != nm ==> ref_target(r1, q) == ref_target(r0, q),
    ensures
        refs_valid(s, r1),
{
    assert forall|i: int|
        0 <= i < r1.len() implies ((#[trigger] r1[i]).target matches RefTargetV::Direct(id2)
            ==> is_commit(s, id2)) by {
        lemma_ref_find_at(r1, r1[i].name, i);
        assert(ref_target(r1, r1[i].name) == Some(r1[i].target));
        if r1[i].name == nm {
        } else {
            assert(ref_target(r0, r1[i].name) == Some(r1[i].target));
            lemma_ref_find(r0, r1[i].name);
            let j = ref_find(r0, r1[i].name).unwrap();
            assert(r0[j].target == r1[i].target);
        }
    }
}

/// One entry of the log: a commit identifier and the summary shown for
/// it.
pub struct LogEntry {
    pub id: ObjectId,
    pub summary: Vec<u8>,
}

/// Mathematical model of a `LogEntry`.
#[verifier::ext_equal]
pub ghost struct LogEntryV {
    pub id: ObjectId,
    pub summary: Seq<u8>,
}

impl View for LogEntry {
    type V = LogEntryV;

    open spec fn view(&self) -> LogEntryV {
        LogEntryV { id: self.id, summary: self.summary@ }
    }
}

pub open spec fn log_model(s: Seq<LogEntry>) -> Seq<LogEntryV> {
    s.map_values(|e: LogEntry| e@)
}

/// The length of the first line of `m`: the bytes before the first
/// line feed, or all of `m` when it holds none.
pub open spec fn line_len(m: Seq<u8>) -> int
    decreases m.len(),
{
    if m.len() == 0 {
        0
    } else if m[0] == 10 {
        0
    } else {
        1 + line_len(m.skip(1))
    }
}

pub proof fn lemma_line_len(m: Seq<u8>)
    ensures
        0 <= line_len(m) <= m.len(),
        forall|k: int| 0 <= k < line_len(m) ==> m[k] != 10,
        line_len(m) < m.len() ==> m[line_len(m)] == 10,
    decreases m.len(),
{
    if m.len() != 0 && m[0] != 10 {
        lemma_line_len(m.skip(1));
        assert forall|k: int| 0 <= k < line_len(m) implies m[k] != 10 by {
            if k >= 1 {
                assert(m.skip(1)[k - 1] == m[k]);
            }
        }
        if line_len(m) < m.len() {
            assert(m.skip(1)[line_len(m) - 1] == m[line_len(m)]);
        }
    }
}

pub proof fn lemma_line_len_at(m: Seq<u8>, i: int)
    requires
        0 <= i <= m.len(),
        forall|k: int| 0 <= k < i ==> m[k] != 10,
        i == m.len() || m[i] == 10,
    ensures
        line_len(m) == i,
    decreases m.len(),
{
    if m.len() != 0 && m[0] != 10 {
        assert(i >= 1);
        assert(forall|k: int| 0 <= k < i - 1 ==> m.skip(1)[k] == m[k + 1]);
        if i < m.len() {
            assert(m.skip(1)[i - 1] == m[i]);
        }
        lemma_line_len_at(m.skip(1), i - 1);
    }
}

/// The summary shown when a commit message is empty: "<No message>" as
/// bytes.
pub open spec fn placeholder_summary() -> Seq<u8> {
    seq![60u8, 78u8, 111u8, 32u8, 109u8, 101u8, 115u8, 115u8, 97u8, 103u8, 101u8, 62u8]
}

/// The summary of a commit message: its first line, or the placeholder
/// when the message is empty.
pub open spec fn summary_of(m: Seq<u8>) -> Seq<u8> {
    if m.len() == 0 {
        placeholder_summary()
    } else {
        m.take(line_len(m))
    }
}

/// Computes `summary_of`.
pub fn summary_bytes(m: &Vec<u8>) -> (r: Vec<u8>)
    ensures
        r@ == summary_of(m@),
{
    if m.len() == 0 {
        let mut v: Vec<u8> = Vec::new();
        v.push(60);
        v.push(78);
        v.push(111);
        v.push(32);
        v.push(109);
        v.push(101);
        v.push(115);
        v.push(115);
        v.push(97);
        v.push(103);
        v.push(101);
        v.push(62);
        proof {
            assert(v@ =~= placeholder_summary());
        }
        return v;
    }
    let n = m.len();
    let mut out: Vec<u8> = Vec::new();
    let mut i: usize = 0;
    while i < n && m[i] != 10
        invariant
            n == m.len(),
            i <= n,
            out@.len() == i,
            forall|k: int| 0 <= k < i ==> out@[k] == m@[k] && m@[k] != 10,
        decreases n - i,
    {
        out.push(m[i]);
        i += 1;
    }
    proof {
        lemma_line_len_at(m@, i as int);
        assert(out@ =~= m@.take(line_len(m@)));
    }
    out
}

/// The repository: the one handle the presentation layer works with.
pub struct Repository {
    pub store: Store,
    pub index: Index,
    pub refs: RefStore,
}

impl Repository {
    /// The invariant every operation preserves: the store deduplicates;
    /// every commit's tree is a stored tree and its parents are stored,
    /// earlier commits; index and refs are sorted; every branch names a
    /// stored commit.
    pub open spec fn wf(self) -> bool {
        &&& self.store.wf()
        &&& commits_closed(self.store@)
        &&& self.index.wf()
        &&& self.refs.wf()
        &&& refs_valid(self.store@, self.refs@.refs)
    }

    /// A fresh, empty repository: empty store, empty index, HEAD
    /// attached to the default branch and unborn.
    pub fn init() -> (r: Repository)
        ensures
            r.wf(),
            r.store@ == Seq::<ObjectV>::empty(),
            r.index@ == Seq::<IndexEntryV>::empty(),
            r.refs@.refs == Seq::<RefEntryV>::empty(),
            r.refs@.head == default_branch(),
    {
        let head = default_branch_name();
        Repository { store: Store::new(), index: Index::new(), refs: RefStore::new(head) }
    }

    /// Stages `content` for `path` (last write wins), entering the
    /// content into the object store.
    pub fn stage(&mut self, path: Vec<u8>, content: Vec<u8>, size: u64, mtime: u64) -> (r:
        ObjectId)
        requires
            old(self).wf(),
        ensures
            final(self).wf(),
            final(self).store@ == put_store_spec(old(self).store@, ObjectV::Blob(content@)),
            r.raw == put_id_spec(old(self).store@, ObjectV::Blob(content@)),
            index_entry(final(self).index@, path@) == Some(
                IndexEntryV { path: path@, id: r, size, mtime },
            ),
            forall|q: Seq<u8>| q != path@ ==> index_entry(final(self).index@, q) == index_entry(
                old(self).index@,
                q,
            ),
            final(self).refs@ == old(self).refs@,
    {
        let ghost s0 = self.store@;
        let ghost cv = content@;
        let r = self.index.stage(&mut self.store, path, content, size, mtime);
        proof {
            lemma_put_keeps_graph(s0, ObjectV::Blob(cv), self.refs@.refs);
        }
        r
    }

    /// Removes the entry for `path` from the index; a no-op when none
    /// is staged.
    pub fn unstage(&mut self, path: &Vec<u8>)
        requires
            old(self).wf(),
        ensures
            final(self).wf(),
            final(self).store@ == old(self).store@,
            final(self).refs@ == old(self).refs@,
            index_entry(final(self).index@, path@) is None,
            forall|q: Seq<u8>| q != path@ ==> index_entry(final(self).index@, q) == index_entry(
                old(self).index@,
                q,
            ),
    {
        self.index.unstage(path);
    }

    /// The commit HEAD names: `UnbornHead` when the current branch has
    /// no commit yet (the normal state after init), `RefCycle` when
    /// HEAD's symbolic chain loops.
    pub fn head_commit(&self) -> (r: Result<ObjectId, GitError>)
        requires
            self.wf(),
        ensures
            match r {
                Ok(id) => resolve_spec(self.refs@.refs, self.refs@.head, full_fuel(self.refs@.refs))
                    == Resolution::Commit(id) && is_commit(self.store@, id),
                Err(e) => {
                    let res = resolve_spec(
                        self.refs@.refs,
                        self.refs@.head,
                        full_fuel(self.refs@.refs),
                    );
                    (e == GitError::UnbornHead && res is Missing) || (e == GitError::RefCycle
                        && res is Cycle)
                },
            },
    {
        match self.refs.head_resolution() {
            Resolution::Commit(id) => {
                proof {
                    lemma_resolve_commit(
                        self.refs@.refs,
                        self.refs@.head,
                        full_fuel(self.refs@.refs),
                    );
                }
                Ok(id)
            },
            Resolution::Missing => Err(GitError::UnbornHead),
            Resolution::Cycle => Err(GitError::RefCycle),
        }
    }

    /// Commits the staged snapshot: materializes the index as a tree,
    /// creates a commit whose parent is HEAD's commit (none when HEAD
    /// is unborn), and advances the current branch to it. Fails exactly
    /// when HEAD's symbolic chain loops.
    pub fn commit(&mut self, author: Vec<u8>, message: Vec<u8>, time: u64) -> (r: Result<
        ObjectId,
        GitError,
    >)
        requires
            old(self).wf(),
        ensures
            final(self).wf(),
            match r {
                Ok(id) => {
                    let res = resolve_spec(
                        old(self).refs@.refs,
                        old(self).refs@.head,
                        full_fuel(old(self).refs@.refs),
                    );
                    let treev = ObjectV::Tree(Index::tree_of_index(old(self).index@));
                    let s1 = put_store_spec(old(self).store@, treev);
                    let parents = match res {
                        Resolution::Commit(p) => seq![p],
                        _ => Seq::<ObjectId>::empty(),
                    };
                    let cv = CommitV {
                        tree: ObjectId { raw: put_id_spec(old(self).store@, treev) as u64 },
                        parents,
                        author: author@,
                        message: message@,
                        time,
                    };
                    &&& !(res is Cycle)
                    &&& final(self).store@ == put_store_spec(s1, ObjectV::Commit(cv))
                    &&& id.raw == put_id_spec(s1, ObjectV::Commit(cv))
                    &&& is_commit(final(self).store@, id)
                    &&& commit_at(final(self).store@, id) == cv
                    &&& final(self).refs@.head == old(self).refs@.head
                    &&& ref_target(final(self).refs@.refs, old(self).refs@.head) == Some(
                        RefTargetV::Direct(id),
                    )
                    &&& forall|q: Seq<u8>| q != old(self).refs@.head ==> ref_target(
                        final(self).refs@.refs,
                        q,
                    ) == ref_target(old(self).refs@.refs, q)
                    &&& final(self).index@ == old(self).index@
                },
                Err(e) => e == GitError::RefCycle && resolve_spec(
                    old(self).refs@.refs,
                    old(self).refs@.head,
                    full_fuel(old(self).refs@.refs),
                ) is Cycle && *final(self) == *old(self),
            },
    {
        let ghost s0 = self.store@;
        let ghost refs0 = self.refs@.refs;
        let parents: Vec<ObjectId> = match self.refs.head_resolution() {
            Resolution::Cycle => {
                return Err(GitError::RefCycle);
            },
            Resolution::Missing => Vec::new(),
            Resolution::Commit(p) => {
                proof {
                    lemma_resolve_commit(refs0, self.refs@.head, full_fuel(refs0));
                }
                let mut v: Vec<ObjectId> = Vec::new();
                v.push(p);
                v
            },
        };
        let ghost res = resolve_spec(refs0, self.refs@.head, full_fuel(refs0));
        proof {
            assert(parents@ =~= (match res {
                Resolution::Commit(p) => seq![p],
                _ => Seq::<ObjectId>::empty(),
            }));
            assert(forall|k: int| 0 <= k < parents@.len() ==> is_commit(
                s0,
                #[trigger] parents@[k],
            ));
        }
        let ghost treev = ObjectV::Tree(Index::tree_of_index(self.index@));
        let tid = self.index.write_tree(&mut self.store);
        proof {
            lemma_put_keeps_graph(s0, treev, refs0);
            lemma_put_shape(s0, treev);
        }
        let ghost s1 = self.store@;
        let commit = Commit { tree: tid, parents, author, message, time };
        let ghost cv = commit@;
        proof {
            assert(cv.tree == tid);
            assert(s1[tid.raw as int] is Tree);
            assert forall|k: int| 0 <= k < cv.parents.len() implies is_commit(
                s1,
                #[trigger] cv.parents[k],
            ) by {
                assert(is_commit(s0, cv.parents[k]));
            }
            lemma_put_commit_keeps_graph(s1, cv, refs0);
            lemma_put_shape(s1, ObjectV::Commit(cv));
        }
        let cid = self.store.put(Object::Commit(commit));
        let head = clone_bytes(self.refs.head_name());
        self.refs.set_branch(head, cid);
        proof {
            lemma_refs_valid_update(
                self.store@,
                refs0,
                self.refs@.refs,
                old(self).refs@.head,
                cid,
            );
        }
        Ok(cid)
    }

    /// HEAD's tree: the directory snapshot of the commit HEAD resolves
    /// to, empty when HEAD resolves to no commit.
    pub open spec fn head_tree(self) -> Seq<TreeEntryV> {
        match resolve_spec(self.refs@.refs, self.refs@.head, full_fuel(self.refs@.refs)) {
            Resolution::Commit(id) => if is_commit(self.store@, id) && self.store@[commit_at(
                self.store@,
                id,
            ).tree.raw as int] is Tree {
                self.store@[commit_at(self.store@, id).tree.raw as int]->Tree_0
            } else {
                Seq::empty()
            },
            _ => Seq::empty(),
        }
    }

    /// The status report over a working-tree scan handed in by the
    /// caller. An unborn HEAD contributes no committed content, so on a
    /// fresh repository every file on disk reports as untracked.
    pub fn status(&self, work: &Vec<WorkFile>) -> (r: Vec<StatusEntry>)
        requires
            self.wf(),
        ensures
            status_post(
                self.store@,
                self.head_tree(),
                self.index@,
                work_model(work@),
                report_model(r@),
            ),
    {
        match self.refs.head_resolution() {
            Resolution::Commit(id) => {
                proof {
                    lemma_resolve_commit(
                        self.refs@.refs,
                        self.refs@.head,
                        full_fuel(self.refs@.refs),
                    );
                    assert(is_commit(self.store@, id));
                }
                let c = match self.store.get(id) {
                    Ok(o) => match o {
                        Object::Commit(c) => c,
                        _ => unreached(),
                    },
                    Err(_) => unreached(),
                };
                proof {
                    assert(c@ == commit_at(self.store@, id));
                    assert(self.store@[c.tree.raw as int] is Tree);
                }
                let t = match self.store.get(c.tree) {
                    Ok(o) => match o {
                        Object::Tree(t) => t,
                        _ => unreached(),
                    },
                    Err(_) => unreached(),
                };
                proof {
                    assert(tree_model(t@) == self.head_tree());
                }
                compute_status(&self.store, t, &self.index, work)
            },
            _ => {
                let empty_tree: Vec<TreeEntry> = Vec::new();
                proof {
                    assert(tree_model(empty_tree@) =~= Seq::<TreeEntryV>::empty());
                }
                compute_status(&self.store, &empty_tree, &self.index, work)
            },
        }
    }

    /// The log: the priority walk from HEAD's commit, each entry
    /// carrying the commit identifier and the first line of its message
    /// (a fixed placeholder when the message is empty). An unborn HEAD
    /// gives an empty log, not an error; a looping HEAD fails.
    pub fn log(&self, limit: usize) -> (r: Result<Vec<LogEntry>, GitError>)
        requires
            self.wf(),
        ensures
            match r {
                Ok(v) => {
                    let res = resolve_spec(
                        self.refs@.refs,
                        self.refs@.head,
                        full_fuel(self.refs@.refs),
                    );
                    &&& !(res is Cycle)
                    &&& res is Missing ==> v@.len() == 0
                    &&& res matches Resolution::Commit(id) ==> {
                        let ids = walk_spec(self.store@, seq![id], seq![id], limit as nat);
                        &&& log_model(v@).len() == ids.len()
                        &&& forall|k: int|
                            0 <= k < ids.len() ==> (#[trigger] log_model(v@)[k]).id == ids[k]
                                && log_model(v@)[k].summary == summary_of(
                                commit_at(self.store@, ids[k]).message,
                            )
                    }
                },
                Err(e) => e == GitError::RefCycle && resolve_spec(
                    self.refs@.refs,
                    self.refs@.head,
                    full_fuel(self.refs@.refs),
                ) is Cycle,
            },
    {
        match self.refs.head_resolution() {
            Resolution::Cycle => Err(GitError::RefCycle),
            Resolution::Missing => {
                let v: Vec<LogEntry> = Vec::new();
                Ok(v)
            },
            Resolution::Commit(id) => {
                proof {
                    lemma_resolve_commit(
                        self.refs@.refs,
                        self.refs@.head,
                        full_fuel(self.refs@.refs),
                    );
                    assert(is_commit(self.store@, id));
                }
                let ids = match log_walk(&self.store, id, limit) {
                    Ok(ids) => ids,
                    Err(_) => unreached(),
                };
                let ghost idsv = ids@;
                let n = ids.len();
                let mut out: Vec<LogEntry> = Vec::new();
                proof {
                    assert(log_model(out@) =~= Seq::<LogEntryV>::empty());
                }
                let mut i: usize = 0;
                while i < n
                    invariant
                        self.wf(),
                        idsv == ids@,
                        n == ids.len(),
                        i <= n,
                        forall|k: int| 0 <= k < n ==> is_commit(self.store@, #[trigger] idsv[k]),
                        log_model(out@).len() == i,
                        forall|k: int|
                            0 <= k < i ==> (#[trigger] log_model(out@)[k]).id == idsv[k]
                                && log_model(out@)[k].summary == summary_of(
                                commit_at(self.store@, idsv[k]).message,
                            ),
                    decreases n - i,
                {
                    let ghost before = log_model(out@);
                    let cid = ids[i];
                    let c = match self.store.get(cid) {
                        Ok(o) => match o {
                            Object::Commit(c) => c,
                            _ => unreached(),
                        },
                        Err(_) => unreached(),
                    };
                    proof {
                        assert(c@ == commit_at(self.store@, cid));
                    }
                    let summary = summary_bytes(&c.message);
                    out.push(LogEntry { id: cid, summary });
                    proof {
                        assert(log_model(out@) =~= before.push(
                            LogEntryV {
                                id: cid,
                                summary: summary_of(commit_at(self.store@, cid).message),
                            },
                        ));
                    }
                    i += 1;
                }
                Ok(out)
            },
        }
    }

    /// The branch listing, in name order.
    pub fn branches(&self) -> (r: Vec<BranchEntry>)
        ensures
            r@.map_values(|b: BranchEntry| b@) == branches_spec(self.refs@.refs),
    {
        self.refs.branches()
    }

    /// Creates (or moves) branch `name` to point at commit `id`; fails
    /// exactly when `id` names no stored commit.
    pub fn create_branch(&mut self, name: Vec<u8>, id: ObjectId) -> (r: Result<(), GitError>)
        requires
            old(self).wf(),
        ensures
            final(self).wf(),
            match r {
                Ok(_) => {
                    &&& is_commit(old(self).store@, id)
                    &&& final(self).store@ == old(self).store@
                    &&& final(self).index@ == old(self).index@
                    &&& final(self).refs@.head == old(self).refs@.head
                    &&& ref_target(final(self).refs@.refs, name@) == Some(RefTargetV::Direct(id))
                    &&& forall|q: Seq<u8>| q != name@ ==> ref_target(final(self).refs@.refs, q)
                        == ref_target(old(self).refs@.refs, q)
                },
                Err(e) => {
                    &&& e == GitError::CommitNotFound
                    &&& !is_commit(old(self).store@, id)
                    &&& *final(self) == *old(self)
                },
            },
    {
        let ok = match self.store.get(id) {
            Ok(o) => match o {
                Object::Commit(_) => true,
                _ => false,
            },
            Err(_) => false,
        };
        if !ok {
            return Err(GitError::CommitNotFound);
        }
        let ghost refs0 = self.refs@.refs;
        self.refs.set_branch(name, id);
        proof {
            lemma_refs_valid_update(self.store@, refs0, self.refs@.refs, name@, id);
        }
        Ok(())
    }

    /// The name HEAD is attached to.
    pub fn head_name(&self) -> (r: &Vec<u8>)
        ensures
            r@ == self.refs@.head,
    {
        self.refs.head_name()
    }
}

} // verus!
