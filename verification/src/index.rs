//! The staging index: the ordered record of what the next commit will
//! hold. Entries are kept strictly sorted by path and unique by path;
//! staging is an upsert (last write wins), unstaging of an absent path
//! is a no-op, and `write_tree` materializes the entries as a tree
//! object whose entries are sorted by name — the fixed canonical form
//! that makes equal snapshots hash to equal identifiers.

use vstd::prelude::*;
use crate::lex::{lex_lt, bytes_eq, bytes_lt, clone_bytes};
use crate::lex::{lemma_lex_lt_trans, lemma_lex_connected};
use crate::objects::{Object, ObjectId, ObjectV, TreeEntry, TreeEntryV};
use crate::store::{Store, put_store_spec, put_id_spec};

verus! {

/// The file mode recorded for every staged regular file.
pub const MODE_FILE: u32 = 0o100644;

/// One staged path: its blob identifier and the metadata snapshot
/// (size and modification time) taken when it was staged.
pub struct IndexEntry {
    pub path: Vec<u8>,
    pub id: ObjectId,
    pub size: u64,
    pub mtime: u64,
}

/// Mathematical model of an `IndexEntry`.
#[verifier::ext_equal]
pub ghost struct IndexEntryV {
    pub path: Seq<u8>,
    pub id: ObjectId,
    pub size: u64,
    pub mtime: u64,
}

impl View for IndexEntry {
    type V = IndexEntryV;

    open spec fn view(&self) -> IndexEntryV {
        IndexEntryV { path: self.path@, id: self.id, size: self.size, mtime: self.mtime }
    }
}

/// Entries stand in strictly increasing path order; paths are unique.
pub open spec fn entries_sorted(s: Seq<IndexEntryV>) -> bool {
    forall|i: int, j: int| 0 <= i < j < s.len() ==> lex_lt(s[i].path, s[j].path)
}

/// The place of the first entry for path `p`, if any.
pub open spec fn index_find(s: Seq<IndexEntryV>, p: Seq<u8>) -> Option<int>
    decreases s.len(),
{
    if s.len() == 0 {
        None
    } else if s[0].path == p {
        Some(0int)
    } else {
        match index_find(s.skip(1), p) {
            Some(i) => Some(i + 1),
            None => None,
        }
    }
}

/// The entry staged for path `p`, if any.
pub open spec fn index_entry(s: Seq<IndexEntryV>, p: Seq<u8>) -> Option<IndexEntryV> {
    match index_find(s, p) {
        Some(i) => Some(s[i]),
        None => None,
    }
}

/// The blob identifier staged for path `p`, if any.
pub open spec fn index_id_of(s: Seq<IndexEntryV>, p: Seq<u8>) -> Option<ObjectId> {
    match index_entry(s, p) {
        Some(e) => Some(e.id),
        None => None,
    }
}

/// What `index_find` returns is the first occurrence, and absence of a
/// result means no entry has path `p`.
pub proof fn lemma_index_find(s: Seq<IndexEntryV>, p: Seq<u8>)
    ensures
        match index_find(s, p) {
            Some(i) => 0 <= i < s.len() && s[i].path == p && (forall|k: int|
                0 <= k < i ==> s[k].path != p),
            None => forall|k: int| 0 <= k < s.len() ==> s[k].path != p,
        },
    decreases s.len(),
{
    if s.len() != 0 && s[0].path != p {
        lemma_index_find(s.skip(1), p);
        match index_find(s.skip(1), p) {
            Some(i) => {
                assert(s.skip(1)[i].path == p);
                assert forall|k: int| 0 <= k < i + 1 implies s[k].path != p by {
                    if k >= 1 {
                        assert(s.skip(1)[k - 1] == s[k]);
                    }
                }
            },
            None => {
                assert forall|k: int| 0 <= k < s.len() implies s[k].path != p by {
                    if k >= 1 {
                        assert(s.skip(1)[k - 1] == s[k]);
                    }
                }
            },
        }
    }
}

/// A first occurrence determines `index_find`.
pub proof fn lemma_index_find_first(s: Seq<IndexEntryV>, p: Seq<u8>, i: int)
    requires
        0 <= i < s.len(),
        s[i].path == p,
        forall|k: int| 0 <= k < i ==> s[k].path != p,
    ensures
        index_find(s, p) == Some(i),
    decreases s.len(),
{
    if s[0].path != p {
        assert(s.skip(1)[i - 1] == s[i]);
        assert(forall|k: int| 0 <= k < i - 1 ==> s.skip(1)[k] == s[k + 1]);
        lemma_index_find_first(s.skip(1), p, i - 1);
    }
}

/// In a sorted index any occurrence is the occurrence.
pub proof fn lemma_index_find_at(s: Seq<IndexEntryV>, p: Seq<u8>, i: int)
    requires
        entries_sorted(s),
        0 <= i < s.len(),
        s[i].path == p,
    ensures
        index_find(s, p) == Some(i),
{
    assert forall|k: int| 0 <= k < i implies s[k].path != p by {
        assert(lex_lt(s[k].path, s[i].path));
    }
    lemma_index_find_first(s, p, i);
}

/// The staging index.
pub struct Index {
    pub entries: Vec<IndexEntry>,
}

impl View for Index {
    type V = Seq<IndexEntryV>;

    open spec fn view(&self) -> Seq<IndexEntryV> {
        self.entries@.map_values(|e: IndexEntry| e@)
    }
}

impl Index {
    pub open spec fn wf(self) -> bool {
        entries_sorted(self@)
    }

    /// A fresh, empty index.
    pub fn new() -> (r: Index)
        ensures
            r.wf(),
            r@ == Seq::<IndexEntryV>::empty(),
    {
        let r = Index { entries: Vec::new() };
        proof {
            assert(r@ =~= Seq::<IndexEntryV>::empty());
        }
        r
    }

    /// The staged entries, in path order.
    pub fn entries(&self) -> (r: &Vec<IndexEntry>)
        ensures
            r@.map_values(|e: IndexEntry| e@) == self@,
    {
        &self.entries
    }

    /// The number of staged entries.
    pub fn count(&self) -> (r: usize)
        ensures
            r == self@.len(),
    {
        self.entries.len()
    }

    /// The place of the entry for `path`, mirroring `index_find`.
    pub fn position_of(&self, path: &Vec<u8>) -> (r: Option<usize>)
        ensures
            match r {
                Some(k) => index_find(self@, path@) == Some(k as int),
                None => index_find(self@, path@) is None,
            },
    {
        let n = self.entries.len();
        assert(n == self@.len());
        let mut i: usize = 0;
        while i < n
            invariant
                n == self.entries.len(),
                n == self@.len(),
                i <= n,
                forall|k: int| 0 <= k < i ==> self@[k].path != path@,
            decreases n - i,
        {
            if bytes_eq(&self.entries[i].path, path) {
                proof {
                    lemma_index_find_first(self@, path@, i as int);
                }
                return Some(i);
            }
            assert(self@[i as int].path != path@);
            i += 1;
        }
        proof {
            lemma_index_find(self@, path@);
            if index_find(self@, path@) is Some {
                assert(self@[index_find(self@, path@).unwrap()].path == path@);
            }
        }
        None
    }

    /// The blob identifier staged for `path`, if any.
    pub fn find(&self, path: &Vec<u8>) -> (r: Option<ObjectId>)
        ensures
            r == index_id_of(self@, path@),
    {
        match self.position_of(path) {
            Some(k) => {
                proof {
                    lemma_index_find(self@, path@);
                    assert(self@.len() == self.entries@.len());
                }
                assert(self@[k as int] == self.entries@[k as int]@);
                Some(self.entries[k].id)
            },
            None => None,
        }
    }

    /// Stages `content` for `path`: the content enters the object store,
    /// and the entry for `path` is inserted or overwritten (last write
    /// wins). Every other path's entry is untouched.
    pub fn stage(
        &mut self,
        store: &mut Store,
        path: Vec<u8>,
        content: Vec<u8>,
        size: u64,
        mtime: u64,
    ) -> (r: ObjectId)
        requires
            old(self).wf(),
            old(store).wf(),
        ensures
            final(self).wf(),
            final(store).wf(),
            final(store)@ == put_store_spec(old(store)@, ObjectV::Blob(content@)),
            r.raw == put_id_spec(old(store)@, ObjectV::Blob(content@)),
            index_entry(final(self)@, path@) == Some(
                IndexEntryV { path: path@, id: r, size, mtime },
            ),
            forall|q: Seq<u8>| q != path@ ==> index_entry(final(self)@, q) == index_entry(
                old(self)@,
                q,
            ),
    {
        let ghost content_v = content@;
        let id = store.put(Object::Blob(content));
        let ghost s0 = self@;
        let ghost p = path@;
        let n = self.entries.len();
        assert(n == s0.len());
        let mut k: usize = 0;
        while k < n && bytes_lt(&self.entries[k].path, &path)
            invariant
                *self == *old(self),
                self@ == s0,
                n == self.entries.len(),
                n == s0.len(),
                p == path@,
                k <= n,
                forall|j: int| 0 <= j < k ==> lex_lt(s0[j].path, p),
            decreases n - k,
        {
            k += 1;
        }
        let entry = IndexEntry { path, id, size, mtime };
        let ghost e = entry@;
        assert(e == IndexEntryV { path: p, id, size, mtime });
        if k < n && bytes_eq(&self.entries[k].path, &entry.path) {
            // Overwrite in place: the path order is unchanged.
            self.entries.remove(k);
            self.entries.insert(k, entry);
            proof {
                assert(self@ =~= s0.update(k as int, e));
                let s1 = self@;
                assert forall|i: int, j: int| 0 <= i < j < s1.len() implies lex_lt(
                    s1[i].path,
                    s1[j].path,
                ) by {
                    assert(s1[i].path == s0[i].path);
                    assert(s1[j].path == s0[j].path);
                }
                lemma_index_find_at(s1, p, k as int);
                assert forall|q: Seq<u8>| q != p implies index_entry(s1, q) == index_entry(
                    s0,
                    q,
                ) by {
                    lemma_index_find(s0, q);
                    match index_find(s0, q) {
                        Some(i) => {
                            assert(i != k);
                            lemma_index_find_at(s1, q, i);
                        },
                        None => {
                            lemma_index_find(s1, q);
                            if index_find(s1, q) is Some {
                                let i = index_find(s1, q).unwrap();
                                assert(s1[i].path == q);
                                assert(i != k);
                                assert(s0[i].path == q);
                            }
                        },
                    }
                }
            }
        } else {
            proof {
                if k < n {
                    assert(!lex_lt(s0[k as int].path, p));
                    assert(s0[k as int].path != p);
                    lemma_lex_connected(s0[k as int].path, p);
                    assert(lex_lt(p, s0[k as int].path));
                }
            }
            self.entries.insert(k, entry);
            proof {
                let s1 = self@;
                assert(s1 =~= s0.insert(k as int, e));
                assert forall|i: int, j: int| 0 <= i < j < s1.len() implies lex_lt(
                    s1[i].path,
                    s1[j].path,
                ) by {
                    if j < k {
                    } else if j == k {
                        assert(s1[i] == s0[i]);
                    } else {
                        if i < k {
                            assert(s1[i] == s0[i]);
                            assert(s1[j] == s0[j - 1]);
                            if j - 1 == k {
                                lemma_lex_lt_trans(s0[i].path, p, s0[k as int].path);
                            }
                        } else if i == k {
                            assert(s1[j] == s0[j - 1]);
                            if j - 1 > k {
                                lemma_lex_lt_trans(p, s0[k as int].path, s0[j - 1].path);
                            }
                        } else {
                            assert(s1[i] == s0[i - 1]);
                            assert(s1[j] == s0[j - 1]);
                        }
                    }
                }
                lemma_index_find_at(s1, p, k as int);
                assert forall|q: Seq<u8>| q != p implies index_entry(s1, q) == index_entry(
                    s0,
                    q,
                ) by {
                    lemma_index_find(s0, q);
                    match index_find(s0, q) {
                        Some(i) => {
                            if i < k {
                                assert(s1[i] == s0[i]);
                                lemma_index_find_at(s1, q, i);
                            } else {
                                assert(s1[i + 1] == s0[i]);
                                lemma_index_find_at(s1, q, i + 1);
                            }
                        },
                        None => {
                            lemma_index_find(s1, q);
                            if index_find(s1, q) is Some {
                                let i = index_find(s1, q).unwrap();
                                assert(s1[i].path == q);
                                assert(i != k);
                                if i < k {
                                    assert(s0[i].path == q);
                                } else {
                                    assert(s0[i - 1].path == q);
                                }
                            }
                        },
                    }
                }
            }
        }
        id
    }

    /// Removes the entry for `path`; a no-op when none is staged.
    pub fn unstage(&mut self, path: &Vec<u8>)
        requires
            old(self).wf(),
        ensures
            final(self).wf(),
            index_entry(final(self)@, path@) is None,
            forall|q: Seq<u8>| q != path@ ==> index_entry(final(self)@, q) == index_entry(
                old(self)@,
                q,
            ),
    {
        let ghost s0 = self@;
        let ghost p = path@;
        proof {
            lemma_index_find(s0, p);
        }
        match self.position_of(path) {
            None => {},
            Some(k) => {
                self.entries.remove(k);
                proof {
                    let s1 = self@;
                    assert(s1 =~= s0.remove(k as int));
                    assert forall|i: int, j: int| 0 <= i < j < s1.len() implies lex_lt(
                        s1[i].path,
                        s1[j].path,
                    ) by {
                        assert(s1[i] == if i < k { s0[i] } else { s0[i + 1] });
                        assert(s1[j] == if j < k { s0[j] } else { s0[j + 1] });
                    }
                    assert forall|i: int| 0 <= i < s1.len() implies s1[i].path != p by {
                        assert(s1[i] == if i < k { s0[i] } else { s0[i + 1] });
                        if i < k {
                            assert(lex_lt(s0[i].path, s0[k as int].path));
                        } else {
                            assert(lex_lt(s0[k as int].path, s0[i + 1].path));
                        }
                    }
                    lemma_index_find(s1, p);
                    if index_find(s1, p) is Some {
                        assert(s1[index_find(s1, p).unwrap()].path == p);
                    }
                    assert forall|q: Seq<u8>| q != p implies index_entry(s1, q) == index_entry(
                        s0,
                        q,
                    ) by {
                        lemma_index_find(s0, q);
                        match index_find(s0, q) {
                            Some(i) => {
                                assert(i != k);
                                if i < k {
                                    assert(s1[i] == s0[i]);
                                    lemma_index_find_at(s1, q, i);
                                } else {
                                    assert(s1[i - 1] == s0[i]);
                                    lemma_index_find_at(s1, q, i - 1);
                                }
                            },
                            None => {
                                lemma_index_find(s1, q);
                                if index_find(s1, q) is Some {
                                    let i = index_find(s1, q).unwrap();
                                    assert(s1[i] == if i < k { s0[i] } else { s0[i + 1] });
                                }
                            },
                        }
                    }
                }
            },
        }
    }

    /// The canonical tree snapshot of an index: one entry per staged
    /// path, in the index's own (sorted) order.
    pub open spec fn tree_of_index(s: Seq<IndexEntryV>) -> Seq<TreeEntryV> {
        s.map_values(|e: IndexEntryV| TreeEntryV { name: e.path, mode: MODE_FILE, child: e.id })
    }

    /// Materializes the staged entries as a tree object in the store and
    /// returns its identifier.
    pub fn write_tree(&self, store: &mut Store) -> (r: ObjectId)
        requires
            old(store).wf(),
        ensures
            final(store).wf(),
            final(store)@ == put_store_spec(
                old(store)@,
                ObjectV::Tree(Self::tree_of_index(self@)),
            ),
            r.raw == put_id_spec(old(store)@, ObjectV::Tree(Self::tree_of_index(self@))),
    {
        let n = self.entries.len();
        assert(n == self@.len());
        let mut out: Vec<TreeEntry> = Vec::new();
        let mut i: usize = 0;
        while i < n
            invariant
                n == self.entries.len(),
                n == self@.len(),
                i <= n,
                out@.len() == i,
                forall|j: int| 0 <= j < i ==> out@[j]@ == Self::tree_of_index(self@)[j],
            decreases n - i,
        {
            let name = clone_bytes(&self.entries[i].path);
            let child = self.entries[i].id;
            out.push(TreeEntry { name, mode: MODE_FILE, child });
            i += 1;
        }
        proof {
            assert(out@.map_values(|e: TreeEntry| e@) =~= Self::tree_of_index(self@));
        }
        store.put(Object::Tree(out))
    }
}

} // verus!
