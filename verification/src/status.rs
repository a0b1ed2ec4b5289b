//! The three-way status classifier. For every path present in the
//! working tree, the index or the HEAD tree, three optional blob
//! identifiers are compared — `committed` (HEAD tree), `staged` (index)
//! and `working` (disk content, identified through the object store) —
//! and a classification is drawn from a fixed decision table, first
//! matching row winning. Clean paths are omitted. The report is sorted
//! by path and mentions no path twice.

use vstd::prelude::*;
use crate::lex::{lex_lt, bytes_eq, bytes_lt, clone_bytes};
use crate::lex::{lemma_lex_lt_trans, lemma_lex_connected};
use crate::objects::{ObjectId, ObjectV, TreeEntry, TreeEntryV};
use crate::index::{Index, IndexEntryV, index_id_of};
use crate::store::{Store, find_obj};

verus! {

/// What status reports about one path.
#[derive(Clone, Copy, PartialEq, Eq, Structural, Debug)]
pub enum Classification {
    /// On disk, never staged, not at HEAD.
    Untracked,
    /// At HEAD; disk content differs; nothing newer staged.
    Modified,
    /// At HEAD; gone from disk; nothing newer staged.
    Deleted,
    /// Staged; not at HEAD.
    StagedNew,
    /// Staged with content differing from HEAD's.
    StagedModified,
    /// Reserved for a staged deletion; the decision table's priority
    /// order reports that state as `Deleted`, so the classifier never
    /// produces this value itself. The presentation layer still owns a
    /// label for it.
    StagedDeleted,
    /// Excluded by the external ignore policy. The policy runs outside
    /// the core, so the classifier never produces this value itself.
    Ignored,
    /// Defensive fallback for identifier triples no table row covers.
    Unknown,
}

impl Classification {
    /// A human-readable label, for the presentation layer.
    pub fn label(&self) -> (r: &'static str)
        ensures
            r@ == self.label_spec(),
    {
        match self {
            Classification::Untracked => "Untracked",
            Classification::Modified => "Modified",
            Classification::Deleted => "Deleted",
            Classification::StagedNew => "Staged (New)",
            Classification::StagedModified => "Staged (Modified)",
            Classification::StagedDeleted => "Staged (Deleted)",
            Classification::Ignored => "Ignored",
            Classification::Unknown => "Unknown",
        }
    }

    pub open spec fn label_spec(self) -> Seq<char> {
        match self {
            Classification::Untracked => "Untracked"@,
            Classification::Modified => "Modified"@,
            Classification::Deleted => "Deleted"@,
            Classification::StagedNew => "Staged (New)"@,
            Classification::StagedModified => "Staged (Modified)"@,
            Classification::StagedDeleted => "Staged (Deleted)"@,
            Classification::Ignored => "Ignored"@,
            Classification::Unknown => "Unknown"@,
        }
    }
}

/// The decision table. Rows are tried from the top; `None` means the
/// path is clean and omitted from the report.
pub open spec fn classify_spec(
    c: Option<ObjectId>,
    s: Option<ObjectId>,
    w: Option<ObjectId>,
) -> Option<Classification> {
    if c is None && s is None && w is None {
        None
    } else if c is Some && s == c && w == c {
        None
    } else if c is None && s is None {
        Some(Classification::Untracked)
    } else if c is None {
        Some(Classification::StagedNew)
    } else if (s is None || s == c) && w is None {
        Some(Classification::Deleted)
    } else if (s is None || s == c) && w != c {
        Some(Classification::Modified)
    } else if s is Some && s != c && (w is None || w == s) {
        Some(Classification::StagedModified)
    } else {
        Some(Classification::Unknown)
    }
}

/// Decides equality of two optional identifiers.
fn oid_opt_eq(a: Option<ObjectId>, b: Option<ObjectId>) -> (r: bool)
    ensures
        r == (a == b),
{
    match (a, b) {
        (None, None) => true,
        (Some(x), Some(y)) => x == y,
        _ => false,
    }
}

/// Executable form of the decision table.
pub fn classify(c: Option<ObjectId>, s: Option<ObjectId>, w: Option<ObjectId>) -> (r: Option<
    Classification,
>)
    ensures
        r == classify_spec(c, s, w),
{
    if c.is_none() && s.is_none() && w.is_none() {
        None
    } else if c.is_some() && oid_opt_eq(s, c) && oid_opt_eq(w, c) {
        None
    } else if c.is_none() && s.is_none() {
        Some(Classification::Untracked)
    } else if c.is_none() {
        Some(Classification::StagedNew)
    } else if (s.is_none() || oid_opt_eq(s, c)) && w.is_none() {
        Some(Classification::Deleted)
    } else if (s.is_none() || oid_opt_eq(s, c)) && !oid_opt_eq(w, c) {
        Some(Classification::Modified)
    } else if s.is_some() && !oid_opt_eq(s, c) && (w.is_none() || oid_opt_eq(w, s)) {
        Some(Classification::StagedModified)
    } else {
        Some(Classification::Unknown)
    }
}

/// One file of the working tree, as the scanner hands it in: a path and
/// the file's content.
pub struct WorkFile {
    pub path: Vec<u8>,
    pub content: Vec<u8>,
}

/// Mathematical model of a `WorkFile`.
#[verifier::ext_equal]
pub ghost struct WorkFileV {
    pub path: Seq<u8>,
    pub content: Seq<u8>,
}

impl View for WorkFile {
    type V = WorkFileV;

    open spec fn view(&self) -> WorkFileV {
        WorkFileV { path: self.path@, content: self.content@ }
    }
}

/// One line of the status report.
pub struct StatusEntry {
    pub path: Vec<u8>,
    pub class: Classification,
}

/// Mathematical model of a `StatusEntry`.
#[verifier::ext_equal]
pub ghost struct StatusEntryV {
    pub path: Seq<u8>,
    pub class: Classification,
}

impl View for StatusEntry {
    type V = StatusEntryV;

    open spec fn view(&self) -> StatusEntryV {
        StatusEntryV { path: self.path@, class: self.class }
    }
}

/// Models of the vectors the classifier works over.
pub open spec fn tree_model(s: Seq<TreeEntry>) -> Seq<TreeEntryV> {
    s.map_values(|e: TreeEntry| e@)
}

pub open spec fn work_model(s: Seq<WorkFile>) -> Seq<WorkFileV> {
    s.map_values(|f: WorkFile| f@)
}

pub open spec fn report_model(s: Seq<StatusEntry>) -> Seq<StatusEntryV> {
    s.map_values(|e: StatusEntry| e@)
}

pub open spec fn paths_of(s: Seq<Vec<u8>>) -> Seq<Seq<u8>> {
    s.map_values(|v: Vec<u8>| v@)
}

/// The place of the first tree entry named `p`, if any.
pub open spec fn tree_find(t: Seq<TreeEntryV>, p: Seq<u8>) -> Option<int>
    decreases t.len(),
{
    if t.len() == 0 {
        None
    } else if t[0].name == p {
        Some(0int)
    } else {
        match tree_find(t.skip(1), p) {
            Some(i) => Some(i + 1),
            None => None,
        }
    }
}

/// What `tree_find` returns is the first occurrence, and absence of a
/// result means no entry carries the name.
pub proof fn lemma_tree_find(t: Seq<TreeEntryV>, p: Seq<u8>)
    ensures
        match tree_find(t, p) {
            Some(i) => 0 <= i < t.len() && t[i].name == p && (forall|k: int|
                0 <= k < i ==> t[k].name != p),
            None => forall|k: int| 0 <= k < t.len() ==> t[k].name != p,
        },
    decreases t.len(),
{
    if t.len() != 0 && t[0].name != p {
        lemma_tree_find(t.skip(1), p);
        match tree_find(t.skip(1), p) {
            Some(i) => {
                assert(t.skip(1)[i].name == p);
                assert forall|k: int| 0 <= k < i + 1 implies t[k].name != p by {
                    if k >= 1 {
                        assert(t.skip(1)[k - 1] == t[k]);
                    }
                }
            },
            None => {
                assert forall|k: int| 0 <= k < t.len() implies t[k].name != p by {
                    if k >= 1 {
                        assert(t.skip(1)[k - 1] == t[k]);
                    }
                }
            },
        }
    }
}

/// A first occurrence determines `tree_find`.
pub proof fn lemma_tree_find_first(t: Seq<TreeEntryV>, p: Seq<u8>, i: int)
    requires
        0 <= i < t.len(),
        t[i].name == p,
        forall|k: int| 0 <= k < i ==> t[k].name != p,
    ensures
        tree_find(t, p) == Some(i),
    decreases t.len(),
{
    if t[0].name != p {
        assert(t.skip(1)[i - 1] == t[i]);
        assert(forall|k: int| 0 <= k < i - 1 ==> t.skip(1)[k] == t[k + 1]);
        lemma_tree_find_first(t.skip(1), p, i - 1);
    }
}

/// The place of the first working file at path `p`, if any.
pub open spec fn work_find(w: Seq<WorkFileV>, p: Seq<u8>) -> Option<int>
    decreases w.len(),
{
    if w.len() == 0 {
        None
    } else if w[0].path == p {
        Some(0int)
    } else {
        match work_find(w.skip(1), p) {
            Some(i) => Some(i + 1),
            None => None,
        }
    }
}

/// What `work_find` returns is the first occurrence, and absence of a
/// result means no working file has the path.
pub proof fn lemma_work_find(w: Seq<WorkFileV>, p: Seq<u8>)
    ensures
        match work_find(w, p) {
            Some(i) => 0 <= i < w.len() && w[i].path == p && (forall|k: int|
                0 <= k < i ==> w[k].path != p),
            None => forall|k: int| 0 <= k < w.len() ==> w[k].path != p,
        },
    decreases w.len(),
{
    if w.len() != 0 && w[0].path != p {
        lemma_work_find(w.skip(1), p);
        match work_find(w.skip(1), p) {
            Some(i) => {
                assert(w.skip(1)[i].path == p);
                assert forall|k: int| 0 <= k < i + 1 implies w[k].path != p by {
                    if k >= 1 {
                        assert(w.skip(1)[k - 1] == w[k]);
                    }
                }
            },
            None => {
                assert forall|k: int| 0 <= k < w.len() implies w[k].path != p by {
                    if k >= 1 {
                        assert(w.skip(1)[k - 1] == w[k]);
                    }
                }
            },
        }
    }
}

/// A first occurrence determines `work_find`.
pub proof fn lemma_work_find_first(w: Seq<WorkFileV>, p: Seq<u8>, i: int)
    requires
        0 <= i < w.len(),
        w[i].path == p,
        forall|k: int| 0 <= k < i ==> w[k].path != p,
    ensures
        work_find(w, p) == Some(i),
    decreases w.len(),
{
    if w[0].path != p {
        assert(w.skip(1)[i - 1] == w[i]);
        assert(forall|k: int| 0 <= k < i - 1 ==> w.skip(1)[k] == w[k + 1]);
        lemma_work_find_first(w.skip(1), p, i - 1);
    }
}

/// The identifier HEAD's tree holds for path `p`, if any.
pub open spec fn committed_of(head: Seq<TreeEntryV>, p: Seq<u8>) -> Option<ObjectId> {
    match tree_find(head, p) {
        Some(i) => Some(head[i].child),
        None => None,
    }
}

/// The identifier disk content at path `p` compares as, if the path is
/// on disk: the stored blob's identifier when the content is stored,
/// and otherwise the store's next identifier — which names no stored
/// object, so it differs from every staged or committed identifier.
pub open spec fn working_of(store: Seq<ObjectV>, w: Seq<WorkFileV>, p: Seq<u8>) -> Option<
    ObjectId,
> {
    match work_find(w, p) {
        Some(i) => Some(
            match find_obj(store, ObjectV::Blob(w[i].content)) {
                Some(j) => ObjectId { raw: j as u64 },
                None => ObjectId { raw: store.len() as u64 },
            },
        ),
        None => None,
    }
}

/// The classification status draws for path `p`.
pub open spec fn classification_of(
    store: Seq<ObjectV>,
    head: Seq<TreeEntryV>,
    idx: Seq<IndexEntryV>,
    w: Seq<WorkFileV>,
    p: Seq<u8>,
) -> Option<Classification> {
    classify_spec(committed_of(head, p), index_id_of(idx, p), working_of(store, w, p))
}

/// `p` appears in at least one of the three sources.
pub open spec fn path_in_sources(
    head: Seq<TreeEntryV>,
    idx: Seq<IndexEntryV>,
    w: Seq<WorkFileV>,
    p: Seq<u8>,
) -> bool {
    ||| exists|i: int| 0 <= i < head.len() && head[i].name == p
    ||| exists|i: int| 0 <= i < idx.len() && idx[i].path == p
    ||| exists|i: int| 0 <= i < w.len() && w[i].path == p
}

/// Report lines stand in strictly increasing path order.
pub open spec fn report_sorted(r: Seq<StatusEntryV>) -> bool {
    forall|i: int, j: int| 0 <= i < j < r.len() ==> lex_lt(r[i].path, r[j].path)
}

/// Some line of the report concerns path `p`.
pub open spec fn report_has(r: Seq<StatusEntryV>, p: Seq<u8>) -> bool {
    exists|k: int| 0 <= k < r.len() && r[k].path == p
}

/// Everything the status report promises: it is sorted by path; each
/// line concerns a path from one of the three sources and carries that
/// path's classification from the decision table; and every path of the
/// sources whose classification is not clean has a line.
pub open spec fn status_post(
    store: Seq<ObjectV>,
    head: Seq<TreeEntryV>,
    idx: Seq<IndexEntryV>,
    w: Seq<WorkFileV>,
    r: Seq<StatusEntryV>,
) -> bool {
    &&& report_sorted(r)
    &&& forall|k: int| 0 <= k < r.len() ==> path_in_sources(head, idx, w, (#[trigger] r[k]).path)
        && Some(r[k].class) == classification_of(store, head, idx, w, r[k].path)
    &&& forall|p: Seq<u8>|
        path_in_sources(head, idx, w, p) && (#[trigger] classification_of(
            store,
            head,
            idx,
            w,
            p,
        )) is Some ==> exists|k: int| 0 <= k < r.len() && r[k].path == p
}

/// Two sorted reports that classify their paths the same way and
/// mention the same paths are the same report.
proof fn lemma_report_unique(
    store: Seq<ObjectV>,
    head: Seq<TreeEntryV>,
    idx: Seq<IndexEntryV>,
    w: Seq<WorkFileV>,
    a: Seq<StatusEntryV>,
    b: Seq<StatusEntryV>,
)
    requires
        report_sorted(a),
        report_sorted(b),
        forall|k: int| 0 <= k < a.len() ==> Some((#[trigger] a[k]).class) == classification_of(
            store,
            head,
            idx,
            w,
            a[k].path,
        ),
        forall|k: int| 0 <= k < b.len() ==> Some((#[trigger] b[k]).class) == classification_of(
            store,
            head,
            idx,
            w,
            b[k].path,
        ),
        forall|p: Seq<u8>| #[trigger] report_has(a, p) == report_has(b, p),
    ensures
        a == b,
    decreases a.len(),
{
    if a.len() == 0 {
        if b.len() != 0 {
            assert(report_has(b, b[0].path));
            assert(report_has(a, b[0].path));
            assert(false);
        }
        assert(a =~= b);
    } else {
        if b.len() == 0 {
            assert(report_has(a, a[0].path));
            assert(report_has(b, a[0].path));
            assert(false);
        }
        // The two heads carry the same path.
        assert(report_has(a, a[0].path));
        assert(report_has(b, a[0].path));
        let kb = choose|k: int| 0 <= k < b.len() && b[k].path == a[0].path;
        assert(report_has(b, b[0].path));
        assert(report_has(a, b[0].path));
        let ka = choose|k: int| 0 <= k < a.len() && a[k].path == b[0].path;
        if a[0].path != b[0].path {
            assert(kb >= 1);
            assert(lex_lt(b[0].path, b[kb].path));
            assert(ka >= 1);
            assert(lex_lt(a[0].path, a[ka].path));
            lemma_lex_connected(a[0].path, b[0].path);
            assert(false);
        }
        assert(a[0].class == b[0].class);
        assert(a[0] =~= b[0]);
        // The tails satisfy the same hypotheses.
        let at = a.skip(1);
        let bt = b.skip(1);
        assert(forall|k: int| 0 <= k < at.len() ==> #[trigger] at[k] == a[k + 1]);
        assert(forall|k: int| 0 <= k < bt.len() ==> #[trigger] bt[k] == b[k + 1]);
        assert forall|p: Seq<u8>| #[trigger] report_has(at, p) == report_has(bt, p) by {
            if report_has(at, p) {
                let k = choose|k: int| 0 <= k < at.len() && at[k].path == p;
                assert(a[k + 1].path == p);
                assert(report_has(a, p));
                assert(lex_lt(a[0].path, p));
                assert(report_has(b, p));
                let k2 = choose|k2: int| 0 <= k2 < b.len() && b[k2].path == p;
                assert(k2 >= 1);
                assert(bt[k2 - 1].path == p);
                assert(report_has(bt, p));
            }
            if report_has(bt, p) {
                let k = choose|k: int| 0 <= k < bt.len() && bt[k].path == p;
                assert(b[k + 1].path == p);
                assert(report_has(b, p));
                assert(lex_lt(b[0].path, p));
                assert(report_has(a, p));
                let k2 = choose|k2: int| 0 <= k2 < a.len() && a[k2].path == p;
                assert(k2 >= 1);
                assert(at[k2 - 1].path == p);
                assert(report_has(at, p));
            }
        }
        lemma_report_unique(store, head, idx, w, at, bt);
        assert forall|i: int| 0 <= i < a.len() implies a[i] == b[i] by {
            if i >= 1 {
                assert(at[i - 1] == a[i]);
                assert(bt[i - 1] == b[i]);
            }
        }
        assert(a =~= b);
    }
}

/// Status is idempotent and deterministic: two reports drawn from one
/// unchanged state — two runs with no intervening mutation — are
/// identical, because the status contract admits exactly one report.
pub proof fn lemma_status_deterministic(
    store: Seq<ObjectV>,
    head: Seq<TreeEntryV>,
    idx: Seq<IndexEntryV>,
    w: Seq<WorkFileV>,
    a: Seq<StatusEntryV>,
    b: Seq<StatusEntryV>,
)
    requires
        status_post(store, head, idx, w, a),
        status_post(store, head, idx, w, b),
    ensures
        a == b,
{
    assert forall|p: Seq<u8>| #[trigger] report_has(a, p) == report_has(b, p) by {
        if report_has(a, p) {
            let k = choose|k: int| 0 <= k < a.len() && a[k].path == p;
            assert(path_in_sources(head, idx, w, p));
            assert(classification_of(store, head, idx, w, p) is Some);
            let k2 = choose|k2: int| 0 <= k2 < b.len() && b[k2].path == p;
            assert(report_has(b, p));
        }
        if report_has(b, p) {
            let k = choose|k: int| 0 <= k < b.len() && b[k].path == p;
            assert(path_in_sources(head, idx, w, p));
            assert(classification_of(store, head, idx, w, p) is Some);
            let k2 = choose|k2: int| 0 <= k2 < a.len() && a[k2].path == p;
            assert(report_has(a, p));
        }
    }
    lemma_report_unique(store, head, idx, w, a, b);
}

/// Every reported path comes from one of the three sources, and no
/// path is reported twice.
pub proof fn lemma_status_paths(
    store: Seq<ObjectV>,
    head: Seq<TreeEntryV>,
    idx: Seq<IndexEntryV>,
    w: Seq<WorkFileV>,
    r: Seq<StatusEntryV>,
)
    requires
        status_post(store, head, idx, w, r),
    ensures
        forall|k: int| 0 <= k < r.len() ==> path_in_sources(head, idx, w, (#[trigger] r[k]).path),
        forall|i: int, j: int| 0 <= i < j < r.len() ==> r[i].path != r[j].path,
{
    assert forall|i: int, j: int| 0 <= i < j < r.len() implies r[i].path != r[j].path by {
        assert(lex_lt(r[i].path, r[j].path));
    }
}

/// The identifier HEAD's tree holds for `p`, mirroring `committed_of`.
fn tree_child_of(head: &Vec<TreeEntry>, p: &Vec<u8>) -> (r: Option<ObjectId>)
    ensures
        r == committed_of(tree_model(head@), p@),
{
    let ghost t = tree_model(head@);
    let n = head.len();
    assert(n == t.len());
    let mut i: usize = 0;
    while i < n
        invariant
            t == tree_model(head@),
            n == head.len(),
            n == t.len(),
            i <= n,
            forall|k: int| 0 <= k < i ==> (#[trigger] t[k]).name != p@,
        decreases n - i,
    {
        assert(t[i as int] == head@[i as int]@);
        if bytes_eq(&head[i].name, p) {
            proof {
                lemma_tree_find_first(t, p@, i as int);
            }
            return Some(head[i].child);
        }
        i += 1;
    }
    proof {
        lemma_tree_find(t, p@);
        if tree_find(t, p@) is Some {
            assert(t[tree_find(t, p@).unwrap()].name == p@);
        }
    }
    None
}

/// The working identifier for `p`, mirroring `working_of`.
fn working_id_of(store: &Store, work: &Vec<WorkFile>, p: &Vec<u8>) -> (r: Option<ObjectId>)
    ensures
        r == working_of(store@, work_model(work@), p@),
{
    let ghost w = work_model(work@);
    let n = work.len();
    assert(n == w.len());
    let mut i: usize = 0;
    while i < n
        invariant
            w == work_model(work@),
            n == work.len(),
            n == w.len(),
            i <= n,
            forall|k: int| 0 <= k < i ==> (#[trigger] w[k]).path != p@,
        decreases n - i,
    {
        assert(w[i as int] == work@[i as int]@);
        if bytes_eq(&work[i].path, p) {
            proof {
                lemma_work_find_first(w, p@, i as int);
            }
            let r = match store.find_blob(&work[i].content) {
                Some(id) => Some(id),
                None => Some(ObjectId { raw: store.count() as u64 }),
            };
            return r;
        }
        i += 1;
    }
    proof {
        lemma_work_find(w, p@);
        if work_find(w, p@) is Some {
            assert(w[work_find(w, p@).unwrap()].path == p@);
        }
    }
    None
}

/// `q` is one of the collected paths.
pub open spec fn path_in(s: Seq<Seq<u8>>, q: Seq<u8>) -> bool {
    exists|i: int| 0 <= i < s.len() && s[i] == q
}

/// Collected paths stand in strictly increasing order.
pub open spec fn paths_sorted(s: Seq<Seq<u8>>) -> bool {
    forall|i: int, j: int| 0 <= i < j < s.len() ==> lex_lt(s[i], s[j])
}

/// Inserts `p` into a sorted path list unless it is already there.
fn insert_path(all: &mut Vec<Vec<u8>>, p: Vec<u8>)
    requires
        paths_sorted(paths_of(old(all)@)),
    ensures
        paths_sorted(paths_of(final(all)@)),
        forall|q: Seq<u8>| #[trigger] path_in(paths_of(final(all)@), q) == (path_in(
            paths_of(old(all)@),
            q,
        ) || q == p@),
{
    let ghost s0 = paths_of(all@);
    let ghost pv = p@;
    let n = all.len();
    assert(n == s0.len());
    let mut k: usize = 0;
    while k < n && bytes_lt(&all[k], &p)
        invariant
            *all == *old(all),
            paths_of(all@) == s0,
            n == all.len(),
            n == s0.len(),
            pv == p@,
            k <= n,
            forall|j: int| 0 <= j < k ==> lex_lt(#[trigger] s0[j], pv),
        decreases n - k,
    {
        assert(s0[k as int] == all@[k as int]@);
        k += 1;
    }
    proof {
        if k < n {
            assert(s0[k as int] == all@[k as int]@);
        }
    }
    if k < n && bytes_eq(&all[k], &p) {
        // Already collected.
        proof {
            assert(s0[k as int] == pv);
            assert(path_in(s0, pv));
        }
        return ;
    }
    proof {
        if k < n {
            assert(!lex_lt(s0[k as int], pv));
            assert(s0[k as int] != pv);
            lemma_lex_connected(s0[k as int], pv);
            assert(lex_lt(pv, s0[k as int]));
        }
    }
    all.insert(k, p);
    proof {
        let s1 = paths_of(all@);
        assert(s1 =~= s0.insert(k as int, pv));
        assert forall|i: int, j: int| 0 <= i < j < s1.len() implies lex_lt(s1[i], s1[j]) by {
            if j < k {
            } else if j == k {
                assert(s1[i] == s0[i]);
            } else {
                if i < k {
                    assert(s1[i] == s0[i]);
                    assert(s1[j] == s0[j - 1]);
                    if j - 1 == k {
                        lemma_lex_lt_trans(s0[i], pv, s0[k as int]);
                    }
                } else if i == k {
                    assert(s1[j] == s0[j - 1]);
                    if j - 1 > k {
                        lemma_lex_lt_trans(pv, s0[k as int], s0[j - 1]);
                    }
                } else {
                    assert(s1[i] == s0[i - 1]);
                    assert(s1[j] == s0[j - 1]);
                }
            }
        }
        assert forall|q: Seq<u8>| #[trigger] path_in(s1, q) == (path_in(s0, q) || q == pv) by {
            if path_in(s1, q) {
                let i = choose|i: int| 0 <= i < s1.len() && s1[i] == q;
                if i < k {
                    assert(s0[i] == q);
                    assert(path_in(s0, q));
                } else if i > k {
                    assert(s0[i - 1] == q);
                    assert(path_in(s0, q));
                }
            }
            if path_in(s0, q) {
                let i = choose|i: int| 0 <= i < s0.len() && s0[i] == q;
                if i < k {
                    assert(s1[i] == q);
                } else {
                    assert(s1[i + 1] == q);
                }
                assert(path_in(s1, q));
            }
            if q == pv {
                assert(s1[k as int] == q);
                assert(path_in(s1, q));
            }
        }
    }
}

/// Computes the status report from the store, HEAD's tree, the index
/// and the working-tree scan.
pub fn compute_status(
    store: &Store,
    head: &Vec<TreeEntry>,
    index: &Index,
    work: &Vec<WorkFile>,
) -> (r: Vec<StatusEntry>)
    ensures
        status_post(store@, tree_model(head@), index@, work_model(work@), report_model(r@)),
{
    let ghost headv = tree_model(head@);
    let ghost idxv = index@;
    let ghost workv = work_model(work@);

    // Collect the union of paths, sorted and without repetition.
    let mut all: Vec<Vec<u8>> = Vec::new();
    proof {
        assert(paths_of(all@) =~= Seq::<Seq<u8>>::empty());
    }
    let n_work = work.len();
    assert(n_work == workv.len());
    let mut i: usize = 0;
    while i < n_work
        invariant
            workv == work_model(work@),
            n_work == work.len(),
            n_work == workv.len(),
            i <= n_work,
            paths_sorted(paths_of(all@)),
            forall|q: Seq<u8>| #[trigger] path_in(paths_of(all@), q) == exists|m: int|
                0 <= m < i && workv[m].path == q,
        decreases n_work - i,
    {
        assert(workv[i as int] == work@[i as int]@);
        let p = clone_bytes(&work[i].path);
        insert_path(&mut all, p);
        proof {
            assert forall|q: Seq<u8>|
                #[trigger] path_in(paths_of(all@), q) == (exists|m: int|
                    0 <= m < i + 1 && workv[m].path == q) by {
                if path_in(paths_of(all@), q) {
                    if q == workv[i as int].path {
                        assert(0 <= i < i + 1 && workv[i as int].path == q);
                    } else {
                        let m = choose|m: int| 0 <= m < i && workv[m].path == q;
                        assert(0 <= m < i + 1 && workv[m].path == q);
                    }
                }
                if exists|m: int| 0 <= m < i + 1 && workv[m].path == q {
                    let m = choose|m: int| 0 <= m < i + 1 && workv[m].path == q;
                    if m < i {
                        assert(path_in(paths_of(all@), q));
                    } else {
                        assert(q == workv[i as int].path);
                        assert(path_in(paths_of(all@), q));
                    }
                }
            }
        }
        i += 1;
    }
    let n_idx = index.count();
    let mut j: usize = 0;
    while j < n_idx
        invariant
            idxv == index@,
            workv == work_model(work@),
            n_idx == idxv.len(),
            j <= n_idx,
            paths_sorted(paths_of(all@)),
            forall|q: Seq<u8>| #[trigger] path_in(paths_of(all@), q) == ((exists|m: int|
                0 <= m < workv.len() && workv[m].path == q) || (exists|m: int|
                0 <= m < j && idxv[m].path == q)),
        decreases n_idx - j,
    {
        let entries = index.entries();
        assert(idxv[j as int] == entries@[j as int]@);
        let p = clone_bytes(&entries[j].path);
        insert_path(&mut all, p);
        proof {
            assert forall|q: Seq<u8>|
                #[trigger] path_in(paths_of(all@), q) == ((exists|m: int|
                    0 <= m < workv.len() && workv[m].path == q) || (exists|m: int|
                    0 <= m < j + 1 && idxv[m].path == q)) by {
                if path_in(paths_of(all@), q) && q == idxv[j as int].path {
                    assert(0 <= j < j + 1 && idxv[j as int].path == q);
                }
                if exists|m: int| 0 <= m < j + 1 && idxv[m].path == q {
                    let m = choose|m: int| 0 <= m < j + 1 && idxv[m].path == q;
                    if m < j {
                        assert(path_in(paths_of(all@), q));
                    } else {
                        assert(q == idxv[j as int].path);
                        assert(path_in(paths_of(all@), q));
                    }
                }
            }
        }
        j += 1;
    }
    let n_head = head.len();
    assert(n_head == headv.len());
    let mut h: usize = 0;
    while h < n_head
        invariant
            headv == tree_model(head@),
            idxv == index@,
            workv == work_model(work@),
            n_head == head.len(),
            n_head == headv.len(),
            h <= n_head,
            paths_sorted(paths_of(all@)),
            forall|q: Seq<u8>| #[trigger] path_in(paths_of(all@), q) == ((exists|m: int|
                0 <= m < workv.len() && workv[m].path == q) || (exists|m: int|
                0 <= m < idxv.len() && idxv[m].path == q) || (exists|m: int|
                0 <= m < h && headv[m].name == q)),
        decreases n_head - h,
    {
        assert(headv[h as int] == head@[h as int]@);
        let p = clone_bytes(&head[h].name);
        insert_path(&mut all, p);
        proof {
            assert forall|q: Seq<u8>|
                #[trigger] path_in(paths_of(all@), q) == ((exists|m: int|
                    0 <= m < workv.len() && workv[m].path == q) || (exists|m: int|
                    0 <= m < idxv.len() && idxv[m].path == q) || (exists|m: int|
                    0 <= m < h + 1 && headv[m].name == q)) by {
                if path_in(paths_of(all@), q) && q == headv[h as int].name {
                    assert(0 <= h < h + 1 && headv[h as int].name == q);
                }
                if exists|m: int| 0 <= m < h + 1 && headv[m].name == q {
                    let m = choose|m: int| 0 <= m < h + 1 && headv[m].name == q;
                    if m < h {
                        assert(path_in(paths_of(all@), q));
                    } else {
                        assert(q == headv[h as int].name);
                        assert(path_in(paths_of(all@), q));
                    }
                }
            }
        }
        h += 1;
    }
    let ghost allv = paths_of(all@);
    proof {
        assert forall|q: Seq<u8>|
            #[trigger] path_in(allv, q) == path_in_sources(headv, idxv, workv, q) by {}
    }

    // Classify each collected path, keeping the non-clean ones.
    let mut out: Vec<StatusEntry> = Vec::new();
    proof {
        assert(report_model(out@) =~= Seq::<StatusEntryV>::empty());
    }
    let n_all = all.len();
    assert(n_all == allv.len());
    let mut t: usize = 0;
    while t < n_all
        invariant
            headv == tree_model(head@),
            idxv == index@,
            workv == work_model(work@),
            allv == paths_of(all@),
            n_all == all.len(),
            n_all == allv.len(),
            t <= n_all,
            paths_sorted(allv),
            forall|q: Seq<u8>| #[trigger] path_in(allv, q) == path_in_sources(
                headv,
                idxv,
                workv,
                q,
            ),
            forall|k: int| 0 <= k < report_model(out@).len() ==> exists|m: int|
                0 <= m < t && allv[m] == (#[trigger] report_model(out@)[k]).path,
            forall|k: int|
                0 <= k < report_model(out@).len() ==> Some(
                    (#[trigger] report_model(out@)[k]).class,
                ) == classification_of(store@, headv, idxv, workv, report_model(out@)[k].path),
            report_sorted(report_model(out@)),
            forall|m: int|
                0 <= m < t && (#[trigger] classification_of(
                    store@,
                    headv,
                    idxv,
                    workv,
                    allv[m],
                )) is Some ==> exists|k: int|
                    0 <= k < report_model(out@).len() && report_model(out@)[k].path == allv[m],
        decreases n_all - t,
    {
        let ghost before = report_model(out@);
        proof {
            assert forall|k: int| 0 <= k < before.len() implies lex_lt(
                (#[trigger] before[k]).path,
                allv[t as int],
            ) by {
                let m = choose|m: int| 0 <= m < t && allv[m] == before[k].path;
                assert(lex_lt(allv[m], allv[t as int]));
            }
        }
        assert(allv[t as int] == all@[t as int]@);
        let p = &all[t];
        let c = tree_child_of(head, p);
        let s = index.find(p);
        let w = working_id_of(store, work, p);
        match classify(c, s, w) {
            Some(class) => {
                let path = clone_bytes(p);
                out.push(StatusEntry { path, class });
                proof {
                    let after = report_model(out@);
                    assert(after =~= before.push(StatusEntryV { path: allv[t as int], class }));
                    assert forall|i2: int, j2: int| 0 <= i2 < j2 < after.len() implies lex_lt(
                        after[i2].path,
                        after[j2].path,
                    ) by {
                        if j2 < after.len() - 1 {
                            assert(after[i2] == before[i2]);
                            assert(after[j2] == before[j2]);
                        } else {
                            assert(after[i2] == before[i2]);
                            assert(after[j2].path == allv[t as int]);
                        }
                    }
                }
            },
            None => {},
        }
        proof {
            let cur = report_model(out@);
            assert forall|m: int|
                0 <= m < t + 1 && (#[trigger] classification_of(
                    store@,
                    headv,
                    idxv,
                    workv,
                    allv[m],
                )) is Some implies exists|k: int|
                    0 <= k < cur.len() && cur[k].path == allv[m] by {
                if m < t {
                    let k = choose|k: int| 0 <= k < before.len() && before[k].path == allv[m];
                    assert(cur[k].path == allv[m]);
                } else {
                    assert(cur[cur.len() - 1].path == allv[t as int]);
                }
            }
        }
        t += 1;
    }
    proof {
        let rv = report_model(out@);
        assert forall|p: Seq<u8>|
            path_in_sources(headv, idxv, workv, p) && (#[trigger] classification_of(
                store@,
                headv,
                idxv,
                workv,
                p,
            )) is Some implies exists|k: int| 0 <= k < rv.len() && rv[k].path == p by {
            assert(path_in(allv, p));
            let m = choose|m: int| 0 <= m < allv.len() && allv[m] == p;
            assert(classification_of(store@, headv, idxv, workv, allv[m]) is Some);
        }
        assert forall|k: int| 0 <= k < rv.len() implies path_in_sources(
            headv,
            idxv,
            workv,
            (#[trigger] rv[k]).path,
        ) && Some(rv[k].class) == classification_of(store@, headv, idxv, workv, rv[k].path) by {
            let m = choose|m: int| 0 <= m < n_all && allv[m] == rv[k].path;
            assert(path_in(allv, rv[k].path));
        }
    }
    out
}

} // verus!
