//! The ref store: named refs bound to commit identifiers (branches) or
//! to other refs (symbolic refs, HEAD among them). Refs are kept
//! strictly sorted by name, so the branch listing is deterministic.
//! Resolution follows symbolic refs transitively and detects loops.

use vstd::prelude::*;
use crate::lex::{lex_lt, bytes_eq, bytes_lt, clone_bytes};
use crate::lex::{lemma_lex_lt_trans, lemma_lex_connected};
use crate::objects::ObjectId;

verus! {

/// What a ref is bound to.
pub enum RefTarget {
    /// A commit, by identifier.
    Direct(ObjectId),
    /// Another ref, by name.
    Symbolic(Vec<u8>),
}

/// Mathematical model of a `RefTarget`.
#[verifier::ext_equal]
pub ghost enum RefTargetV {
    Direct(ObjectId),
    Symbolic(Seq<u8>),
}

impl View for RefTarget {
    type V = RefTargetV;

    open spec fn view(&self) -> RefTargetV {
        match self {
            RefTarget::Direct(id) => RefTargetV::Direct(*id),
            RefTarget::Symbolic(n) => RefTargetV::Symbolic(n@),
        }
    }
}

/// One named ref.
pub struct RefEntry {
    pub name: Vec<u8>,
    pub target: RefTarget,
}

/// Mathematical model of a `RefEntry`.
#[verifier::ext_equal]
pub ghost struct RefEntryV {
    pub name: Seq<u8>,
    pub target: RefTargetV,
}

impl View for RefEntry {
    type V = RefEntryV;

    open spec fn view(&self) -> RefEntryV {
        RefEntryV { name: self.name@, target: self.target@ }
    }
}

/// What a name resolves to, after all symbolic hops.
#[derive(Clone, Copy, PartialEq, Eq, Structural, Debug)]
pub enum Resolution {
    /// The chain ends at a commit.
    Commit(ObjectId),
    /// The chain reaches a name no ref carries.
    Missing,
    /// The chain does not end: some name repeats.
    Cycle,
}

/// Refs stand in strictly increasing name order; names are unique.
pub open spec fn refs_sorted(s: Seq<RefEntryV>) -> bool {
    forall|i: int, j: int| 0 <= i < j < s.len() ==> lex_lt(s[i].name, s[j].name)
}

/// The place of the first ref named `n`, if any.
pub open spec fn ref_find(s: Seq<RefEntryV>, n: Seq<u8>) -> Option<int>
    decreases s.len(),
{
    if s.len() == 0 {
        None
    } else if s[0].name == n {
        Some(0int)
    } else {
        match ref_find(s.skip(1), n) {
            Some(i) => Some(i + 1),
            None => None,
        }
    }
}

/// The target bound to name `n`, if any.
pub open spec fn ref_target(s: Seq<RefEntryV>, n: Seq<u8>) -> Option<RefTargetV> {
    match ref_find(s, n) {
        Some(i) => Some(s[i].target),
        None => None,
    }
}

/// Transitive resolution with a budget of symbolic hops. A chain that
/// never revisits a name makes fewer hops than there are refs, so a
/// budget of one hop per ref is enough for every loop-free chain, and
/// running out of budget means some name was revisited: a cycle.
pub open spec fn resolve_spec(s: Seq<RefEntryV>, n: Seq<u8>, fuel: nat) -> Resolution
    decreases fuel,
{
    match ref_target(s, n) {
        None => Resolution::Missing,
        Some(RefTargetV::Direct(id)) => Resolution::Commit(id),
        Some(RefTargetV::Symbolic(next)) => if fuel == 0 {
            Resolution::Cycle
        } else {
            resolve_spec(s, next, (fuel - 1) as nat)
        },
    }
}

/// The full hop budget used by `RefStore::resolve`.
pub open spec fn full_fuel(s: Seq<RefEntryV>) -> nat {
    s.len() as nat
}

/// What `ref_find` returns is the first occurrence, and absence of a
/// result means no ref carries the name.
pub proof fn lemma_ref_find(s: Seq<RefEntryV>, n: Seq<u8>)
    ensures
        match ref_find(s, n) {
            Some(i) => 0 <= i < s.len() && s[i].name == n && (forall|k: int|
                0 <= k < i ==> s[k].name != n),
            None => forall|k: int| 0 <= k < s.len() ==> s[k].name != n,
        },
    decreases s.len(),
{
    if s.len() != 0 && s[0].name != n {
        lemma_ref_find(s.skip(1), n);
        match ref_find(s.skip(1), n) {
            Some(i) => {
                assert(s.skip(1)[i].name == n);
                assert forall|k: int| 0 <= k < i + 1 implies s[k].name != n by {
                    if k >= 1 {
                        assert(s.skip(1)[k - 1] == s[k]);
                    }
                }
            },
            None => {
                assert forall|k: int| 0 <= k < s.len() implies s[k].name != n by {
                    if k >= 1 {
                        assert(s.skip(1)[k - 1] == s[k]);
                    }
                }
            },
        }
    }
}

/// A first occurrence determines `ref_find`.
pub proof fn lemma_ref_find_first(s: Seq<RefEntryV>, n: Seq<u8>, i: int)
    requires
        0 <= i < s.len(),
        s[i].name == n,
        forall|k: int| 0 <= k < i ==> s[k].name != n,
    ensures
        ref_find(s, n) == Some(i),
    decreases s.len(),
{
    if s[0].name != n {
        assert(s.skip(1)[i - 1] == s[i]);
        assert(forall|k: int| 0 <= k < i - 1 ==> s.skip(1)[k] == s[k + 1]);
        lemma_ref_find_first(s.skip(1), n, i - 1);
    }
}

/// In a sorted ref store any occurrence is the occurrence.
pub proof fn lemma_ref_find_at(s: Seq<RefEntryV>, n: Seq<u8>, i: int)
    requires
        refs_sorted(s),
        0 <= i < s.len(),
        s[i].name == n,
    ensures
        ref_find(s, n) == Some(i),
{
    assert forall|k: int| 0 <= k < i implies s[k].name != n by {
        assert(lex_lt(s[k].name, s[i].name));
    }
    lemma_ref_find_first(s, n, i);
}

/// One branch of the listing: a name and the commit it points at.
pub struct BranchEntry {
    pub name: Vec<u8>,
    pub id: ObjectId,
}

/// Mathematical model of a `BranchEntry`.
#[verifier::ext_equal]
pub ghost struct BranchEntryV {
    pub name: Seq<u8>,
    pub id: ObjectId,
}

impl View for BranchEntry {
    type V = BranchEntryV;

    open spec fn view(&self) -> BranchEntryV {
        BranchEntryV { name: self.name@, id: self.id }
    }
}

/// The branch listing of a ref store: every directly bound ref, in the
/// store's own (sorted) name order.
pub open spec fn branches_spec(s: Seq<RefEntryV>) -> Seq<BranchEntryV>
    decreases s.len(),
{
    if s.len() == 0 {
        Seq::empty()
    } else {
        let rest = branches_spec(s.skip(1));
        match s[0].target {
            RefTargetV::Direct(id) => seq![BranchEntryV { name: s[0].name, id }] + rest,
            RefTargetV::Symbolic(_) => rest,
        }
    }
}

/// The ref store: the named refs, and the name HEAD points at.
pub struct RefStore {
    pub refs: Vec<RefEntry>,
    pub head: Vec<u8>,
}

/// Mathematical model of a `RefStore`.
#[verifier::ext_equal]
pub ghost struct RefStoreV {
    pub refs: Seq<RefEntryV>,
    pub head: Seq<u8>,
}

impl View for RefStore {
    type V = RefStoreV;

    open spec fn view(&self) -> RefStoreV {
        RefStoreV { refs: self.refs@.map_values(|e: RefEntry| e@), head: self.head@ }
    }
}

impl RefStore {
    pub open spec fn wf(self) -> bool {
        refs_sorted(self@.refs)
    }

    /// A fresh ref store: no refs, HEAD attached to `head` (the default
    /// branch name), which is unborn until the first commit.
    pub fn new(head: Vec<u8>) -> (r: RefStore)
        ensures
            r.wf(),
            r@.refs == Seq::<RefEntryV>::empty(),
            r@.head == head@,
    {
        let r = RefStore { refs: Vec::new(), head };
        proof {
            assert(r@.refs =~= Seq::<RefEntryV>::empty());
        }
        r
    }

    /// The name HEAD is attached to.
    pub fn head_name(&self) -> (r: &Vec<u8>)
        ensures
            r@ == self@.head,
    {
        &self.head
    }

    /// Attaches HEAD to `name`.
    pub fn set_head(&mut self, name: Vec<u8>)
        ensures
            final(self)@.head == name@,
            final(self)@.refs == old(self)@.refs,
            old(self).wf() ==> final(self).wf(),
    {
        self.head = name;
    }

    /// The place of the ref named `name`, mirroring `ref_find`.
    pub fn position_of(&self, name: &Vec<u8>) -> (r: Option<usize>)
        ensures
            match r {
                Some(k) => ref_find(self@.refs, name@) == Some(k as int),
                None => ref_find(self@.refs, name@) is None,
            },
    {
        let n = self.refs.len();
        assert(n == self@.refs.len());
        let mut i: usize = 0;
        while i < n
            invariant
                n == self.refs.len(),
                n == self@.refs.len(),
                i <= n,
                forall|k: int| 0 <= k < i ==> self@.refs[k].name != name@,
            decreases n - i,
        {
            if bytes_eq(&self.refs[i].name, name) {
                proof {
                    assert(self@.refs[i as int] == self.refs@[i as int]@);
                    lemma_ref_find_first(self@.refs, name@, i as int);
                }
                return Some(i);
            }
            assert(self@.refs[i as int] == self.refs@[i as int]@);
            i += 1;
        }
        proof {
            lemma_ref_find(self@.refs, name@);
            if ref_find(self@.refs, name@) is Some {
                assert(self@.refs[ref_find(self@.refs, name@).unwrap()].name == name@);
            }
        }
        None
    }

    /// Follows symbolic refs from `name` until a commit, a missing name,
    /// or — when the chain cannot end — a detected cycle.
    pub fn resolve(&self, name: &Vec<u8>) -> (r: Resolution)
        ensures
            r == resolve_spec(self@.refs, name@, full_fuel(self@.refs)),
    {
        let ghost s = self@.refs;
        let mut cur: &Vec<u8> = name;
        let mut fuel: usize = self.refs.len();
        assert(self@.refs.len() == self.refs@.len());
        loop
            invariant
                s == self@.refs,
                fuel <= full_fuel(s),
                resolve_spec(s, cur@, fuel as nat) == resolve_spec(s, name@, full_fuel(s)),
            decreases fuel,
        {
            match self.position_of(cur) {
                None => {
                    return Resolution::Missing;
                },
                Some(k) => {
                    proof {
                        lemma_ref_find(s, cur@);
                        assert(self@.refs[k as int] == self.refs@[k as int]@);
                    }
                    match &self.refs[k].target {
                        RefTarget::Direct(id) => {
                            assert(ref_target(s, cur@) == Some(RefTargetV::Direct(*id)));
                            return Resolution::Commit(*id);
                        },
                        RefTarget::Symbolic(next) => {
                            assert(ref_target(s, cur@) == Some(RefTargetV::Symbolic(next@)));
                            if fuel == 0 {
                                return Resolution::Cycle;
                            }
                            cur = next;
                            fuel = fuel - 1;
                        },
                    }
                },
            }
        }
    }

    /// What HEAD resolves to.
    pub fn head_resolution(&self) -> (r: Resolution)
        ensures
            r == resolve_spec(self@.refs, self@.head, full_fuel(self@.refs)),
    {
        let name = clone_bytes(&self.head);
        self.resolve(&name)
    }

    /// Binds `name` directly to commit `id`, creating the ref or
    /// overwriting its target. Every other ref is untouched.
    pub fn set_branch(&mut self, name: Vec<u8>, id: ObjectId)
        requires
            old(self).wf(),
        ensures
            final(self).wf(),
            final(self)@.head == old(self)@.head,
            ref_target(final(self)@.refs, name@) == Some(RefTargetV::Direct(id)),
            forall|q: Seq<u8>| q != name@ ==> ref_target(final(self)@.refs, q) == ref_target(
                old(self)@.refs,
                q,
            ),
    {
        let ghost s0 = self@.refs;
        let ghost nm = name@;
        let n = self.refs.len();
        assert(n == s0.len());
        let mut k: usize = 0;
        while k < n && bytes_lt(&self.refs[k].name, &name)
            invariant
                *self == *old(self),
                self@.refs == s0,
                n == self.refs.len(),
                n == s0.len(),
                nm == name@,
                k <= n,
                forall|j: int| 0 <= j < k ==> lex_lt(s0[j].name, nm),
            decreases n - k,
        {
            assert(self@.refs[k as int] == self.refs@[k as int]@);
            k += 1;
        }
        proof {
            if k < n {
                assert(self@.refs[k as int] == self.refs@[k as int]@);
            }
        }
        let entry = RefEntry { name, target: RefTarget::Direct(id) };
        let ghost e = entry@;
        assert(e == RefEntryV { name: nm, target: RefTargetV::Direct(id) });
        if k < n && bytes_eq(&self.refs[k].name, &entry.name) {
            // Overwrite in place: the name order is unchanged.
            self.refs.remove(k);
            self.refs.insert(k, entry);
            proof {
                assert(self@.refs =~= s0.update(k as int, e));
                let s1 = self@.refs;
                assert forall|i: int, j: int| 0 <= i < j < s1.len() implies lex_lt(
                    s1[i].name,
                    s1[j].name,
                ) by {
                    assert(s1[i].name == s0[i].name);
                    assert(s1[j].name == s0[j].name);
                }
                lemma_ref_find_at(s1, nm, k as int);
                assert forall|q: Seq<u8>| q != nm implies ref_target(s1, q) == ref_target(
                    s0,
                    q,
                ) by {
                    lemma_ref_find(s0, q);
                    match ref_find(s0, q) {
                        Some(i) => {
                            assert(i != k);
                            lemma_ref_find_at(s1, q, i);
                        },
                        None => {
                            lemma_ref_find(s1, q);
                            if ref_find(s1, q) is Some {
                                let i = ref_find(s1, q).unwrap();
                                assert(s1[i].name == q);
                                assert(i != k);
                                assert(s0[i].name == q);
                            }
                        },
                    }
                }
            }
        } else {
            proof {
                if k < n {
                    assert(!lex_lt(s0[k as int].name, nm));
                    assert(s0[k as int].name != nm);
                    lemma_lex_connected(s0[k as int].name, nm);
                    assert(lex_lt(nm, s0[k as int].name));
                }
            }
            self.refs.insert(k, entry);
            proof {
                let s1 = self@.refs;
                assert(s1 =~= s0.insert(k as int, e));
                assert forall|i: int, j: int| 0 <= i < j < s1.len() implies lex_lt(
                    s1[i].name,
                    s1[j].name,
                ) by {
                    if j < k {
                    } else if j == k {
                        assert(s1[i] == s0[i]);
                    } else {
                        if i < k {
                            assert(s1[i] == s0[i]);
                            assert(s1[j] == s0[j - 1]);
                            if j - 1 == k {
                                lemma_lex_lt_trans(s0[i].name, nm, s0[k as int].name);
                            }
                        } else if i == k {
                            assert(s1[j] == s0[j - 1]);
                            if j - 1 > k {
                                lemma_lex_lt_trans(nm, s0[k as int].name, s0[j - 1].name);
                            }
                        } else {
                            assert(s1[i] == s0[i - 1]);
                            assert(s1[j] == s0[j - 1]);
                        }
                    }
                }
                lemma_ref_find_at(s1, nm, k as int);
                assert forall|q: Seq<u8>| q != nm implies ref_target(s1, q) == ref_target(
                    s0,
                    q,
                ) by {
                    lemma_ref_find(s0, q);
                    match ref_find(s0, q) {
                        Some(i) => {
                            if i < k {
                                assert(s1[i] == s0[i]);
                                lemma_ref_find_at(s1, q, i);
                            } else {
                                assert(s1[i + 1] == s0[i]);
                                lemma_ref_find_at(s1, q, i + 1);
                            }
                        },
                        None => {
                            lemma_ref_find(s1, q);
                            if ref_find(s1, q) is Some {
                                let i = ref_find(s1, q).unwrap();
                                assert(s1[i].name == q);
                                assert(i != k);
                                if i < k {
                                    assert(s0[i].name == q);
                                } else {
                                    assert(s0[i - 1].name == q);
                                }
                            }
                        },
                    }
                }
            }
        }
    }

    /// The branch listing: every directly bound ref, in name order.
    pub fn branches(&self) -> (r: Vec<BranchEntry>)
        ensures
            r@.map_values(|b: BranchEntry| b@) == branches_spec(self@.refs),
    {
        let ghost s = self@.refs;
        let n = self.refs.len();
        assert(n == s.len());
        let mut out: Vec<BranchEntry> = Vec::new();
        proof {
            assert(s.skip(0) =~= s);
            assert(out@.map_values(|b: BranchEntry| b@) =~= Seq::<BranchEntryV>::empty());
        }
        let mut i: usize = 0;
        while i < n
            invariant
                s == self@.refs,
                n == self.refs.len(),
                n == s.len(),
                i <= n,
                branches_spec(s) == out@.map_values(|b: BranchEntry| b@) + branches_spec(
                    s.skip(i as int),
                ),
            decreases n - i,
        {
            let ghost before = out@.map_values(|b: BranchEntry| b@);
            proof {
                assert(self@.refs[i as int] == self.refs@[i as int]@);
                assert(s.skip(i as int)[0] == s[i as int]);
                assert(s.skip(i as int).skip(1) =~= s.skip(i + 1));
            }
            match &self.refs[i].target {
                RefTarget::Direct(id) => {
                    let name = clone_bytes(&self.refs[i].name);
                    let idc = *id;
                    assert(s[i as int].target == RefTargetV::Direct(idc));
                    let ghost bv = BranchEntryV { name: s[i as int].name, id: idc };
                    out.push(BranchEntry { name, id: idc });
                    proof {
                        assert(out@.map_values(|b: BranchEntry| b@) =~= before.push(bv));
                        assert(branches_spec(s.skip(i as int)) == seq![bv] + branches_spec(
                            s.skip(i + 1),
                        ));
                        assert(before.push(bv) + branches_spec(s.skip(i + 1)) =~= before + (
                        seq![bv] + branches_spec(s.skip(i + 1))));
                    }
                },
                RefTarget::Symbolic(_) => {
                    proof {
                        assert(s[i as int].target is Symbolic);
                        assert(branches_spec(s.skip(i as int)) == branches_spec(s.skip(i + 1)));
                    }
                },
            }
            i += 1;
        }
        proof {
            assert(s.skip(n as int) =~= Seq::<RefEntryV>::empty());
            assert(branches_spec(Seq::<RefEntryV>::empty()) =~= Seq::<BranchEntryV>::empty());
            assert(out@.map_values(|b: BranchEntry| b@) =~= branches_spec(s));
        }
        out
    }
}

} // verus!
