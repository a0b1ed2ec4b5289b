//! The commit-graph walk behind the log: a priority-ordered traversal
//! from a start commit, always expanding the frontier commit with the
//! most recent commit time (identifier order breaking ties), truncated
//! at a caller-chosen limit. Parent links always point at earlier store
//! places, so the graph is acyclic and the walk visits no commit twice.

use vstd::prelude::*;
use crate::errors::GitError;
use crate::objects::{Object, ObjectId, ObjectV, CommitV};
use crate::store::Store;

verus! {

/// `id` names a stored commit.
pub open spec fn is_commit(s: Seq<ObjectV>, id: ObjectId) -> bool {
    id.raw < s.len() && s[id.raw as int] is Commit
}

/// The commit `id` names.
pub open spec fn commit_at(s: Seq<ObjectV>, id: ObjectId) -> CommitV
    recommends
        is_commit(s, id),
{
    s[id.raw as int]->Commit_0
}

/// The parents of the commit `id` names.
pub open spec fn parents_of(s: Seq<ObjectV>, id: ObjectId) -> Seq<ObjectId> {
    if is_commit(s, id) {
        commit_at(s, id).parents
    } else {
        Seq::empty()
    }
}

/// The commit time `id` sorts by.
pub open spec fn commit_time(s: Seq<ObjectV>, id: ObjectId) -> u64 {
    if is_commit(s, id) {
        commit_at(s, id).time
    } else {
        0
    }
}

/// Every commit's tree is a stored tree, and its parents are stored
/// commits standing strictly earlier in the store — so no commit is
/// its own ancestor.
pub open spec fn commits_closed(s: Seq<ObjectV>) -> bool {
    forall|i: int|
        0 <= i < s.len() && (#[trigger] s[i]) is Commit ==> {
            let c = s[i]->Commit_0;
            &&& c.tree.raw < s.len() && s[c.tree.raw as int] is Tree
            &&& forall|k: int|
                0 <= k < c.parents.len() ==> (#[trigger] c.parents[k]).raw < i
                    && s[c.parents[k].raw as int] is Commit
        }
}

/// `a` walks before `b`: later commit time, identifier breaking ties.
pub open spec fn key_gt(s: Seq<ObjectV>, a: ObjectId, b: ObjectId) -> bool {
    commit_time(s, a) > commit_time(s, b) || (commit_time(s, a) == commit_time(s, b) && a.raw
        > b.raw)
}

/// The place of the walk-first identifier among the first `n` frontier
/// entries.
pub open spec fn best_upto(s: Seq<ObjectV>, f: Seq<ObjectId>, n: int) -> int
    decreases n,
{
    if n <= 1 {
        0
    } else {
        let p = best_upto(s, f, n - 1);
        if key_gt(s, f[n - 1], f[p]) {
            n - 1
        } else {
            p
        }
    }
}

pub proof fn lemma_best_upto(s: Seq<ObjectV>, f: Seq<ObjectId>, n: int)
    requires
        1 <= n,
    ensures
        0 <= best_upto(s, f, n) < n,
    decreases n,
{
    if n > 1 {
        lemma_best_upto(s, f, n - 1);
    }
}

/// The parents not yet seen, in parent order, each entering the seen
/// set as it is taken.
pub open spec fn fresh_parents(ps: Seq<ObjectId>, vis: Seq<ObjectId>) -> Seq<ObjectId>
    decreases ps.len(),
{
    if ps.len() == 0 {
        Seq::empty()
    } else if vis.contains(ps[0]) {
        fresh_parents(ps.skip(1), vis)
    } else {
        seq![ps[0]] + fresh_parents(ps.skip(1), vis.push(ps[0]))
    }
}

/// The walk itself: pop the frontier's walk-first commit, emit it, and
/// queue its unseen parents, until the limit is reached or the
/// frontier is exhausted.
pub open spec fn walk_spec(
    s: Seq<ObjectV>,
    f: Seq<ObjectId>,
    vis: Seq<ObjectId>,
    limit: nat,
) -> Seq<ObjectId>
    decreases limit,
{
    if limit == 0 || f.len() == 0 {
        Seq::empty()
    } else {
        let b = best_upto(s, f, f.len() as int);
        let id = f[b];
        let fresh = fresh_parents(parents_of(s, id), vis);
        seq![id] + walk_spec(s, f.remove(b) + fresh, vis + fresh, (limit - 1) as nat)
    }
}

/// Decides membership of an identifier in a seen list.
fn contains_id(v: &Vec<ObjectId>, id: ObjectId) -> (r: bool)
    ensures
        r == v@.contains(id),
{
    let n = v.len();
    let mut i: usize = 0;
    while i < n
        invariant
            n == v.len(),
            i <= n,
            forall|k: int| 0 <= k < i ==> v@[k] != id,
        decreases n - i,
    {
        if v[i] == id {
            assert(v@[i as int] == id);
            return true;
        }
        i += 1;
    }
    assert(!v@.contains(id));
    false
}

/// The commit time of a stored commit.
fn commit_time_of(store: &Store, id: ObjectId) -> (r: u64)
    requires
        is_commit(store@, id),
    ensures
        r == commit_time(store@, id),
{
    match store.get(id) {
        Ok(o) => match o {
            Object::Commit(c) => c.time,
            _ => unreached(),
        },
        Err(_) => unreached(),
    }
}

/// Walks the commit graph from `start`, most recent first, emitting at
/// most `limit` commits. Fails exactly when `start` names no stored
/// commit; a well-formed caller can therefore rely on success.
pub fn log_walk(store: &Store, start: ObjectId, limit: usize) -> (r: Result<
    Vec<ObjectId>,
    GitError,
>)
    requires
        commits_closed(store@),
    ensures
        match r {
            Ok(v) => is_commit(store@, start) && v@ == walk_spec(
                store@,
                seq![start],
                seq![start],
                limit as nat,
            ) && forall|k: int| 0 <= k < v@.len() ==> is_commit(store@, #[trigger] v@[k]),
            Err(e) => !is_commit(store@, start) && e == GitError::CommitNotFound,
        },
{
    let ghost sv = store@;
    let ok = match store.get(start) {
        Ok(o) => match o {
            Object::Commit(_) => true,
            _ => false,
        },
        Err(_) => false,
    };
    if !ok {
        return Err(GitError::CommitNotFound);
    }
    let mut frontier: Vec<ObjectId> = Vec::new();
    frontier.push(start);
    let mut visited: Vec<ObjectId> = Vec::new();
    visited.push(start);
    let mut out: Vec<ObjectId> = Vec::new();
    proof {
        assert(frontier@ =~= seq![start]);
        assert(visited@ =~= seq![start]);
        assert(out@ + walk_spec(sv, seq![start], seq![start], limit as nat) =~= walk_spec(
            sv,
            seq![start],
            seq![start],
            limit as nat,
        ));
    }
    while out.len() < limit && frontier.len() > 0
        invariant
            sv == store@,
            commits_closed(sv),
            out@.len() <= limit,
            forall|k: int| 0 <= k < frontier@.len() ==> is_commit(sv, #[trigger] frontier@[k]),
            forall|k: int| 0 <= k < out@.len() ==> is_commit(sv, #[trigger] out@[k]),
            out@ + walk_spec(sv, frontier@, visited@, (limit - out@.len()) as nat) == walk_spec(
                sv,
                seq![start],
                seq![start],
                limit as nat,
            ),
        decreases limit - out.len(),
    {
        let ghost f0 = frontier@;
        let ghost vis0 = visited@;
        let ghost out0 = out@;
        let ghost rem = (limit - out@.len()) as nat;
        // Pick the frontier entry that walks first.
        let n = frontier.len();
        let mut b: usize = 0;
        let mut bt = commit_time_of(store, frontier[0]);
        let mut j: usize = 1;
        while j < n
            invariant
                sv == store@,
                commits_closed(sv),
                frontier@ == f0,
                n == frontier.len(),
                forall|k: int| 0 <= k < f0.len() ==> is_commit(sv, #[trigger] f0[k]),
                1 <= j <= n,
                b < j,
                b == best_upto(sv, f0, j as int),
                bt == commit_time(sv, f0[b as int]),
            decreases n - j,
        {
            let tj = commit_time_of(store, frontier[j]);
            let better = tj > bt || (tj == bt && frontier[j].raw > frontier[b].raw);
            if better {
                b = j;
                bt = tj;
            }
            j += 1;
        }
        proof {
            lemma_best_upto(sv, f0, f0.len() as int);
        }
        let id = frontier[b];
        out.push(id);
        frontier.remove(b);
        let ghost f1 = f0.remove(b as int);
        let parents: &Vec<ObjectId> = match store.get(id) {
            Ok(o) => match o {
                Object::Commit(c) => &c.parents,
                _ => unreached(),
            },
            Err(_) => unreached(),
        };
        let ghost ps = parents@;
        proof {
            assert(ps == parents_of(sv, id));
            assert forall|k: int| 0 <= k < ps.len() implies is_commit(sv, #[trigger] ps[k]) by {
                assert(sv[id.raw as int] is Commit);
            }
            assert(frontier@.skip(f1.len() as int) =~= Seq::<ObjectId>::empty());
            assert(frontier@.take(f1.len() as int) =~= f1);
            assert(visited@ =~= vis0 + frontier@.skip(f1.len() as int));
            assert(ps.skip(0) =~= ps);
            assert(fresh_parents(ps, vis0) =~= frontier@.skip(f1.len() as int) + fresh_parents(
                ps.skip(0),
                visited@,
            ));
        }
        let np = parents.len();
        let mut m: usize = 0;
        while m < np
            invariant
                sv == store@,
                commits_closed(sv),
                np == parents.len(),
                np == ps.len(),
                ps == parents@,
                m <= np,
                forall|k: int| 0 <= k < ps.len() ==> is_commit(sv, #[trigger] ps[k]),
                forall|k: int| 0 <= k < frontier@.len() ==> is_commit(
                    sv,
                    #[trigger] frontier@[k],
                ),
                f1.len() <= frontier@.len(),
                frontier@.take(f1.len() as int) == f1,
                visited@ == vis0 + frontier@.skip(f1.len() as int),
                fresh_parents(ps, vis0) == frontier@.skip(f1.len() as int) + fresh_parents(
                    ps.skip(m as int),
                    visited@,
                ),
            decreases np - m,
        {
            let ghost fr_old = frontier@;
            let ghost vis_old = visited@;
            let p = parents[m];
            proof {
                assert(ps.skip(m as int)[0] == ps[m as int]);
                assert(ps.skip(m as int).skip(1) =~= ps.skip(m + 1));
            }
            if !contains_id(&visited, p) {
                frontier.push(p);
                visited.push(p);
                proof {
                    assert(fresh_parents(ps.skip(m as int), vis_old) == seq![p] + fresh_parents(
                        ps.skip(m + 1),
                        vis_old.push(p),
                    ));
                    assert(visited@ =~= vis_old.push(p));
                    assert(frontier@.take(f1.len() as int) =~= f1);
                    assert(frontier@.skip(f1.len() as int) =~= fr_old.skip(f1.len() as int).push(
                        p,
                    ));
                    assert(visited@ =~= vis0 + frontier@.skip(f1.len() as int));
                    assert(fr_old.skip(f1.len() as int) + (seq![p] + fresh_parents(
                        ps.skip(m + 1),
                        visited@,
                    )) =~= frontier@.skip(f1.len() as int) + fresh_parents(
                        ps.skip(m + 1),
                        visited@,
                    ));
                }
            } else {
                proof {
                    assert(fresh_parents(ps.skip(m as int), visited@) == fresh_parents(
                        ps.skip(m + 1),
                        visited@,
                    ));
                }
            }
            m += 1;
        }
        proof {
            assert(ps.skip(np as int) =~= Seq::<ObjectId>::empty());
            assert(fresh_parents(Seq::<ObjectId>::empty(), visited@) =~= Seq::<
                ObjectId,
            >::empty());
            let fresh = fresh_parents(ps, vis0);
            assert(frontier@.skip(f1.len() as int) + Seq::<ObjectId>::empty() =~= frontier@.skip(
                f1.len() as int,
            ));
            assert(fresh == frontier@.skip(f1.len() as int));
            assert(frontier@ =~= f1 + fresh);
            assert(visited@ == vis0 + fresh);
            // One unfolding of the walk.
            assert(rem > 0 && f0.len() > 0);
            assert(best_upto(sv, f0, f0.len() as int) == b as int);
            assert(walk_spec(sv, f0, vis0, rem) == seq![f0[b as int]] + walk_spec(
                sv,
                f0.remove(b as int) + fresh,
                vis0 + fresh,
                (rem - 1) as nat,
            ));
            assert(out@ =~= out0.push(id));
            assert(out0.push(id) + walk_spec(sv, frontier@, visited@, (limit
                - out@.len()) as nat) =~= out0 + (seq![id] + walk_spec(
                sv,
                f1 + fresh,
                vis0 + fresh,
                (rem - 1) as nat,
            )));
        }
    }
    proof {
        assert(walk_spec(sv, frontier@, visited@, (limit - out@.len()) as nat)
            == Seq::<ObjectId>::empty());
        assert(out@ + Seq::<ObjectId>::empty() =~= out@);
    }
    Ok(out)
}

} // verus!
