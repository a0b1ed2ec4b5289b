//! The content-addressable object store: immutable, append-only and
//! deduplicating. Two objects receive the same identifier exactly when
//! their content is equal, so identifier comparison everywhere else in
//! the crate stands for content comparison.

use vstd::prelude::*;
use crate::errors::GitError;
use crate::lex::bytes_eq;
use crate::objects::{Object, ObjectId, ObjectV};

verus! {

/// No two stored objects have equal content.
pub open spec fn dedup(s: Seq<ObjectV>) -> bool {
    forall|i: int, j: int| 0 <= i < j < s.len() ==> s[i] != s[j]
}

/// Some stored object has content `v`.
pub open spec fn store_has(s: Seq<ObjectV>, v: ObjectV) -> bool {
    exists|i: int| 0 <= i < s.len() && s[i] == v
}

/// The first index holding `v`, if any.
pub open spec fn find_obj(s: Seq<ObjectV>, v: ObjectV) -> Option<int>
    decreases s.len(),
{
    if s.len() == 0 {
        None
    } else if s[0] == v {
        Some(0int)
    } else {
        match find_obj(s.skip(1), v) {
            Some(i) => Some(i + 1),
            None => None,
        }
    }
}

/// The store after an insertion of content `v`: unchanged when `v` is
/// already present, extended by one object otherwise.
pub open spec fn put_store_spec(s: Seq<ObjectV>, v: ObjectV) -> Seq<ObjectV> {
    if store_has(s, v) {
        s
    } else {
        s.push(v)
    }
}

/// The identifier an insertion of content `v` returns.
pub open spec fn put_id_spec(s: Seq<ObjectV>, v: ObjectV) -> int {
    match find_obj(s, v) {
        Some(i) => i,
        None => s.len() as int,
    }
}

/// What `find_obj` returns is the first occurrence, and absence of a
/// result means absence from the store.
pub proof fn lemma_find_obj(s: Seq<ObjectV>, v: ObjectV)
    ensures
        match find_obj(s, v) {
            Some(i) => 0 <= i < s.len() && s[i] == v && (forall|k: int|
                0 <= k < i ==> s[k] != v),
            None => forall|k: int| 0 <= k < s.len() ==> s[k] != v,
        },
    decreases s.len(),
{
    if s.len() != 0 && s[0] != v {
        lemma_find_obj(s.skip(1), v);
        match find_obj(s.skip(1), v) {
            Some(i) => {
                assert(s.skip(1)[i] == v);
                assert forall|k: int| 0 <= k < i + 1 implies s[k] != v by {
                    if k >= 1 {
                        assert(s.skip(1)[k - 1] == s[k]);
                    }
                }
            },
            None => {
                assert forall|k: int| 0 <= k < s.len() implies s[k] != v by {
                    if k >= 1 {
                        assert(s.skip(1)[k - 1] == s[k]);
                    }
                }
            },
        }
    }
}

/// A first occurrence determines `find_obj`.
pub proof fn lemma_find_obj_first(s: Seq<ObjectV>, v: ObjectV, i: int)
    requires
        0 <= i < s.len(),
        s[i] == v,
        forall|k: int| 0 <= k < i ==> s[k] != v,
    ensures
        find_obj(s, v) == Some(i),
    decreases s.len(),
{
    if s[0] != v {
        assert(s.skip(1)[i - 1] == v);
        assert(forall|k: int| 0 <= k < i - 1 ==> s.skip(1)[k] == s[k + 1]);
        lemma_find_obj_first(s.skip(1), v, i - 1);
    }
}

/// The basic shape of an insertion: the prior objects keep their places
/// and identifiers, the returned identifier names `v`, and the dedup
/// invariant survives.
pub proof fn lemma_put_shape(s: Seq<ObjectV>, v: ObjectV)
    ensures
        0 <= put_id_spec(s, v) < put_store_spec(s, v).len(),
        put_store_spec(s, v)[put_id_spec(s, v)] == v,
        put_store_spec(s, v).len() == s.len() || put_store_spec(s, v).len() == s.len() + 1,
        forall|k: int| 0 <= k < s.len() ==> put_store_spec(s, v)[k] == s[k],
        store_has(s, v) ==> put_store_spec(s, v) == s,
        dedup(s) ==> dedup(put_store_spec(s, v)),
{
    lemma_find_obj(s, v);
    match find_obj(s, v) {
        Some(i) => {
            assert(store_has(s, v));
        },
        None => {
            assert(!store_has(s, v));
            if dedup(s) {
                assert forall|i: int, j: int|
                    0 <= i < j < s.push(v).len() implies s.push(v)[i] != s.push(v)[j] by {
                    if j < s.len() {
                    } else {
                        assert(s.push(v)[i] == s[i]);
                        assert(s.push(v)[j] == v);
                    }
                }
            }
        },
    }
}

/// Round trip: after an insertion of content `v`, looking the returned
/// identifier up yields `v` again, whatever the store held before.
pub proof fn lemma_put_get_round_trip(s: Seq<ObjectV>, v: ObjectV)
    ensures
        0 <= put_id_spec(s, v) < put_store_spec(s, v).len(),
        put_store_spec(s, v)[put_id_spec(s, v)] == v,
{
    lemma_put_shape(s, v);
}

/// Content-addressing is deterministic: inserting equal content a second
/// time changes nothing and returns the identifier of the first insertion.
pub proof fn lemma_put_idempotent(s: Seq<ObjectV>, v: ObjectV)
    ensures
        put_store_spec(put_store_spec(s, v), v) == put_store_spec(s, v),
        put_id_spec(put_store_spec(s, v), v) == put_id_spec(s, v),
{
    lemma_find_obj(s, v);
    lemma_put_shape(s, v);
    let s1 = put_store_spec(s, v);
    let i1 = put_id_spec(s, v);
    assert(s1[i1] == v);
    assert(store_has(s1, v));
    match find_obj(s, v) {
        Some(i) => {
            lemma_find_obj_first(s1, v, i);
        },
        None => {
            assert(forall|k: int| 0 <= k < s.len() ==> s1[k] == s[k] && s[k] != v);
            lemma_find_obj_first(s1, v, s.len() as int);
        },
    }
}

/// Distinct content receives distinct identifiers: inserting `v1` and
/// then `v2 != v1` yields two different identifiers, without exception.
pub proof fn lemma_put_distinct(s: Seq<ObjectV>, v1: ObjectV, v2: ObjectV)
    requires
        v1 != v2,
    ensures
        put_id_spec(put_store_spec(s, v1), v2) != put_id_spec(s, v1),
{
    lemma_put_shape(s, v1);
    let s1 = put_store_spec(s, v1);
    let i1 = put_id_spec(s, v1);
    lemma_find_obj(s1, v2);
    match find_obj(s1, v2) {
        Some(i2) => {
            assert(s1[i2] == v2);
            assert(s1[i1] == v1);
        },
        None => {
            assert(put_id_spec(s1, v2) == s1.len());
        },
    }
}

/// The object store. The `dedup` invariant over its model is established
/// by `new` and preserved by `put`.
pub struct Store {
    pub objects: Vec<Object>,
}

impl View for Store {
    type V = Seq<ObjectV>;

    open spec fn view(&self) -> Seq<ObjectV> {
        self.objects@.map_values(|o: Object| o@)
    }
}

impl Store {
    pub open spec fn wf(self) -> bool {
        dedup(self@)
    }

    /// A fresh, empty store.
    pub fn new() -> (r: Store)
        ensures
            r.wf(),
            r@ == Seq::<ObjectV>::empty(),
    {
        let r = Store { objects: Vec::new() };
        proof {
            assert(r@ =~= Seq::<ObjectV>::empty());
        }
        r
    }

    /// The number of stored objects.
    pub fn count(&self) -> (r: usize)
        ensures
            r == self@.len(),
    {
        self.objects.len()
    }

    /// Inserts content: a no-op returning the existing identifier when an
    /// object of equal content is already stored, an append otherwise.
    pub fn put(&mut self, o: Object) -> (r: ObjectId)
        requires
            old(self).wf(),
        ensures
            final(self).wf(),
            final(self)@ == put_store_spec(old(self)@, o@),
            r.raw == put_id_spec(old(self)@, o@),
            r.raw < final(self)@.len(),
            final(self)@[r.raw as int] == o@,
    {
        let ghost s0 = self@;
        let n = self.objects.len();
        proof {
            assert(s0.len() == self.objects@.len());
        }
        let mut i: usize = 0;
        while i < n
            invariant
                *self == *old(self),
                self@ == s0,
                dedup(s0),
                n == self.objects.len(),
                n == s0.len(),
                i <= n,
                forall|k: int| 0 <= k < i ==> self@[k] != o@,
            decreases n - i,
        {
            if object_eq_at(self, i, &o) {
                proof {
                    assert(s0[i as int] == o@);
                    lemma_find_obj_first(s0, o@, i as int);
                    assert(store_has(s0, o@));
                    lemma_put_shape(s0, o@);
                }
                return ObjectId { raw: i as u64 };
            }
            i += 1;
        }
        proof {
            assert(!store_has(s0, o@));
            lemma_find_obj(s0, o@);
            if find_obj(s0, o@) is Some {
                assert(s0[find_obj(s0, o@).unwrap()] == o@);
            }
            lemma_put_shape(s0, o@);
        }
        let ghost ov = o@;
        self.objects.push(o);
        proof {
            assert(self@ =~= s0.push(ov));
        }
        ObjectId { raw: n as u64 }
    }

    /// Looks an identifier up; fails exactly when no object of that
    /// identifier has been stored.
    pub fn get(&self, id: ObjectId) -> (r: Result<&Object, GitError>)
        ensures
            match r {
                Ok(o) => id.raw < self@.len() && o@ == self@[id.raw as int],
                Err(e) => id.raw >= self@.len() && e == GitError::ObjectNotFound,
            },
    {
        let n = self.objects.len();
        if id.raw < n as u64 {
            Ok(&self.objects[id.raw as usize])
        } else {
            Err(GitError::ObjectNotFound)
        }
    }

    /// Whether an identifier names a stored object.
    pub fn contains(&self, id: ObjectId) -> (r: bool)
        ensures
            r == (id.raw < self@.len()),
    {
        id.raw < self.objects.len() as u64
    }

    /// The identifier of the blob holding `content`, if that blob is
    /// stored; mirrors `find_obj` on the model.
    pub fn find_blob(&self, content: &Vec<u8>) -> (r: Option<ObjectId>)
        ensures
            match r {
                Some(id) => find_obj(self@, ObjectV::Blob(content@)) == Some(id.raw as int),
                None => find_obj(self@, ObjectV::Blob(content@)) is None,
            },
    {
        let ghost v = ObjectV::Blob(content@);
        let n = self.objects.len();
        let mut i: usize = 0;
        while i < n
            invariant
                n == self.objects.len(),
                i <= n,
                v == ObjectV::Blob(content@),
                forall|k: int| 0 <= k < i ==> self@[k] != v,
            decreases n - i,
        {
            let hit = match &self.objects[i] {
                Object::Blob(b) => bytes_eq(b, content),
                _ => false,
            };
            if hit {
                proof {
                    lemma_find_obj_first(self@, v, i as int);
                }
                return Some(ObjectId { raw: i as u64 });
            }
            assert(self@[i as int] != v);
            i += 1;
        }
        proof {
            lemma_find_obj(self@, v);
            if find_obj(self@, v) is Some {
                assert(self@[find_obj(self@, v).unwrap()] == v);
            }
        }
        None
    }
}

/// Decides whether the object at place `i` has content equal to `o`.
fn object_eq_at(s: &Store, i: usize, o: &Object) -> (r: bool)
    requires
        i < s@.len(),
    ensures
        r == (s@[i as int] == o@),
{
    crate::objects::object_eq(&s.objects[i], o)
}

} // verus!
