//! The peer registry: which identity is reachable through which connection.
//!
//! The registry is plain data; a node shares one instance between its
//! connection tasks behind a lock of its choosing. No operation here waits on
//! the network, so a caller never holds that lock across I/O: it takes a
//! `snapshot`, releases the lock, and sends over the copy.
use vstd::prelude::*;

verus! {

/// Whether an entry for `id` is in `s`.
pub open spec fn has_id<H>(s: Seq<(Seq<char>, H)>, id: Seq<char>) -> bool {
    exists|i: int| 0 <= i < s.len() && #[trigger] s[i].0 == id
}

/// Where the entry for `id` stands, if there is one.
pub open spec fn index_of<H>(s: Seq<(Seq<char>, H)>, id: Seq<char>) -> int
    recommends
        has_id(s, id),
{
    choose|i: int| 0 <= i < s.len() && #[trigger] s[i].0 == id
}

/// No identity has two entries.
pub open spec fn ids_unique<H>(s: Seq<(Seq<char>, H)>) -> bool {
    forall|i: int, j: int|
        0 <= i < s.len() && 0 <= j < s.len() && #[trigger] s[i].0 == #[trigger] s[j].0 ==> i == j
}

/// The entries after `insert(id, h)`: the entry for `id` takes `h` in its
/// place, or a new entry for it comes last.
pub open spec fn inserted<H>(s: Seq<(Seq<char>, H)>, id: Seq<char>, h: H) -> Seq<(Seq<char>, H)> {
    if has_id(s, id) {
        s.update(index_of(s, id), (id, h))
    } else {
        s.push((id, h))
    }
}

/// The entries after `remove(id)`.
pub open spec fn removed<H>(s: Seq<(Seq<char>, H)>, id: Seq<char>) -> Seq<(Seq<char>, H)> {
    if has_id(s, id) {
        s.remove(index_of(s, id))
    } else {
        s
    }
}

/// The handle stored for `id`.
pub open spec fn lookup<H>(s: Seq<(Seq<char>, H)>, id: Seq<char>) -> Option<H> {
    if has_id(s, id) {
        Some(s[index_of(s, id)].1)
    } else {
        None
    }
}

/// Identities mapped to connection handles, in order of first registration.
pub struct Registry<H> {
    entries: Vec<(String, H)>,
}

impl<H> View for Registry<H> {
    type V = Seq<(Seq<char>, H)>;

    closed spec fn view(&self) -> Seq<(Seq<char>, H)> {
        self.entries@.map_values(|e: (String, H)| (e.0@, e.1))
    }
}

impl<H> Registry<H> {
    pub open spec fn wf(&self) -> bool {
        ids_unique(self@)
    }

    /// An empty registry.
    pub fn new() -> (r: Registry<H>)
        ensures
            r.wf(),
            r@ == Seq::<(Seq<char>, H)>::empty(),
    {
        let r = Registry { entries: Vec::new() };
        assert(r@ =~= Seq::<(Seq<char>, H)>::empty());
        r
    }

    /// Where the entry for `id` stands.
    fn position(&self, id: &String) -> (r: Option<usize>)
        requires
            self.wf(),
        ensures
            match r {
                Some(i) => has_id(self@, id@) && i == index_of(self@, id@) && i < self@.len(),
                None => !has_id(self@, id@),
            },
    {
        let mut i: usize = 0;
        while i < self.entries.len()
            invariant
                i <= self.entries@.len(),
                self.wf(),
                self@.len() == self.entries@.len(),
                forall|k: int| 0 <= k < i ==> #[trigger] self@[k].0 != id@,
            decreases self.entries@.len() - i,
        {
            assert(self@[i as int].0 == self.entries@[i as int].0@);
            if self.entries[i].0 == *id {
                proof {
                    assert(self@[i as int].0 == id@);
                    assert(has_id(self@, id@));
                    let j = index_of(self@, id@);
                    assert(self@[j].0 == id@);
                }
                return Some(i);
            }
            i = i + 1;
        }
        None
    }

    /// Registers `conn` for `id`; an entry already there for `id` now holds
    /// `conn` instead (last write wins), and no other entry changes.
    pub fn insert(&mut self, id: String, conn: H)
        requires
            old(self).wf(),
        ensures
            final(self).wf(),
            final(self)@ == inserted(old(self)@, id@, conn),
    {
        let ghost idv = id@;
        match self.position(&id) {
            Some(i) => {
                self.entries.set(i, (id, conn));
                proof {
                    assert(self@ =~= inserted(old(self)@, idv, conn));
                }
            },
            None => {
                self.entries.push((id, conn));
                proof {
                    assert(self@ =~= inserted(old(self)@, idv, conn));
                }
            },
        }
    }

    /// Drops the entry for `id`; nothing happens when there is none.
    pub fn remove(&mut self, id: &String)
        requires
            old(self).wf(),
        ensures
            final(self).wf(),
            final(self)@ == removed(old(self)@, id@),
    {
        match self.position(id) {
            Some(i) => {
                self.entries.remove(i);
                proof {
                    assert(self@ =~= removed(old(self)@, id@));
                }
            },
            None => {},
        }
    }

    /// The number of registered peers.
    pub fn count(&self) -> (r: usize)
        ensures
            r == self@.len(),
    {
        self.entries.len()
    }

    /// Whether `id` is registered.
    pub fn contains(&self, id: &String) -> (r: bool)
        requires
            self.wf(),
        ensures
            r == has_id(self@, id@),
    {
        self.position(id).is_some()
    }
}

impl<H: Clone> Registry<H> {
    /// A point-in-time copy of every entry, in registry order; each handle in
    /// it is a clone of the stored one.
    pub fn snapshot(&self) -> (r: Vec<(String, H)>)
        ensures
            r@.len() == self@.len(),
            forall|i: int|
                0 <= i < r@.len() ==> #[trigger] r@[i].0@ == self@[i].0 && cloned(
                    self@[i].1,
                    r@[i].1,
                ),
    {
        let mut out: Vec<(String, H)> = Vec::new();
        let mut i: usize = 0;
        while i < self.entries.len()
            invariant
                i <= self.entries@.len(),
                self@.len() == self.entries@.len(),
                out@.len() == i,
                forall|k: int|
                    0 <= k < i ==> #[trigger] out@[k].0@ == self@[k].0 && cloned(
                        self@[k].1,
                        out@[k].1,
                    ),
            decreases self.entries@.len() - i,
        {
            let id = self.entries[i].0.clone();
            let conn = self.entries[i].1.clone();
            out.push((id, conn));
            i = i + 1;
        }
        out
    }
}

/// Inserting under an identity keeps identities unique.
pub proof fn lemma_inserted_unique<H>(s: Seq<(Seq<char>, H)>, id: Seq<char>, h: H)
    requires
        ids_unique(s),
    ensures
        ids_unique(inserted(s, id, h)),
        has_id(inserted(s, id, h), id),
        lookup(inserted(s, id, h), id) == Some(h),
{
    let t = inserted(s, id, h);
    if has_id(s, id) {
        let i = index_of(s, id);
        assert(t[i].0 == id);
    } else {
        assert(t[s.len() as int].0 == id);
    }
    let k = index_of(t, id);
    assert(t[k].0 == id);
}

/// Inserting twice under one identity leaves exactly one entry for it,
/// holding the second handle: the same entries as inserting the second
/// handle alone.
pub proof fn lemma_insert_twice<H>(s: Seq<(Seq<char>, H)>, id: Seq<char>, c1: H, c2: H)
    requires
        ids_unique(s),
    ensures
        inserted(inserted(s, id, c1), id, c2) == inserted(s, id, c2),
        ids_unique(inserted(inserted(s, id, c1), id, c2)),
        has_id(inserted(inserted(s, id, c1), id, c2), id),
        forall|i: int, j: int|
            0 <= i < inserted(inserted(s, id, c1), id, c2).len() && 0 <= j < inserted(
                inserted(s, id, c1),
                id,
                c2,
            ).len() && #[trigger] inserted(inserted(s, id, c1), id, c2)[i].0 == id
                && #[trigger] inserted(inserted(s, id, c1), id, c2)[j].0 == id ==> i == j,
        lookup(inserted(inserted(s, id, c1), id, c2), id) == Some(c2),
{
    let t1 = inserted(s, id, c1);
    lemma_inserted_unique(s, id, c1);
    lemma_inserted_unique(t1, id, c2);
    let k = index_of(t1, id);
    if has_id(s, id) {
        let i = index_of(s, id);
        assert(t1[i].0 == id);
        assert(k == i);
        assert(inserted(t1, id, c2) =~= inserted(s, id, c2));
    } else {
        assert(t1[s.len() as int].0 == id);
        assert(k == s.len());
        assert(inserted(t1, id, c2) =~= inserted(s, id, c2));
    }
}

/// Removing keeps identities unique and leaves no entry for the identity.
pub proof fn lemma_removed_unique<H>(s: Seq<(Seq<char>, H)>, id: Seq<char>)
    requires
        ids_unique(s),
    ensures
        ids_unique(removed(s, id)),
        !has_id(removed(s, id), id),
{
    let t = removed(s, id);
    if has_id(s, id) {
        let i = index_of(s, id);
        assert(s[i].0 == id);
        assert forall|a: int, b: int|
            0 <= a < t.len() && 0 <= b < t.len() && #[trigger] t[a].0 == #[trigger] t[b].0 implies a
            == b by {
            let a2 = if a < i {
                a
            } else {
                a + 1
            };
            let b2 = if b < i {
                b
            } else {
                b + 1
            };
            assert(t[a] == s[a2]);
            assert(t[b] == s[b2]);
        }
        assert forall|a: int| 0 <= a < t.len() implies #[trigger] t[a].0 != id by {
            let a2 = if a < i {
                a
            } else {
                a + 1
            };
            assert(t[a] == s[a2]);
        }
    }
}

/// Removing an identity a second time changes nothing.
pub proof fn lemma_remove_twice<H>(s: Seq<(Seq<char>, H)>, id: Seq<char>)
    requires
        ids_unique(s),
    ensures
        removed(removed(s, id), id) == removed(s, id),
        !has_id(removed(s, id), id),
{
    lemma_removed_unique(s, id);
}

} // verus!
