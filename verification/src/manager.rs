//! The manager: a write-session registry and a read-session registry, both
//! indexed by a 128-bit session identifier.  `create` mints an identifier
//! and registers the build session; `commit` seals exactly once, moving the
//! identifier from the write registry to the read registry; `get` hands out
//! O(1) snapshot handles; `clear` invalidates every identifier.

use vstd::prelude::*;

use crate::storage::{empty_columns, Storage, StorageBuilder, StorageError};

verus! {

/// The value registered under `id`, if any.
pub open spec fn reg_get<V>(s: Seq<(u128, V)>, id: u128) -> Option<V>
    decreases s.len(),
{
    if s.len() == 0 {
        None
    } else if s[0].0 == id {
        Some(s[0].1)
    } else {
        reg_get(s.drop_first(), id)
    }
}

/// No identifier is registered twice.
pub open spec fn reg_unique<V>(s: Seq<(u128, V)>) -> bool {
    forall|i: int, j: int|
        #![trigger s[i], s[j]]
        0 <= i < j < s.len() ==> s[i].0 != s[j].0
}

/// If no entry carries `id`, lookup fails.
proof fn lemma_reg_get_absent<V>(s: Seq<(u128, V)>, id: u128)
    requires
        forall|i: int| 0 <= i < s.len() ==> (#[trigger] s[i]).0 != id,
    ensures
        reg_get(s, id) is None,
    decreases s.len(),
{
    if s.len() > 0 {
        assert(forall|i: int|
            0 <= i < s.drop_first().len() ==> (#[trigger] s.drop_first()[i]) == s[i + 1]);
        lemma_reg_get_absent(s.drop_first(), id);
    }
}

/// A successful lookup returns `None` only when `id` is absent; conversely,
/// `None` means no entry carries `id`.
proof fn lemma_reg_get_none_absent<V>(s: Seq<(u128, V)>, id: u128)
    requires
        reg_get(s, id) is None,
    ensures
        forall|i: int| 0 <= i < s.len() ==> (#[trigger] s[i]).0 != id,
    decreases s.len(),
{
    if s.len() > 0 {
        lemma_reg_get_none_absent(s.drop_first(), id);
        assert forall|i: int| 0 <= i < s.len() implies (#[trigger] s[i]).0 != id by {
            if i > 0 {
                assert(s.drop_first()[i - 1] == s[i]);
            }
        }
    }
}

/// The first entry carrying `id` decides the lookup.
proof fn lemma_reg_get_at<V>(s: Seq<(u128, V)>, id: u128, j: int)
    requires
        0 <= j < s.len(),
        s[j].0 == id,
        forall|i: int| 0 <= i < j ==> (#[trigger] s[i]).0 != id,
    ensures
        reg_get(s, id) == Some(s[j].1),
    decreases j,
{
    if j > 0 {
        assert(forall|i: int|
            0 <= i < s.drop_first().len() ==> (#[trigger] s.drop_first()[i]) == s[i + 1]);
        lemma_reg_get_at(s.drop_first(), id, j - 1);
    }
}

/// Removing the entry at `j` removes `id` and keeps every other binding.
proof fn lemma_reg_remove_at<V>(s: Seq<(u128, V)>, id: u128, j: int)
    requires
        reg_unique(s),
        0 <= j < s.len(),
        s[j].0 == id,
        forall|i: int| 0 <= i < j ==> (#[trigger] s[i]).0 != id,
    ensures
        reg_get(s.subrange(0, j) + s.skip(j + 1), id) is None,
        forall|id2: u128|
            id2 != id ==> reg_get(s.subrange(0, j) + s.skip(j + 1), id2) == reg_get(s, id2),
        reg_unique(s.subrange(0, j) + s.skip(j + 1)),
    decreases j,
{
    let out = s.subrange(0, j) + s.skip(j + 1);
    assert forall|a: int, b: int|
        0 <= a < b < out.len() implies (#[trigger] out[a]).0 != (#[trigger] out[b]).0 by {
        let sa: int = if a < j {
            a
        } else {
            a + 1
        };
        let sb: int = if b < j {
            b
        } else {
            b + 1
        };
        assert(out[a] == s[sa]);
        assert(out[b] == s[sb]);
    }
    assert forall|i: int| 0 <= i < out.len() implies (#[trigger] out[i]).0 != id by {
        let si: int = if i < j {
            i
        } else {
            i + 1
        };
        assert(out[i] == s[si]);
        if si > j {
            assert(s[j].0 != s[si].0);
        }
    }
    lemma_reg_get_absent(out, id);
    if j == 0 {
        assert(out =~= s.drop_first());
        assert forall|id2: u128| id2 != id implies reg_get(out, id2) == reg_get(s, id2) by {
            assert(reg_get(s, id2) == reg_get(s.drop_first(), id2));
        }
    } else {
        let t = s.drop_first();
        assert(forall|i: int| 0 <= i < t.len() ==> (#[trigger] t[i]) == s[i + 1]);
        assert forall|a: int, b: int|
            0 <= a < b < t.len() implies (#[trigger] t[a]).0 != (#[trigger] t[b]).0 by {
            assert(t[a] == s[a + 1]);
            assert(t[b] == s[b + 1]);
        }
        lemma_reg_remove_at(t, id, j - 1);
        let inner = t.subrange(0, j - 1) + t.skip(j);
        assert(out =~= seq![s[0]] + inner);
        assert(out[0] == s[0]);
        assert(out.drop_first() =~= inner);
        assert forall|id2: u128| id2 != id implies reg_get(out, id2) == reg_get(s, id2) by {
            if s[0].0 == id2 {
                assert(reg_get(out, id2) == Some(out[0].1));
                assert(reg_get(s, id2) == Some(s[0].1));
            } else {
                assert(reg_get(out, id2) == reg_get(inner, id2));
                assert(reg_get(s, id2) == reg_get(t, id2));
            }
        }
    }
}

/// Appending a fresh identifier binds it and keeps every other binding.
proof fn lemma_reg_push<V>(s: Seq<(u128, V)>, id: u128, v: V)
    requires
        reg_get(s, id) is None,
    ensures
        reg_get(s.push((id, v)), id) == Some(v),
        forall|id2: u128| id2 != id ==> reg_get(s.push((id, v)), id2) == reg_get(s, id2),
        reg_unique(s) ==> reg_unique(s.push((id, v))),
    decreases s.len(),
{
    let out = s.push((id, v));
    lemma_reg_get_none_absent(s, id);
    if s.len() == 0 {
        assert(out[0] == (id, v));
        assert(out.drop_first() =~= s);
        assert forall|id2: u128| id2 != id implies reg_get(out, id2) == reg_get(s, id2) by {
            assert(reg_get(out, id2) == reg_get(out.drop_first(), id2));
        }
    } else {
        assert(out[0] == s[0]);
        assert(out.drop_first() =~= s.drop_first().push((id, v)));
        assert(reg_get(s.drop_first(), id) == reg_get(s, id));
        lemma_reg_push(s.drop_first(), id, v);
        assert(reg_get(out, id) == reg_get(out.drop_first(), id));
        assert forall|id2: u128| id2 != id implies reg_get(out, id2) == reg_get(s, id2) by {
            if s[0].0 != id2 {
                assert(reg_get(out, id2) == reg_get(out.drop_first(), id2));
                assert(reg_get(s, id2) == reg_get(s.drop_first(), id2));
            }
        }
        if reg_unique(s) {
            assert forall|a: int, b: int|
                0 <= a < b < out.len() implies (#[trigger] out[a]).0 != (#[trigger] out[b]).0 by {
                if b == s.len() {
                    assert(out[a] == s[a]);
                    assert(out[b] == (id, v));
                } else {
                    assert(out[a] == s[a]);
                    assert(out[b] == s[b]);
                }
            }
        }
    }
}

/// An identifier-indexed registry with no duplicate identifiers.
pub struct Registry<V> {
    entries: Vec<(u128, V)>,
}

impl<V> View for Registry<V> {
    type V = Seq<(u128, V)>;

    closed spec fn view(&self) -> Seq<(u128, V)> {
        self.entries@
    }
}

impl<V> Registry<V> {
    pub fn new() -> (r: Registry<V>)
        ensures
            r@ == Seq::<(u128, V)>::empty(),
            reg_unique(r@),
            forall|id: u128| reg_get(r@, id) is None,
    {
        let r = Registry { entries: Vec::new() };
        proof {
            assert(r@ =~= Seq::<(u128, V)>::empty());
        }
        r
    }

    /// A borrowed look at the value registered under `id`.
    pub fn get(&self, id: u128) -> (r: Option<&V>)
        ensures
            match r {
                Some(v) => reg_get(self@, id) == Some(*v),
                None => reg_get(self@, id) is None,
            },
    {
        let ghost s = self@;
        let n = self.entries.len();
        let mut j: usize = 0;
        while j < n
            invariant
                self@ == s,
                n == s.len(),
                0 <= j <= n,
                forall|i: int| 0 <= i < j ==> (#[trigger] s[i]).0 != id,
            decreases n - j,
        {
            if self.entries[j].0 == id {
                proof {
                    lemma_reg_get_at(s, id, j as int);
                }
                return Some(&self.entries[j].1);
            }
            j += 1;
        }
        proof {
            lemma_reg_get_absent(s, id);
        }
        None
    }

    /// Removes and returns the value registered under `id`, if any.
    pub fn remove(&mut self, id: u128) -> (r: Option<V>)
        requires
            reg_unique(old(self)@),
        ensures
            reg_unique(final(self)@),
            r == reg_get(old(self)@, id),
            reg_get(final(self)@, id) is None,
            forall|id2: u128| id2 != id ==> reg_get(final(self)@, id2) == reg_get(old(self)@, id2),
            r is None ==> final(self)@ == old(self)@,
    {
        let ghost s = self@;
        let n = self.entries.len();
        let mut j: usize = 0;
        while j < n
            invariant
                reg_unique(s),
                self@ == s,
                old(self)@ == s,
                n == s.len(),
                0 <= j <= n,
                forall|i: int| 0 <= i < j ==> (#[trigger] s[i]).0 != id,
            decreases n - j,
        {
            if self.entries[j].0 == id {
                let e = self.entries.remove(j);
                proof {
                    lemma_reg_get_at(s, id, j as int);
                    lemma_reg_remove_at(s, id, j as int);
                    assert(self@ =~= s.subrange(0, j as int) + s.skip(j as int + 1));
                }
                return Some(e.1);
            }
            j += 1;
        }
        proof {
            lemma_reg_get_absent(s, id);
        }
        None
    }

    /// Registers `v` under `id`, replacing any earlier binding.
    pub fn insert(&mut self, id: u128, v: V)
        requires
            reg_unique(old(self)@),
        ensures
            reg_unique(final(self)@),
            reg_get(final(self)@, id) == Some(v),
            forall|id2: u128| id2 != id ==> reg_get(final(self)@, id2) == reg_get(old(self)@, id2),
    {
        self.remove(id);
        let ghost s = self@;
        self.entries.push((id, v));
        proof {
            lemma_reg_push(s, id, v);
            assert(self@ =~= s.push((id, v)));
        }
    }

    /// Drops every binding.
    pub fn clear(&mut self)
        ensures
            final(self)@ == Seq::<(u128, V)>::empty(),
            reg_unique(final(self)@),
            forall|id: u128| reg_get(final(self)@, id) is None,
    {
        self.entries.clear();
        proof {
            assert(self@ =~= Seq::<(u128, V)>::empty());
        }
    }
}

/// Relies on uuid's `Uuid::new_v4` for a randomly generated 128-bit session
/// identifier; nothing is assumed of the value that comes back.
#[verifier::external_body]
fn mint_session_id() -> (r: u128) {
    uuid::Uuid::new_v4().as_u128()
}

/// Owns the write-session and read-session registries and mediates the
/// one-way build-to-seal transition.
pub struct StorageManager {
    write_cache: Registry<()>,
    read_cache: Registry<Storage>,
}

impl StorageManager {
    /// Whether a build session is registered (created, not yet committed)
    /// under `id`.
    pub closed spec fn pending(&self, id: u128) -> bool {
        reg_get(self.write_cache@, id) is Some
    }

    /// The sealed snapshot published under `id`, if any commit has run for
    /// it.
    pub closed spec fn published(&self, id: u128) -> Option<Storage> {
        reg_get(self.read_cache@, id)
    }

    /// Registries hold no duplicate identifiers, and every published
    /// snapshot is well-formed.
    pub closed spec fn wf(&self) -> bool {
        &&& reg_unique(self.write_cache@)
        &&& reg_unique(self.read_cache@)
        &&& forall|id: u128|
            (#[trigger] reg_get(self.read_cache@, id)) matches Some(s) ==> s.wf()
    }

    /// A manager with both registries empty.
    pub fn new() -> (m: StorageManager)
        ensures
            m.wf(),
            forall|id: u128| !m.pending(id),
            forall|id: u128| m.published(id) is None,
    {
        StorageManager { write_cache: Registry::new(), read_cache: Registry::new() }
    }

    /// Mints a fresh session identifier, registers the session as pending,
    /// and returns a builder with every column present but empty.
    pub fn create(&mut self) -> (b: StorageBuilder)
        requires
            old(self).wf(),
        ensures
            final(self).wf(),
            b.wf(),
            b@ == empty_columns(b@.id),
            final(self).pending(b@.id),
            forall|id: u128|
                id != b@.id ==> final(self).pending(id) == old(self).pending(id),
            forall|id: u128| final(self).published(id) == old(self).published(id),
    {
        let id = mint_session_id();
        let b = StorageBuilder::new(id);
        self.write_cache.insert(id, ());
        b
    }

    /// Seals `builder` into a snapshot, publishes it under the builder's
    /// session identifier, and unregisters the build session.  Committing a
    /// session that is not pending — an unknown identifier, or one already
    /// committed — fails with [`StorageError::UnknownSession`] and changes
    /// nothing.
    pub fn commit(&mut self, builder: StorageBuilder) -> (r: Result<Storage, StorageError>)
        requires
            old(self).wf(),
            builder.wf(),
        ensures
            final(self).wf(),
            match r {
                Ok(s) => {
                    &&& old(self).pending(builder@.id)
                    &&& s@ == builder@
                    &&& s.wf()
                    &&& !final(self).pending(builder@.id)
                    &&& final(self).published(builder@.id) == Some(s)
                    &&& forall|id: u128|
                        id != builder@.id ==> final(self).pending(id) == old(self).pending(id)
                    &&& forall|id: u128|
                        id != builder@.id ==> final(self).published(id) == old(self).published(
                            id,
                        )
                },
                Err(e) => {
                    &&& e is UnknownSession
                    &&& !old(self).pending(builder@.id)
                    &&& forall|id: u128| final(self).pending(id) == old(self).pending(id)
                    &&& forall|id: u128| final(self).published(id) == old(self).published(id)
                },
            },
    {
        let id = builder.id();
        match self.write_cache.remove(id) {
            Some(_) => {
                let s = builder.seal();
                let dup = s.duplicate();
                self.read_cache.insert(id, dup);
                Ok(s)
            },
            None => Err(StorageError::UnknownSession),
        }
    }

    /// An O(1) handle to the snapshot published under `id`, or absent if no
    /// commit has run for it.
    pub fn get(&self, id: u128) -> (r: Option<Storage>)
        requires
            self.wf(),
        ensures
            match r {
                Some(s) => self.published(id) == Some(s) && s.wf(),
                None => self.published(id) is None,
            },
    {
        match self.read_cache.get(id) {
            Some(s) => Some(s.duplicate()),
            None => None,
        }
    }

    /// Empties both registries, invalidating every previously issued
    /// identifier.  An administrative reset, not a steady-state operation.
    pub fn clear(&mut self)
        ensures
            final(self).wf(),
            forall|id: u128| !final(self).pending(id),
            forall|id: u128| final(self).published(id) is None,
    {
        self.write_cache.clear();
        self.read_cache.clear();
    }
}

} // verus!
