//! A column: one value-type-specific ordered mapping from composite key to
//! value, kept as a vector of entries sorted strictly ascending by key.
//! Equal composite keys are never duplicated: a later insert overwrites the
//! earlier entry (last write wins).

use vstd::prelude::*;

use crate::keys::{
    ck_lt, lemma_ck_lt_asym, lemma_ck_lt_connected, lemma_ck_lt_irrefl, lemma_ck_lt_trans,
    Comparison, CompositeKey, CompositeKeyView,
};
use crate::ranges::{ck_in_ranges, in_ranges, KeyRange, KeyRangeView, PrefixRange, PrefixRangeView};

verus! {

/// Entries are strictly ascending by composite key.
pub open spec fn entries_sorted<V>(s: Seq<(CompositeKeyView, V)>) -> bool {
    forall|i: int, j: int|
        #![trigger s[i], s[j]]
        0 <= i < j < s.len() ==> ck_lt(s[i].0, s[j].0)
}

/// The value stored under key `k`, if any (first match).
pub open spec fn spec_get<V>(s: Seq<(CompositeKeyView, V)>, k: CompositeKeyView) -> Option<V>
    decreases s.len(),
{
    if s.len() == 0 {
        None
    } else if s[0].0 == k {
        Some(s[0].1)
    } else {
        spec_get(s.drop_first(), k)
    }
}

pub open spec fn spec_contains<V>(s: Seq<(CompositeKeyView, V)>, k: CompositeKeyView) -> bool {
    spec_get(s, k) is Some
}

/// The entry sequence after inserting `(k, v)` in sorted position,
/// overwriting an entry whose key equals `k`.
pub open spec fn spec_insert<V>(
    s: Seq<(CompositeKeyView, V)>,
    k: CompositeKeyView,
    v: V,
) -> Seq<(CompositeKeyView, V)>
    decreases s.len(),
{
    if s.len() == 0 {
        seq![(k, v)]
    } else if ck_lt(k, s[0].0) {
        seq![(k, v)] + s
    } else if s[0].0 == k {
        seq![(k, v)] + s.drop_first()
    } else {
        seq![s[0]] + spec_insert(s.drop_first(), k, v)
    }
}

/// The entry sequence after removing the entry whose key equals `k`,
/// unchanged if there is none.
pub open spec fn spec_remove<V>(
    s: Seq<(CompositeKeyView, V)>,
    k: CompositeKeyView,
) -> Seq<(CompositeKeyView, V)>
    decreases s.len(),
{
    if s.len() == 0 {
        s
    } else if s[0].0 == k {
        s.drop_first()
    } else {
        seq![s[0]] + spec_remove(s.drop_first(), k)
    }
}

/// The number of entries whose key is strictly less than `k`: the 0-based
/// position `k` would occupy.
pub open spec fn spec_rank<V>(s: Seq<(CompositeKeyView, V)>, k: CompositeKeyView) -> int
    decreases s.len(),
{
    if s.len() == 0 {
        0
    } else {
        (if ck_lt(s[0].0, k) {
            1int
        } else {
            0int
        }) + spec_rank(s.drop_first(), k)
    }
}

/// The subsequence of entries, in order, whose keys satisfy both range
/// filters.
pub open spec fn spec_range<V>(
    s: Seq<(CompositeKeyView, V)>,
    pr: PrefixRangeView,
    kr: KeyRangeView,
) -> Seq<(CompositeKeyView, V)>
    decreases s.len(),
{
    if s.len() == 0 {
        s
    } else {
        let rest = spec_range(s.drop_first(), pr, kr);
        if in_ranges(s[0].0, pr, kr) {
            seq![s[0]] + rest
        } else {
            rest
        }
    }
}

/// If no entry's key equals `k`, lookup fails.
pub proof fn lemma_get_absent<V>(s: Seq<(CompositeKeyView, V)>, k: CompositeKeyView)
    requires
        forall|i: int| 0 <= i < s.len() ==> (#[trigger] s[i]).0 != k,
    ensures
        spec_get(s, k) is None,
    decreases s.len(),
{
    if s.len() > 0 {
        assert(s[0].0 != k);
        assert(forall|i: int|
            0 <= i < s.drop_first().len() ==> (#[trigger] s.drop_first()[i]) == s[i + 1]);
        lemma_get_absent(s.drop_first(), k);
    }
}

/// Skipping entries whose keys differ from `k` does not change the lookup.
pub proof fn lemma_get_skip<V>(s: Seq<(CompositeKeyView, V)>, k: CompositeKeyView, j: int)
    requires
        0 <= j <= s.len(),
        forall|i: int| 0 <= i < j ==> (#[trigger] s[i]).0 != k,
    ensures
        spec_get(s, k) == spec_get(s.skip(j), k),
    decreases j,
{
    if j > 0 {
        assert(s.len() > 0 && s[0].0 != k);
        assert(s.drop_first().skip(j - 1) =~= s.skip(j));
        assert(forall|i: int|
            0 <= i < s.drop_first().len() ==> (#[trigger] s.drop_first()[i]) == s[i + 1]);
        lemma_get_skip(s.drop_first(), k, j - 1);
    } else {
        assert(s.skip(0) =~= s);
    }
}

/// Sortedness carries over to the tail.
proof fn lemma_sorted_drop_first<V>(s: Seq<(CompositeKeyView, V)>)
    requires
        entries_sorted(s),
        s.len() > 0,
    ensures
        entries_sorted(s.drop_first()),
{
    assert forall|i: int, j: int|
        0 <= i < j < s.drop_first().len() implies ck_lt(
        (#[trigger] s.drop_first()[i]).0,
        (#[trigger] s.drop_first()[j]).0,
    ) by {
        assert(s.drop_first()[i] == s[i + 1]);
        assert(s.drop_first()[j] == s[j + 1]);
    }
}

/// Inserting at the bracketing position `j` realises `spec_insert`, and the
/// result is sorted.
proof fn lemma_insert_parts<V>(
    s: Seq<(CompositeKeyView, V)>,
    k: CompositeKeyView,
    v: V,
    j: int,
)
    requires
        entries_sorted(s),
        0 <= j <= s.len(),
        forall|i: int| 0 <= i < j ==> ck_lt((#[trigger] s[i]).0, k),
        forall|i: int| j <= i < s.len() ==> ck_lt(k, (#[trigger] s[i]).0),
    ensures
        spec_insert(s, k, v) == s.subrange(0, j) + seq![(k, v)] + s.skip(j),
        entries_sorted(s.subrange(0, j) + seq![(k, v)] + s.skip(j)),
    decreases j,
{
    let out = s.subrange(0, j) + seq![(k, v)] + s.skip(j);
    if j == 0 {
        if s.len() == 0 {
            assert(out =~= seq![(k, v)]);
        } else {
            assert(ck_lt(k, s[0].0));
            lemma_ck_lt_asym(k, s[0].0);
            assert(out =~= seq![(k, v)] + s);
            assert(spec_insert(s, k, v) == seq![(k, v)] + s);
        }
        assert(entries_sorted(out)) by {
            assert forall|a: int, b: int|
                0 <= a < b < out.len() implies ck_lt((#[trigger] out[a]).0, (#[trigger] out[b]).0)
            by {
                if a == 0 {
                    assert(out[0] == (k, v));
                    assert(out[b] == s[b - 1]);
                } else {
                    assert(out[a] == s[a - 1]);
                    assert(out[b] == s[b - 1]);
                }
            }
        }
    } else {
        assert(ck_lt(s[0].0, k));
        lemma_ck_lt_asym(s[0].0, k);
        lemma_ck_lt_irrefl(s[0].0);
        lemma_sorted_drop_first(s);
        let t = s.drop_first();
        assert(forall|i: int| 0 <= i < t.len() ==> (#[trigger] t[i]) == s[i + 1]);
        lemma_insert_parts(t, k, v, j - 1);
        assert(spec_insert(s, k, v) == seq![s[0]] + spec_insert(t, k, v));
        let inner = t.subrange(0, j - 1) + seq![(k, v)] + t.skip(j - 1);
        assert(out =~= seq![s[0]] + inner);
        assert(entries_sorted(out)) by {
            assert forall|a: int, b: int|
                0 <= a < b < out.len() implies ck_lt((#[trigger] out[a]).0, (#[trigger] out[b]).0)
            by {
                if a == 0 {
                    assert(out[b] == inner[b - 1]);
                    if b - 1 < j - 1 {
                        assert(inner[b - 1] == t[b - 1]);
                        assert(ck_lt(s[0].0, t[b - 1].0));
                    } else if b - 1 == j - 1 {
                        assert(inner[b - 1] == (k, v));
                    } else {
                        assert(inner[b - 1] == t[b - 2]);
                        assert(ck_lt(s[0].0, t[b - 2].0));
                    }
                } else {
                    assert(out[a] == inner[a - 1]);
                    assert(out[b] == inner[b - 1]);
                }
            }
        }
        assert(spec_insert(s, k, v) =~= out);
    }
}

/// Replacing the entry at position `j`, whose key equals `k`, realises
/// `spec_insert`, and the result is sorted.
proof fn lemma_replace_parts<V>(
    s: Seq<(CompositeKeyView, V)>,
    k: CompositeKeyView,
    v: V,
    j: int,
)
    requires
        entries_sorted(s),
        0 <= j < s.len(),
        s[j].0 == k,
        forall|i: int| 0 <= i < j ==> ck_lt((#[trigger] s[i]).0, k),
    ensures
        spec_insert(s, k, v) == s.subrange(0, j) + seq![(k, v)] + s.skip(j + 1),
        entries_sorted(s.subrange(0, j) + seq![(k, v)] + s.skip(j + 1)),
    decreases j,
{
    let out = s.subrange(0, j) + seq![(k, v)] + s.skip(j + 1);
    if j == 0 {
        lemma_ck_lt_irrefl(k);
        assert(out =~= seq![(k, v)] + s.drop_first());
        assert(spec_insert(s, k, v) == seq![(k, v)] + s.drop_first());
        assert(entries_sorted(out)) by {
            assert forall|a: int, b: int|
                0 <= a < b < out.len() implies ck_lt((#[trigger] out[a]).0, (#[trigger] out[b]).0)
            by {
                if a == 0 {
                    assert(out[b] == s[b]);
                    assert(ck_lt(s[0].0, s[b].0));
                } else {
                    assert(out[a] == s[a]);
                    assert(out[b] == s[b]);
                }
            }
        }
    } else {
        assert(ck_lt(s[0].0, k));
        lemma_ck_lt_asym(s[0].0, k);
        lemma_ck_lt_irrefl(s[0].0);
        lemma_sorted_drop_first(s);
        let t = s.drop_first();
        assert(forall|i: int| 0 <= i < t.len() ==> (#[trigger] t[i]) == s[i + 1]);
        lemma_replace_parts(t, k, v, j - 1);
        let inner = t.subrange(0, j - 1) + seq![(k, v)] + t.skip(j);
        assert(out =~= seq![s[0]] + inner);
        assert(entries_sorted(out)) by {
            assert forall|a: int, b: int|
                0 <= a < b < out.len() implies ck_lt((#[trigger] out[a]).0, (#[trigger] out[b]).0)
            by {
                if a == 0 {
                    assert(out[b] == inner[b - 1]);
                    if b - 1 < j - 1 {
                        assert(inner[b - 1] == t[b - 1]);
                        assert(ck_lt(s[0].0, t[b - 1].0));
                    } else if b - 1 == j - 1 {
                        assert(inner[b - 1] == (k, v));
                    } else {
                        assert(inner[b - 1] == t[b - 1]);
                        assert(ck_lt(s[0].0, t[b - 1].0));
                    }
                } else {
                    assert(out[a] == inner[a - 1]);
                    assert(out[b] == inner[b - 1]);
                }
            }
        }
        assert(spec_insert(s, k, v) =~= out);
    }
}

/// Removing the entry at position `j`, whose key equals `k`, realises
/// `spec_remove`, and the result is sorted.
proof fn lemma_remove_parts<V>(s: Seq<(CompositeKeyView, V)>, k: CompositeKeyView, j: int)
    requires
        entries_sorted(s),
        0 <= j < s.len(),
        s[j].0 == k,
        forall|i: int| 0 <= i < j ==> ck_lt((#[trigger] s[i]).0, k),
    ensures
        spec_remove(s, k) == s.subrange(0, j) + s.skip(j + 1),
        entries_sorted(s.subrange(0, j) + s.skip(j + 1)),
    decreases j,
{
    let out = s.subrange(0, j) + s.skip(j + 1);
    if j == 0 {
        assert(out =~= s.drop_first());
        lemma_sorted_drop_first(s);
    } else {
        assert(ck_lt(s[0].0, k));
        lemma_ck_lt_asym(s[0].0, k);
        lemma_ck_lt_irrefl(s[0].0);
        lemma_sorted_drop_first(s);
        let t = s.drop_first();
        assert(forall|i: int| 0 <= i < t.len() ==> (#[trigger] t[i]) == s[i + 1]);
        lemma_remove_parts(t, k, j - 1);
        let inner = t.subrange(0, j - 1) + t.skip(j);
        assert(out =~= seq![s[0]] + inner);
        assert(entries_sorted(out)) by {
            assert forall|a: int, b: int|
                0 <= a < b < out.len() implies ck_lt((#[trigger] out[a]).0, (#[trigger] out[b]).0)
            by {
                if a == 0 {
                    assert(out[b] == inner[b - 1]);
                    if b - 1 < j - 1 {
                        assert(inner[b - 1] == t[b - 1]);
                    } else {
                        assert(inner[b - 1] == t[b]);
                    }
                } else {
                    assert(out[a] == inner[a - 1]);
                    assert(out[b] == inner[b - 1]);
                }
            }
        }
        assert(spec_remove(s, k) =~= out);
    }
}

/// For a sorted sequence whose first `j` keys lie below `k` and whose
/// remaining keys do not, the rank of `k` is exactly `j`.
pub proof fn lemma_rank_split<V>(s: Seq<(CompositeKeyView, V)>, k: CompositeKeyView, j: int)
    requires
        0 <= j <= s.len(),
        forall|i: int| 0 <= i < j ==> ck_lt((#[trigger] s[i]).0, k),
        forall|i: int| j <= i < s.len() ==> !ck_lt((#[trigger] s[i]).0, k),
    ensures
        spec_rank(s, k) == j,
    decreases s.len(),
{
    if s.len() > 0 {
        let t = s.drop_first();
        assert(forall|i: int| 0 <= i < t.len() ==> (#[trigger] t[i]) == s[i + 1]);
        if j > 0 {
            lemma_rank_split(t, k, j - 1);
        } else {
            lemma_rank_split(t, k, 0);
        }
    }
}

/// Appending an entry extends the range filter's result by that entry when
/// it qualifies.
pub proof fn lemma_range_push<V>(
    s: Seq<(CompositeKeyView, V)>,
    e: (CompositeKeyView, V),
    pr: PrefixRangeView,
    kr: KeyRangeView,
)
    ensures
        spec_range(s.push(e), pr, kr) == if in_ranges(e.0, pr, kr) {
            spec_range(s, pr, kr).push(e)
        } else {
            spec_range(s, pr, kr)
        },
    decreases s.len(),
{
    if s.len() == 0 {
        let emp = Seq::<(CompositeKeyView, V)>::empty();
        assert(s.push(e)[0] == e);
        assert(s.push(e).drop_first() =~= emp);
        assert(spec_range(emp, pr, kr) == emp);
        if in_ranges(e.0, pr, kr) {
            assert(spec_range(s.push(e), pr, kr) =~= spec_range(s, pr, kr).push(e));
        } else {
            assert(spec_range(s.push(e), pr, kr) =~= spec_range(s, pr, kr));
        }
    } else {
        assert(s.push(e)[0] == s[0]);
        assert(s.push(e).drop_first() =~= s.drop_first().push(e));
        lemma_range_push(s.drop_first(), e, pr, kr);
        if in_ranges(e.0, pr, kr) {
            assert(spec_range(s.push(e), pr, kr) =~= spec_range(s, pr, kr).push(e));
        }
    }
}

/// A value type that can be duplicated, together with the equivalence its
/// duplicates are guaranteed to satisfy.
pub trait Dup: Sized {
    /// The equivalence a duplicate bears to its original.
    spec fn eqv(a: Self, b: Self) -> bool;

    /// An explicit copy equivalent to the original.
    fn dup(&self) -> (r: Self)
        ensures
            Self::eqv(*self, r),
    ;
}

/// One ordered column, from composite key to value.
#[derive(Clone)]
pub struct Column<V> {
    entries: Vec<(CompositeKey, V)>,
}

impl<V> View for Column<V> {
    type V = Seq<(CompositeKeyView, V)>;

    closed spec fn view(&self) -> Seq<(CompositeKeyView, V)> {
        Seq::new(self.entries@.len(), |i: int| (self.entries@[i].0@, self.entries@[i].1))
    }
}

impl<V> Column<V> {
    /// An empty column.
    pub fn new() -> (c: Column<V>)
        ensures
            c@ == Seq::<(CompositeKeyView, V)>::empty(),
            entries_sorted(c@),
    {
        let c = Column { entries: Vec::new() };
        proof {
            assert(c@ =~= Seq::<(CompositeKeyView, V)>::empty());
        }
        c
    }

    /// The number of entries.
    pub fn count(&self) -> (r: usize)
        ensures
            r == self@.len(),
    {
        self.entries.len()
    }

    /// The key of the entry at position `i`.
    pub fn key_at(&self, i: usize) -> (r: &CompositeKey)
        requires
            i < self@.len(),
        ensures
            r@ == self@[i as int].0,
    {
        proof {
            assert(self@[i as int] == (self.entries@[i as int].0@, self.entries@[i as int].1));
        }
        &self.entries[i].0
    }

    /// The value of the entry at position `i`.
    pub fn value_at(&self, i: usize) -> (r: &V)
        requires
            i < self@.len(),
        ensures
            *r == self@[i as int].1,
    {
        proof {
            assert(self@[i as int] == (self.entries@[i as int].0@, self.entries@[i as int].1));
        }
        &self.entries[i].1
    }

    /// Inserts `(ck, v)` in sorted position, overwriting the entry under an
    /// equal key.
    pub fn insert(&mut self, ck: CompositeKey, v: V)
        requires
            entries_sorted(old(self)@),
        ensures
            final(self)@ == spec_insert(old(self)@, ck@, v),
            entries_sorted(final(self)@),
    {
        let ghost s = self@;
        let n = self.entries.len();
        let mut j: usize = 0;
        while j < n
            invariant
                entries_sorted(s),
                self@ == s,
                old(self)@ == s,
                n == self.entries@.len(),
                0 <= j <= n,
                forall|i: int| 0 <= i < j ==> ck_lt((#[trigger] s[i]).0, ck@),
            decreases n - j,
        {
            let c = self.entries[j].0.compare(&ck);
            match c {
                Comparison::Less => {
                    assert(s[j as int].0 == self.entries@[j as int].0@);
                    j += 1;
                },
                Comparison::Equal => {
                    self.entries.remove(j);
                    self.entries.insert(j, (ck, v));
                    proof {
                        lemma_replace_parts(s, ck@, v, j as int);
                        assert(self@ =~= s.subrange(0, j as int) + seq![(ck@, v)] + s.skip(
                            j as int + 1,
                        ));
                    }
                    return;
                },
                Comparison::Greater => {
                    proof {
                        assert forall|i: int| j <= i < n implies ck_lt(ck@, (#[trigger] s[i]).0)
                        by {
                            if i > j {
                                lemma_ck_lt_trans(ck@, s[j as int].0, s[i].0);
                            }
                        }
                    }
                    self.entries.insert(j, (ck, v));
                    proof {
                        lemma_insert_parts(s, ck@, v, j as int);
                        assert(self@ =~= s.subrange(0, j as int) + seq![(ck@, v)] + s.skip(
                            j as int,
                        ));
                    }
                    return;
                },
            }
        }
        self.entries.push((ck, v));
        proof {
            lemma_insert_parts(s, ck@, v, n as int);
            assert(self@ =~= s.subrange(0, n as int) + seq![(ck@, v)] + s.skip(n as int));
        }
    }

    /// Removes the entry under `ck`; a no-op if absent.
    pub fn remove(&mut self, ck: &CompositeKey)
        requires
            entries_sorted(old(self)@),
        ensures
            final(self)@ == spec_remove(old(self)@, ck@),
            entries_sorted(final(self)@),
    {
        let ghost s = self@;
        let n = self.entries.len();
        let mut j: usize = 0;
        while j < n
            invariant
                entries_sorted(s),
                self@ == s,
                old(self)@ == s,
                n == self.entries@.len(),
                0 <= j <= n,
                forall|i: int| 0 <= i < j ==> ck_lt((#[trigger] s[i]).0, ck@),
            decreases n - j,
        {
            let c = self.entries[j].0.compare(ck);
            match c {
                Comparison::Less => {
                    assert(s[j as int].0 == self.entries@[j as int].0@);
                    j += 1;
                },
                Comparison::Equal => {
                    self.entries.remove(j);
                    proof {
                        lemma_remove_parts(s, ck@, j as int);
                        assert(self@ =~= s.subrange(0, j as int) + s.skip(j as int + 1));
                    }
                    return;
                },
                Comparison::Greater => {
                    proof {
                        lemma_remove_no_match(s, ck@, j as int);
                    }
                    return;
                },
            }
        }
        proof {
            lemma_remove_no_match(s, ck@, n as int);
        }
    }

    /// Point lookup.
    pub fn get(&self, ck: &CompositeKey) -> (r: Option<&V>)
        requires
            entries_sorted(self@),
        ensures
            match r {
                Some(v) => spec_get(self@, ck@) == Some(*v),
                None => spec_get(self@, ck@) is None,
            },
    {
        let ghost s = self@;
        let n = self.entries.len();
        let mut j: usize = 0;
        while j < n
            invariant
                entries_sorted(s),
                self@ == s,
                n == self.entries@.len(),
                0 <= j <= n,
                forall|i: int| 0 <= i < j ==> ck_lt((#[trigger] s[i]).0, ck@),
            decreases n - j,
        {
            let c = self.entries[j].0.compare(ck);
            match c {
                Comparison::Less => {
                    assert(s[j as int].0 == self.entries@[j as int].0@);
                    j += 1;
                },
                Comparison::Equal => {
                    proof {
                        lemma_keys_below_differ(s, ck@, j as int);
                        lemma_get_skip(s, ck@, j as int);
                        assert(s.skip(j as int)[0] == s[j as int]);
                    }
                    return Some(&self.entries[j].1);
                },
                Comparison::Greater => {
                    proof {
                        lemma_absent_at(s, ck@, j as int);
                    }
                    return None;
                },
            }
        }
        proof {
            lemma_absent_at(s, ck@, n as int);
        }
        None
    }

    /// Membership test.
    pub fn contains(&self, ck: &CompositeKey) -> (r: bool)
        requires
            entries_sorted(self@),
        ensures
            r == spec_contains(self@, ck@),
    {
        self.get(ck).is_some()
    }

    /// The number of entries whose key is strictly less than `ck`.
    pub fn rank(&self, ck: &CompositeKey) -> (r: usize)
        requires
            entries_sorted(self@),
        ensures
            r == spec_rank(self@, ck@),
    {
        let ghost s = self@;
        let n = self.entries.len();
        let mut j: usize = 0;
        while j < n
            invariant
                entries_sorted(s),
                self@ == s,
                n == self.entries@.len(),
                0 <= j <= n,
                forall|i: int| 0 <= i < j ==> ck_lt((#[trigger] s[i]).0, ck@),
            decreases n - j,
        {
            let c = self.entries[j].0.compare(ck);
            match c {
                Comparison::Less => {
                    assert(s[j as int].0 == self.entries@[j as int].0@);
                    j += 1;
                },
                _ => {
                    proof {
                        assert forall|i: int| j <= i < n implies !ck_lt((#[trigger] s[i]).0, ck@)
                        by {
                            lemma_ck_lt_asym(s[j as int].0, ck@);
                            lemma_ck_lt_irrefl(ck@);
                            if i > j && ck_lt(s[i].0, ck@) {
                                lemma_ck_lt_trans(s[j as int].0, s[i].0, ck@);
                            }
                        }
                        lemma_rank_split(s, ck@, j as int);
                    }
                    return j;
                },
            }
        }
        proof {
            lemma_rank_split(s, ck@, n as int);
        }
        j
    }

    /// Bounded range scan: every entry whose prefix lies within `pr` and
    /// whose key lies within `kr`, in ascending key order, as a fresh
    /// materialization.
    pub fn read_range(&self, pr: &PrefixRange, kr: &KeyRange) -> (r: Vec<(CompositeKey, V)>) where
        V: Dup,

        requires
            entries_sorted(self@),
        ensures
            ({
                let f = spec_range(self@, pr@, kr@);
                &&& r@.len() == f.len()
                &&& forall|i: int|
                    0 <= i < f.len() ==> (#[trigger] r@[i]).0@ == f[i].0 && V::eqv(
                        f[i].1,
                        r@[i].1,
                    )
            }),
    {
        let ghost s = self@;
        let n = self.entries.len();
        let mut out: Vec<(CompositeKey, V)> = Vec::new();
        let mut j: usize = 0;
        proof {
            assert(s.subrange(0, 0) =~= Seq::<(CompositeKeyView, V)>::empty());
        }
        while j < n
            invariant
                self@ == s,
                n == self.entries@.len(),
                0 <= j <= n,
                ({
                    let f = spec_range(s.subrange(0, j as int), pr@, kr@);
                    &&& out@.len() == f.len()
                    &&& forall|i: int|
                        0 <= i < f.len() ==> (#[trigger] out@[i]).0@ == f[i].0 && V::eqv(
                            f[i].1,
                            out@[i].1,
                        )
                }),
            decreases n - j,
        {
            let e = &self.entries[j];
            proof {
                assert(s[j as int] == (e.0@, e.1));
                assert(s.subrange(0, j as int + 1) =~= s.subrange(0, j as int).push(s[j as int]));
                lemma_range_push(s.subrange(0, j as int), s[j as int], pr@, kr@);
            }
            if ck_in_ranges(&e.0, pr, kr) {
                let ck2 = e.0.dup();
                let v2 = e.1.dup();
                out.push((ck2, v2));
            }
            j += 1;
        }
        proof {
            assert(s.subrange(0, n as int) =~= s);
        }
        out
    }
}

/// Keys strictly below `k` in a sorted prefix differ from `k`.
proof fn lemma_keys_below_differ<V>(s: Seq<(CompositeKeyView, V)>, k: CompositeKeyView, j: int)
    requires
        0 <= j <= s.len(),
        forall|i: int| 0 <= i < j ==> ck_lt((#[trigger] s[i]).0, k),
    ensures
        forall|i: int| 0 <= i < j ==> (#[trigger] s[i]).0 != k,
{
    assert forall|i: int| 0 <= i < j implies (#[trigger] s[i]).0 != k by {
        lemma_ck_lt_irrefl(k);
    }
}

/// In a sorted sequence whose first `j` keys lie below `k` and whose entry
/// at `j` (if any) lies above `k`, the key `k` is absent.
proof fn lemma_absent_at<V>(s: Seq<(CompositeKeyView, V)>, k: CompositeKeyView, j: int)
    requires
        entries_sorted(s),
        0 <= j <= s.len(),
        forall|i: int| 0 <= i < j ==> ck_lt((#[trigger] s[i]).0, k),
        j < s.len() ==> ck_lt(k, s[j].0),
    ensures
        spec_get(s, k) is None,
{
    assert forall|i: int| 0 <= i < s.len() implies (#[trigger] s[i]).0 != k by {
        lemma_ck_lt_irrefl(k);
        if i >= j && j < s.len() {
            if i > j {
                lemma_ck_lt_trans(k, s[j].0, s[i].0);
            }
        }
    }
    lemma_get_absent(s, k);
}

/// Under the same circumstances, removal leaves the sequence unchanged.
proof fn lemma_remove_no_match<V>(s: Seq<(CompositeKeyView, V)>, k: CompositeKeyView, j: int)
    requires
        entries_sorted(s),
        0 <= j <= s.len(),
        forall|i: int| 0 <= i < j ==> ck_lt((#[trigger] s[i]).0, k),
        j < s.len() ==> ck_lt(k, s[j].0),
    ensures
        spec_remove(s, k) == s,
{
    assert forall|i: int| 0 <= i < s.len() implies (#[trigger] s[i]).0 != k by {
        lemma_ck_lt_irrefl(k);
        if i >= j && j < s.len() {
            if i > j {
                lemma_ck_lt_trans(k, s[j].0, s[i].0);
            }
        }
    }
    lemma_remove_unchanged(s, k);
}

/// Removal of an absent key is the identity.
proof fn lemma_remove_unchanged<V>(s: Seq<(CompositeKeyView, V)>, k: CompositeKeyView)
    requires
        forall|i: int| 0 <= i < s.len() ==> (#[trigger] s[i]).0 != k,
    ensures
        spec_remove(s, k) == s,
    decreases s.len(),
{
    if s.len() > 0 {
        let t = s.drop_first();
        assert(forall|i: int| 0 <= i < t.len() ==> (#[trigger] t[i]) == s[i + 1]);
        lemma_remove_unchanged(t, k);
        assert(spec_remove(s, k) =~= s);
    }
}

/// A lower bound on every key survives an insert above it.
proof fn lemma_insert_head_bound<V>(
    s: Seq<(CompositeKeyView, V)>,
    k: CompositeKeyView,
    v: V,
    x: CompositeKeyView,
)
    requires
        ck_lt(x, k),
        forall|i: int| 0 <= i < s.len() ==> ck_lt(x, (#[trigger] s[i]).0),
    ensures
        forall|i: int|
            0 <= i < spec_insert(s, k, v).len() ==> ck_lt(x, (#[trigger] spec_insert(s, k, v)[i]).0),
    decreases s.len(),
{
    let out = spec_insert(s, k, v);
    if s.len() == 0 {
    } else if ck_lt(k, s[0].0) {
        assert(forall|i: int| 0 <= i < out.len() ==> i > 0 ==> (#[trigger] out[i]) == s[i - 1]);
    } else if s[0].0 == k {
        assert(forall|i: int|
            0 <= i < out.len() ==> i > 0 ==> (#[trigger] out[i]) == s.drop_first()[i - 1]);
        assert(forall|i: int|
            0 <= i < s.drop_first().len() ==> (#[trigger] s.drop_first()[i]) == s[i + 1]);
    } else {
        assert(forall|i: int|
            0 <= i < s.drop_first().len() ==> (#[trigger] s.drop_first()[i]) == s[i + 1]);
        lemma_insert_head_bound(s.drop_first(), k, v, x);
        assert(forall|i: int|
            0 <= i < out.len() ==> i > 0 ==> (#[trigger] out[i]) == spec_insert(
                s.drop_first(),
                k,
                v,
            )[i - 1]);
    }
}


/// Insertion keeps the entries sorted.
pub proof fn lemma_insert_sorted<V>(s: Seq<(CompositeKeyView, V)>, k: CompositeKeyView, v: V)
    requires
        entries_sorted(s),
    ensures
        entries_sorted(spec_insert(s, k, v)),
    decreases s.len(),
{
    let out = spec_insert(s, k, v);
    if s.len() == 0 {
        assert(out.len() == 1);
    } else if ck_lt(k, s[0].0) {
        assert forall|a: int, b: int|
            0 <= a < b < out.len() implies ck_lt((#[trigger] out[a]).0, (#[trigger] out[b]).0) by {
            assert(out[b] == s[b - 1]);
            if a == 0 {
                if b > 1 {
                    lemma_ck_lt_trans(k, s[0].0, s[b - 1].0);
                }
            } else {
                assert(out[a] == s[a - 1]);
            }
        }
    } else if s[0].0 == k {
        assert forall|a: int, b: int|
            0 <= a < b < out.len() implies ck_lt((#[trigger] out[a]).0, (#[trigger] out[b]).0) by {
            assert(out[b] == s.drop_first()[b - 1]);
            assert(s.drop_first()[b - 1] == s[b]);
            if a > 0 {
                assert(out[a] == s[a]);
            }
        }
    } else {
        lemma_ck_lt_connected(k, s[0].0);
        assert(ck_lt(s[0].0, k));
        lemma_sorted_drop_first(s);
        lemma_insert_sorted(s.drop_first(), k, v);
        assert(forall|i: int|
            0 <= i < s.drop_first().len() ==> (#[trigger] s.drop_first()[i]) == s[i + 1]);
        lemma_insert_head_bound(s.drop_first(), k, v, s[0].0);
        let inner = spec_insert(s.drop_first(), k, v);
        assert forall|a: int, b: int|
            0 <= a < b < out.len() implies ck_lt((#[trigger] out[a]).0, (#[trigger] out[b]).0) by {
            assert(out[b] == inner[b - 1]);
            if a > 0 {
                assert(out[a] == inner[a - 1]);
            }
        }
    }
}


/// The pointwise reading of `spec_insert`: the inserted key maps to the new
/// value and every other key keeps its binding.
pub proof fn lemma_insert_get<V>(s: Seq<(CompositeKeyView, V)>, k: CompositeKeyView, v: V)
    requires
        entries_sorted(s),
    ensures
        spec_get(spec_insert(s, k, v), k) == Some(v),
        forall|k2: CompositeKeyView|
            k2 != k ==> spec_get(spec_insert(s, k, v), k2) == spec_get(s, k2),
    decreases s.len(),
{
    let out = spec_insert(s, k, v);
    if s.len() == 0 {
        assert(out == seq![(k, v)]);
        assert(out[0].0 == k);
        assert(out.drop_first() =~= s);
        assert forall|k2: CompositeKeyView| k2 != k implies spec_get(out, k2) == spec_get(
            s,
            k2,
        ) by {
            assert(spec_get(out, k2) == spec_get(out.drop_first(), k2));
        }
    } else if ck_lt(k, s[0].0) {
        assert(out == seq![(k, v)] + s);
        assert(out[0] == (k, v));
        assert(out.drop_first() =~= s);
        lemma_ck_lt_irrefl(k);
        assert forall|k2: CompositeKeyView| k2 != k implies spec_get(out, k2) == spec_get(
            s,
            k2,
        ) by {
            assert(spec_get(out, k2) == spec_get(s, k2));
        }
    } else if s[0].0 == k {
        assert(out == seq![(k, v)] + s.drop_first());
        assert(out[0] == (k, v));
        assert(out.drop_first() =~= s.drop_first());
        assert forall|k2: CompositeKeyView| k2 != k implies spec_get(out, k2) == spec_get(
            s,
            k2,
        ) by {
            assert(spec_get(out, k2) == spec_get(s.drop_first(), k2));
            assert(spec_get(s, k2) == spec_get(s.drop_first(), k2));
        }
    } else {
        lemma_sorted_drop_first(s);
        lemma_insert_get(s.drop_first(), k, v);
        assert(out == seq![s[0]] + spec_insert(s.drop_first(), k, v));
        assert(out[0] == s[0]);
        assert(out.drop_first() =~= spec_insert(s.drop_first(), k, v));
        assert(out.len() > 0);
        assert(spec_get(out, k) == Some(v));
        assert forall|k2: CompositeKeyView| k2 != k implies spec_get(out, k2) == spec_get(
            s,
            k2,
        ) by {
            if s[0].0 == k2 {
                assert(spec_get(out, k2) == Some(out[0].1));
                assert(spec_get(s, k2) == Some(s[0].1));
            } else {
                assert(spec_get(out, k2) == spec_get(out.drop_first(), k2));
                assert(spec_get(s, k2) == spec_get(s.drop_first(), k2));
            }
        }
    }
}

/// The pointwise reading of `spec_remove`: in a sorted sequence the removed
/// key becomes absent and every other key keeps its binding.
pub proof fn lemma_remove_get<V>(s: Seq<(CompositeKeyView, V)>, k: CompositeKeyView)
    requires
        entries_sorted(s),
    ensures
        spec_get(spec_remove(s, k), k) is None,
        forall|k2: CompositeKeyView|
            k2 != k ==> spec_get(spec_remove(s, k), k2) == spec_get(s, k2),
    decreases s.len(),
{
    let out = spec_remove(s, k);
    if s.len() == 0 {
    } else if s[0].0 == k {
        lemma_sorted_drop_first(s);
        assert(out == s.drop_first());
        assert forall|i: int| 0 <= i < out.len() implies (#[trigger] out[i]).0 != k by {
            assert(out[i] == s[i + 1]);
            assert(ck_lt(s[0].0, s[i + 1].0));
            lemma_ck_lt_irrefl(k);
        }
        lemma_get_absent(out, k);
    } else {
        lemma_sorted_drop_first(s);
        lemma_remove_get(s.drop_first(), k);
        assert(out == seq![s[0]] + spec_remove(s.drop_first(), k));
        assert(out[0] == s[0]);
        assert(out.drop_first() =~= spec_remove(s.drop_first(), k));
        assert(out.len() > 0);
        assert(spec_get(out, k) == spec_get(out.drop_first(), k));
        assert forall|k2: CompositeKeyView| k2 != k implies spec_get(out, k2) == spec_get(
            s,
            k2,
        ) by {
            if s[0].0 == k2 {
                assert(spec_get(out, k2) == Some(out[0].1));
                assert(spec_get(s, k2) == Some(s[0].1));
            } else {
                assert(spec_get(out, k2) == spec_get(out.drop_first(), k2));
                assert(spec_get(s, k2) == spec_get(s.drop_first(), k2));
            }
        }
    }
}

} // verus!
