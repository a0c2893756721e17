//! The store's laws, stated over the same spec functions the executable
//! contracts use.  Each law speaks of one column's entry sequence; the
//! builder's write capabilities ensure the column becomes `spec_insert` /
//! `spec_remove` of its old contents, commit ensures the snapshot carries
//! the builder's columns unchanged, and the read capabilities ensure their
//! results are `spec_get` / `spec_rank` / `spec_range` of the snapshot's
//! columns — so these laws carry over to any write-commit-read sequence.

use vstd::prelude::*;

use crate::column::{
    entries_sorted, lemma_insert_get, lemma_insert_sorted, lemma_rank_split, lemma_remove_get,
    spec_get, spec_insert, spec_rank, spec_remove,
};
use crate::keys::{ck_lt, lemma_ck_lt_asym, lemma_ck_lt_irrefl, CompositeKeyView};

verus! {

/// Round trip: writing a value under a key and then reading that key back
/// yields exactly the written value, whatever the column held before.
pub proof fn lemma_round_trip<V>(s: Seq<(CompositeKeyView, V)>, k: CompositeKeyView, v: V)
    requires
        entries_sorted(s),
    ensures
        spec_get(spec_insert(s, k, v), k) == Some(v),
{
    lemma_insert_get(s, k, v);
}

/// Last write wins: writing twice under one key before reading yields the
/// second value.
pub proof fn lemma_overwrite<V>(
    s: Seq<(CompositeKeyView, V)>,
    k: CompositeKeyView,
    v1: V,
    v2: V,
)
    requires
        entries_sorted(s),
    ensures
        spec_get(spec_insert(spec_insert(s, k, v1), k, v2), k) == Some(v2),
{
    lemma_insert_sorted(s, k, v1);
    lemma_insert_get(spec_insert(s, k, v1), k, v2);
}

/// Removal: writing a value under a key and then removing the key leaves the
/// key absent, and every other key's binding untouched.
pub proof fn lemma_write_then_remove<V>(s: Seq<(CompositeKeyView, V)>, k: CompositeKeyView, v: V)
    requires
        entries_sorted(s),
    ensures
        spec_get(spec_remove(spec_insert(s, k, v), k), k) is None,
        forall|k2: CompositeKeyView|
            k2 != k ==> spec_get(spec_remove(spec_insert(s, k, v), k), k2) == spec_get(s, k2),
{
    lemma_insert_sorted(s, k, v);
    lemma_insert_get(s, k, v);
    lemma_remove_get(spec_insert(s, k, v), k);
}

/// Rank/count consistency, upper side: at a key strictly greater than every
/// stored key, the rank equals the column's entry count.
pub proof fn lemma_rank_at_upper_bound<V>(s: Seq<(CompositeKeyView, V)>, k: CompositeKeyView)
    requires
        forall|i: int| 0 <= i < s.len() ==> ck_lt((#[trigger] s[i]).0, k),
    ensures
        spec_rank(s, k) == s.len(),
{
    lemma_rank_split(s, k, s.len() as int);
}

/// Rank/count consistency, lower side: at the minimum stored key, the rank
/// is zero.
pub proof fn lemma_rank_at_minimum<V>(s: Seq<(CompositeKeyView, V)>, k: CompositeKeyView)
    requires
        entries_sorted(s),
        s.len() > 0,
        k == s[0].0,
    ensures
        spec_rank(s, k) == 0,
{
    assert forall|i: int| 0 <= i < s.len() implies !ck_lt((#[trigger] s[i]).0, k) by {
        lemma_ck_lt_irrefl(k);
        if i > 0 {
            lemma_ck_lt_asym(s[0].0, s[i].0);
        }
    }
    lemma_rank_split(s, k, 0);
}

} // verus!
