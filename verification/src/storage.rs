//! The two lifecycle phases of a block and the per-type capability traits.
//!
//! [`StorageBuilder`] is the mutable build phase: one ordered column per
//! value type.  [`Storage`] is the sealed read phase: the same columns,
//! immutable, behind shared ownership so that cloning a snapshot is O(1).
//! [`Writeable`] is the write capability (insert/remove against a builder);
//! [`Readable`] is the read capability (point lookup, bounded range scan,
//! count, membership, ordinal rank against a snapshot).

use vstd::prelude::*;

use std::sync::Arc;

use crate::column::{
    entries_sorted, spec_contains, spec_get, spec_insert, spec_range, spec_rank, spec_remove,
    Column, Dup,
};
use crate::keys::{ck_of, CompositeKey, CompositeKeyView, Float32, KeyWrapper};
use crate::ranges::{ck_in_ranges, KeyRange, PrefixRange};
use crate::values::{bitmap_elems, Bitmap, DataRecord, SpannPostingList};

verus! {

/// Failure of a storage capability.
#[derive(Clone, Copy, Debug, PartialEq, Eq, Structural)]
pub enum StorageError {
    /// The value type's capabilities are recognised as unimplemented.
    Unimplemented,
    /// Commit was asked for a session identifier with no registered build
    /// session: an unknown identifier, or one already committed.
    UnknownSession,
}

/// The mathematical contents of one block: every column's entry sequence,
/// plus the session identifier.
#[verifier::ext_equal]
pub struct ColumnsView {
    pub bools: Seq<(CompositeKeyView, bool)>,
    pub strings: Seq<(CompositeKeyView, String)>,
    pub u32s: Seq<(CompositeKeyView, u32)>,
    pub f32s: Seq<(CompositeKeyView, Float32)>,
    pub bitmaps: Seq<(CompositeKeyView, Bitmap)>,
    pub u32_arrays: Seq<(CompositeKeyView, Vec<u32>)>,
    pub record_ids: Seq<(CompositeKeyView, String)>,
    pub record_embeddings: Seq<(CompositeKeyView, Vec<Float32>)>,
    pub id: u128,
}

/// The keys of an entry sequence, in order.
pub open spec fn keys_of<V>(s: Seq<(CompositeKeyView, V)>) -> Seq<CompositeKeyView> {
    s.map_values(|e: (CompositeKeyView, V)| e.0)
}

/// Every column sorted strictly ascending, and the two record columns
/// aligned key-for-key (the compound write keeps them so).
pub open spec fn columns_wf(v: ColumnsView) -> bool {
    &&& entries_sorted(v.bools)
    &&& entries_sorted(v.strings)
    &&& entries_sorted(v.u32s)
    &&& entries_sorted(v.f32s)
    &&& entries_sorted(v.bitmaps)
    &&& entries_sorted(v.u32_arrays)
    &&& entries_sorted(v.record_ids)
    &&& entries_sorted(v.record_embeddings)
    &&& keys_of(v.record_ids) == keys_of(v.record_embeddings)
}

/// The contents of a freshly created block: every column empty.
pub open spec fn empty_columns(id: u128) -> ColumnsView {
    ColumnsView {
        bools: Seq::empty(),
        strings: Seq::empty(),
        u32s: Seq::empty(),
        f32s: Seq::empty(),
        bitmaps: Seq::empty(),
        u32_arrays: Seq::empty(),
        record_ids: Seq::empty(),
        record_embeddings: Seq::empty(),
        id,
    }
}

/// Dropping the first entry commutes with taking keys.
proof fn lemma_keys_of_drop<V>(s: Seq<(CompositeKeyView, V)>)
    requires
        s.len() > 0,
    ensures
        keys_of(s.drop_first()) == keys_of(s).drop_first(),
{
    assert forall|i: int|
        0 <= i < s.drop_first().len() implies keys_of(s.drop_first())[i] == keys_of(
        s,
    ).drop_first()[i] by {
        assert(keys_of(s.drop_first())[i] == s.drop_first()[i].0);
        assert(s.drop_first()[i] == s[i + 1]);
        assert(keys_of(s).drop_first()[i] == keys_of(s)[i + 1]);
        assert(keys_of(s)[i + 1] == s[i + 1].0);
    }
    assert(keys_of(s.drop_first()) =~= keys_of(s).drop_first());
}

/// Parallel inserts under one key keep two columns key-aligned.
proof fn lemma_insert_keys_parallel<V1, V2>(
    s1: Seq<(CompositeKeyView, V1)>,
    s2: Seq<(CompositeKeyView, V2)>,
    k: CompositeKeyView,
    v1: V1,
    v2: V2,
)
    requires
        keys_of(s1) == keys_of(s2),
    ensures
        keys_of(spec_insert(s1, k, v1)) == keys_of(spec_insert(s2, k, v2)),
    decreases s1.len(),
{
    assert(keys_of(s1).len() == s1.len());
    assert(keys_of(s2).len() == s2.len());
    if s1.len() == 0 {
        assert(keys_of(spec_insert(s1, k, v1)) =~= seq![k]);
        assert(keys_of(spec_insert(s2, k, v2)) =~= seq![k]);
    } else {
        assert(s1[0].0 == keys_of(s1)[0]);
        assert(s2[0].0 == keys_of(s2)[0]);
        assert(s1[0].0 == s2[0].0);
        if crate::keys::ck_lt(k, s1[0].0) {
            assert(keys_of(spec_insert(s1, k, v1)) =~= seq![k] + keys_of(s1));
            assert(keys_of(spec_insert(s2, k, v2)) =~= seq![k] + keys_of(s2));
        } else if s1[0].0 == k {
            assert(keys_of(spec_insert(s1, k, v1)) =~= seq![k] + keys_of(s1.drop_first()));
            assert(keys_of(spec_insert(s2, k, v2)) =~= seq![k] + keys_of(s2.drop_first()));
            lemma_keys_of_drop(s1);
            lemma_keys_of_drop(s2);
            assert(keys_of(s1.drop_first()) == keys_of(s2.drop_first()));
        } else {
            lemma_keys_of_drop(s1);
            lemma_keys_of_drop(s2);
            assert(keys_of(s1.drop_first()) == keys_of(s2.drop_first()));
            lemma_insert_keys_parallel(s1.drop_first(), s2.drop_first(), k, v1, v2);
            assert(keys_of(spec_insert(s1, k, v1)) =~= seq![s1[0].0] + keys_of(
                spec_insert(s1.drop_first(), k, v1),
            ));
            assert(keys_of(spec_insert(s2, k, v2)) =~= seq![s2[0].0] + keys_of(
                spec_insert(s2.drop_first(), k, v2),
            ));
        }
    }
}

/// Parallel removals under one key keep two columns key-aligned.
proof fn lemma_remove_keys_parallel<V1, V2>(
    s1: Seq<(CompositeKeyView, V1)>,
    s2: Seq<(CompositeKeyView, V2)>,
    k: CompositeKeyView,
)
    requires
        keys_of(s1) == keys_of(s2),
    ensures
        keys_of(spec_remove(s1, k)) == keys_of(spec_remove(s2, k)),
    decreases s1.len(),
{
    assert(keys_of(s1).len() == s1.len());
    assert(keys_of(s2).len() == s2.len());
    if s1.len() > 0 {
        assert(s1[0].0 == keys_of(s1)[0]);
        assert(s2[0].0 == keys_of(s2)[0]);
        assert(s1[0].0 == s2[0].0);
        lemma_keys_of_drop(s1);
        lemma_keys_of_drop(s2);
        assert(keys_of(s1.drop_first()) == keys_of(s2.drop_first()));
        if s1[0].0 == k {
            assert(keys_of(spec_remove(s1, k)) =~= keys_of(s1.drop_first()));
            assert(keys_of(spec_remove(s2, k)) =~= keys_of(s2.drop_first()));
        } else {
            lemma_remove_keys_parallel(s1.drop_first(), s2.drop_first(), k);
            assert(keys_of(spec_remove(s1, k)) =~= seq![s1[0].0] + keys_of(
                spec_remove(s1.drop_first(), k),
            ));
            assert(keys_of(spec_remove(s2, k)) =~= seq![s2[0].0] + keys_of(
                spec_remove(s2.drop_first(), k),
            ));
        }
    }
}

/// The mutable build phase: one independently addressed ordered column per
/// value type, all belonging to one build session.  Cloning a builder gives
/// an independent copy of its staged contents under the same session
/// identifier; only one of the two can ever be committed.
#[derive(Clone)]
pub struct StorageBuilder {
    bool_storage: Column<bool>,
    string_value_storage: Column<String>,
    u32_storage: Column<u32>,
    f32_storage: Column<Float32>,
    roaring_bitmap_storage: Column<Bitmap>,
    uint32_array_storage: Column<Vec<u32>>,
    data_record_id_storage: Column<String>,
    data_record_embedding_storage: Column<Vec<Float32>>,
    id: u128,
}

impl View for StorageBuilder {
    type V = ColumnsView;

    closed spec fn view(&self) -> ColumnsView {
        ColumnsView {
            bools: self.bool_storage@,
            strings: self.string_value_storage@,
            u32s: self.u32_storage@,
            f32s: self.f32_storage@,
            bitmaps: self.roaring_bitmap_storage@,
            u32_arrays: self.uint32_array_storage@,
            record_ids: self.data_record_id_storage@,
            record_embeddings: self.data_record_embedding_storage@,
            id: self.id,
        }
    }
}

impl StorageBuilder {
    pub open spec fn wf(&self) -> bool {
        columns_wf(self@)
    }

    /// A builder with every column present but empty, for one session.
    pub fn new(id: u128) -> (b: StorageBuilder)
        ensures
            b@ == empty_columns(id),
            b.wf(),
    {
        let b = StorageBuilder {
            bool_storage: Column::new(),
            string_value_storage: Column::new(),
            u32_storage: Column::new(),
            f32_storage: Column::new(),
            roaring_bitmap_storage: Column::new(),
            uint32_array_storage: Column::new(),
            data_record_id_storage: Column::new(),
            data_record_embedding_storage: Column::new(),
            id,
        };
        proof {
            assert(b@ =~= empty_columns(id));
            assert(keys_of(b@.record_ids) =~= keys_of(b@.record_embeddings));
        }
        b
    }

    /// The session identifier this builder belongs to.
    pub fn id(&self) -> (r: u128)
        ensures
            r == self@.id,
    {
        self.id
    }

    /// Seals the builder: consumes its columns and wraps them for shared
    /// immutable access.  One-way; the builder is gone afterwards.
    pub fn seal(self) -> (s: Storage)
        ensures
            s@ == self@,
            self.wf() ==> s.wf(),
    {
        let StorageBuilder {
            bool_storage,
            string_value_storage,
            u32_storage,
            f32_storage,
            roaring_bitmap_storage,
            uint32_array_storage,
            data_record_id_storage,
            data_record_embedding_storage,
            id,
        } = self;
        let s = Storage {
            cols: Arc::new(
                StorageColumns {
                    bool_storage,
                    string_value_storage,
                    u32_storage,
                    f32_storage,
                    roaring_bitmap_storage,
                    uint32_array_storage,
                    data_record_id_storage,
                    data_record_embedding_storage,
                    id,
                },
            ),
        };
        proof {
            assert(s@ =~= self@);
        }
        s
    }
}

struct StorageColumns {
    bool_storage: Column<bool>,
    string_value_storage: Column<String>,
    u32_storage: Column<u32>,
    f32_storage: Column<Float32>,
    roaring_bitmap_storage: Column<Bitmap>,
    uint32_array_storage: Column<Vec<u32>>,
    data_record_id_storage: Column<String>,
    data_record_embedding_storage: Column<Vec<Float32>>,
    id: u128,
}

/// The sealed read phase: the same columns as the builder that produced it,
/// immutable, shared, safe for concurrent unsynchronized reads.  No
/// operation on a snapshot mutates it.
pub struct Storage {
    cols: Arc<StorageColumns>,
}

impl View for Storage {
    type V = ColumnsView;

    closed spec fn view(&self) -> ColumnsView {
        ColumnsView {
            bools: self.cols.bool_storage@,
            strings: self.cols.string_value_storage@,
            u32s: self.cols.u32_storage@,
            f32s: self.cols.f32_storage@,
            bitmaps: self.cols.roaring_bitmap_storage@,
            u32_arrays: self.cols.uint32_array_storage@,
            record_ids: self.cols.data_record_id_storage@,
            record_embeddings: self.cols.data_record_embedding_storage@,
            id: self.cols.id,
        }
    }
}

/// Relies on std's `Arc::clone`: the clone shares the allocation, so it
/// carries the same columns; no copy is made.
#[verifier::external_body]
fn arc_dup(a: &Arc<StorageColumns>) -> (r: Arc<StorageColumns>)
    ensures
        r == *a,
{
    Arc::clone(a)
}

impl Storage {
    pub open spec fn wf(&self) -> bool {
        columns_wf(self@)
    }

    /// The session identifier this snapshot was sealed under.
    pub fn id(&self) -> (r: u128)
        ensures
            r == self@.id,
    {
        self.cols.id
    }

    /// An O(1) handle to the same sealed columns.
    pub fn duplicate(&self) -> (r: Storage)
        ensures
            r == *self,
    {
        Storage { cols: arc_dup(&self.cols) }
    }
}

/// The write capability: the only legal mutators during the build phase.
pub trait Writeable: Sized {
    /// Inserts (or overwrites) `value` under `(prefix, key)` in this value
    /// type's column(s).
    fn write_to_storage(
        prefix: &str,
        key: KeyWrapper,
        value: Self,
        storage: &mut StorageBuilder,
    ) -> (r: Result<(), StorageError>)
        requires
            old(storage).wf(),
        ensures
            final(storage).wf(),
            final(storage)@.id == old(storage)@.id,
    ;

    /// Deletes the entry under `(prefix, key)`; a no-op if absent.
    fn remove_from_storage(prefix: &str, key: KeyWrapper, storage: &mut StorageBuilder) -> (r:
        Result<(), StorageError>)
        requires
            old(storage).wf(),
        ensures
            final(storage).wf(),
            final(storage)@.id == old(storage)@.id,
    ;
}

/// The read capability against a sealed snapshot.
pub trait Readable: Sized {
    /// Point lookup; absent is not an error.
    fn read_from_storage(prefix: &str, key: KeyWrapper, storage: &Storage) -> (r: Result<
        Option<Self>,
        StorageError,
    >)
        requires
            storage.wf(),
    ;

    /// Every stored entry whose prefix lies within `prefix_range` and whose
    /// key lies within `key_range`, independently evaluated, in ascending
    /// key order, as a fresh materialization.
    fn read_range_from_storage(
        prefix_range: &PrefixRange,
        key_range: &KeyRange,
        storage: &Storage,
    ) -> (r: Result<Vec<(CompositeKey, Self)>, StorageError>)
        requires
            storage.wf(),
    ;

    /// Total entries in this value type's column.
    fn count(storage: &Storage) -> (r: Result<usize, StorageError>)
        requires
            storage.wf(),
    ;

    /// Membership test.
    fn contains(prefix: &str, key: KeyWrapper, storage: &Storage) -> (r: Result<
        bool,
        StorageError,
    >)
        requires
            storage.wf(),
    ;

    /// The number of entries strictly less than `(prefix, key)`: the
    /// 0-based position that key would occupy.
    fn rank(prefix: &str, key: KeyWrapper, storage: &Storage) -> (r: Result<usize, StorageError>)
        requires
            storage.wf(),
    ;
}

/// Builds the composite key a capability call addresses.
fn make_ck(prefix: &str, key: KeyWrapper) -> (ck: CompositeKey)
    ensures
        ck@ == ck_of(prefix@, key@),
{
    CompositeKey { prefix: prefix.to_owned(), key }
}


impl Writeable for bool {
    fn write_to_storage(
        prefix: &str,
        key: KeyWrapper,
        value: bool,
        storage: &mut StorageBuilder,
    ) -> (r: Result<(), StorageError>)
        ensures
            r is Ok,
            final(storage)@ == (ColumnsView {
                bools: spec_insert(old(storage)@.bools, ck_of(prefix@, key@), value),
                ..old(storage)@
            }),
    {
        let ghost gv = value;
        let ck = make_ck(prefix, key);
        storage.bool_storage.insert(ck, value);
        proof {
            assert(storage@ =~= (ColumnsView {
                bools: spec_insert(old(storage)@.bools, ck_of(prefix@, key@), gv),
                ..old(storage)@
            }));
        }
        Ok(())
    }

    fn remove_from_storage(prefix: &str, key: KeyWrapper, storage: &mut StorageBuilder) -> (r:
        Result<(), StorageError>)
        ensures
            r is Ok,
            final(storage)@ == (ColumnsView {
                bools: spec_remove(old(storage)@.bools, ck_of(prefix@, key@)),
                ..old(storage)@
            }),
    {
        let ck = make_ck(prefix, key);
        storage.bool_storage.remove(&ck);
        proof {
            assert(storage@ =~= (ColumnsView {
                bools: spec_remove(old(storage)@.bools, ck_of(prefix@, key@)),
                ..old(storage)@
            }));
        }
        Ok(())
    }
}

impl Readable for bool {
    fn read_from_storage(prefix: &str, key: KeyWrapper, storage: &Storage) -> (r: Result<
        Option<bool>,
        StorageError,
    >)
        ensures
            r matches Ok(o) && o == spec_get(storage@.bools, ck_of(prefix@, key@)),
    {
        let ck = make_ck(prefix, key);
        match storage.cols.bool_storage.get(&ck) {
            Some(v) => Ok(Some(*v)),
            None => Ok(None),
        }
    }

    fn read_range_from_storage(
        prefix_range: &PrefixRange,
        key_range: &KeyRange,
        storage: &Storage,
    ) -> (r: Result<Vec<(CompositeKey, bool)>, StorageError>)
        ensures
            r is Ok,
            ({
                let f = spec_range(storage@.bools, prefix_range@, key_range@);
                let out = r->Ok_0;
                &&& out@.len() == f.len()
                &&& forall|i: int|
                    0 <= i < f.len() ==> (#[trigger] out@[i]).0@ == f[i].0 && out@[i].1 == f[i].1
            }),
    {
        Ok(storage.cols.bool_storage.read_range(prefix_range, key_range))
    }

    fn count(storage: &Storage) -> (r: Result<usize, StorageError>)
        ensures
            r matches Ok(n) && n == storage@.bools.len(),
    {
        Ok(storage.cols.bool_storage.count())
    }

    fn contains(prefix: &str, key: KeyWrapper, storage: &Storage) -> (r: Result<
        bool,
        StorageError,
    >)
        ensures
            r matches Ok(b) && b == spec_contains(storage@.bools, ck_of(prefix@, key@)),
    {
        let ck = make_ck(prefix, key);
        Ok(storage.cols.bool_storage.contains(&ck))
    }

    fn rank(prefix: &str, key: KeyWrapper, storage: &Storage) -> (r: Result<usize, StorageError>)
        ensures
            r matches Ok(n) && n == spec_rank(storage@.bools, ck_of(prefix@, key@)),
    {
        let ck = make_ck(prefix, key);
        Ok(storage.cols.bool_storage.rank(&ck))
    }
}

impl Writeable for String {
    fn write_to_storage(
        prefix: &str,
        key: KeyWrapper,
        value: String,
        storage: &mut StorageBuilder,
    ) -> (r: Result<(), StorageError>)
        ensures
            r is Ok,
            final(storage)@ == (ColumnsView {
                strings: spec_insert(old(storage)@.strings, ck_of(prefix@, key@), value),
                ..old(storage)@
            }),
    {
        let ghost gv = value;
        let ck = make_ck(prefix, key);
        storage.string_value_storage.insert(ck, value);
        proof {
            assert(storage@ =~= (ColumnsView {
                strings: spec_insert(old(storage)@.strings, ck_of(prefix@, key@), gv),
                ..old(storage)@
            }));
        }
        Ok(())
    }

    fn remove_from_storage(prefix: &str, key: KeyWrapper, storage: &mut StorageBuilder) -> (r:
        Result<(), StorageError>)
        ensures
            r is Ok,
            final(storage)@ == (ColumnsView {
                strings: spec_remove(old(storage)@.strings, ck_of(prefix@, key@)),
                ..old(storage)@
            }),
    {
        let ck = make_ck(prefix, key);
        storage.string_value_storage.remove(&ck);
        proof {
            assert(storage@ =~= (ColumnsView {
                strings: spec_remove(old(storage)@.strings, ck_of(prefix@, key@)),
                ..old(storage)@
            }));
        }
        Ok(())
    }
}

impl Readable for String {
    fn read_from_storage(prefix: &str, key: KeyWrapper, storage: &Storage) -> (r: Result<
        Option<String>,
        StorageError,
    >)
        ensures
            r matches Ok(o) && o == spec_get(storage@.strings, ck_of(prefix@, key@)),
    {
        let ck = make_ck(prefix, key);
        match storage.cols.string_value_storage.get(&ck) {
            Some(v) => Ok(Some(v.clone())),
            None => Ok(None),
        }
    }

    fn read_range_from_storage(
        prefix_range: &PrefixRange,
        key_range: &KeyRange,
        storage: &Storage,
    ) -> (r: Result<Vec<(CompositeKey, String)>, StorageError>)
        ensures
            r is Ok,
            ({
                let f = spec_range(storage@.strings, prefix_range@, key_range@);
                let out = r->Ok_0;
                &&& out@.len() == f.len()
                &&& forall|i: int|
                    0 <= i < f.len() ==> (#[trigger] out@[i]).0@ == f[i].0 && out@[i].1 == f[i].1
            }),
    {
        Ok(storage.cols.string_value_storage.read_range(prefix_range, key_range))
    }

    fn count(storage: &Storage) -> (r: Result<usize, StorageError>)
        ensures
            r matches Ok(n) && n == storage@.strings.len(),
    {
        Ok(storage.cols.string_value_storage.count())
    }

    fn contains(prefix: &str, key: KeyWrapper, storage: &Storage) -> (r: Result<
        bool,
        StorageError,
    >)
        ensures
            r matches Ok(b) && b == spec_contains(storage@.strings, ck_of(prefix@, key@)),
    {
        let ck = make_ck(prefix, key);
        Ok(storage.cols.string_value_storage.contains(&ck))
    }

    fn rank(prefix: &str, key: KeyWrapper, storage: &Storage) -> (r: Result<usize, StorageError>)
        ensures
            r matches Ok(n) && n == spec_rank(storage@.strings, ck_of(prefix@, key@)),
    {
        let ck = make_ck(prefix, key);
        Ok(storage.cols.string_value_storage.rank(&ck))
    }
}

impl Writeable for u32 {
    fn write_to_storage(
        prefix: &str,
        key: KeyWrapper,
        value: u32,
        storage: &mut StorageBuilder,
    ) -> (r: Result<(), StorageError>)
        ensures
            r is Ok,
            final(storage)@ == (ColumnsView {
                u32s: spec_insert(old(storage)@.u32s, ck_of(prefix@, key@), value),
                ..old(storage)@
            }),
    {
        let ghost gv = value;
        let ck = make_ck(prefix, key);
        storage.u32_storage.insert(ck, value);
        proof {
            assert(storage@ =~= (ColumnsView {
                u32s: spec_insert(old(storage)@.u32s, ck_of(prefix@, key@), gv),
                ..old(storage)@
            }));
        }
        Ok(())
    }

    fn remove_from_storage(prefix: &str, key: KeyWrapper, storage: &mut StorageBuilder) -> (r:
        Result<(), StorageError>)
        ensures
            r is Ok,
            final(storage)@ == (ColumnsView {
                u32s: spec_remove(old(storage)@.u32s, ck_of(prefix@, key@)),
                ..old(storage)@
            }),
    {
        let ck = make_ck(prefix, key);
        storage.u32_storage.remove(&ck);
        proof {
            assert(storage@ =~= (ColumnsView {
                u32s: spec_remove(old(storage)@.u32s, ck_of(prefix@, key@)),
                ..old(storage)@
            }));
        }
        Ok(())
    }
}

impl Readable for u32 {
    fn read_from_storage(prefix: &str, key: KeyWrapper, storage: &Storage) -> (r: Result<
        Option<u32>,
        StorageError,
    >)
        ensures
            r matches Ok(o) && o == spec_get(storage@.u32s, ck_of(prefix@, key@)),
    {
        let ck = make_ck(prefix, key);
        match storage.cols.u32_storage.get(&ck) {
            Some(v) => Ok(Some(*v)),
            None => Ok(None),
        }
    }

    fn read_range_from_storage(
        prefix_range: &PrefixRange,
        key_range: &KeyRange,
        storage: &Storage,
    ) -> (r: Result<Vec<(CompositeKey, u32)>, StorageError>)
        ensures
            r is Ok,
            ({
                let f = spec_range(storage@.u32s, prefix_range@, key_range@);
                let out = r->Ok_0;
                &&& out@.len() == f.len()
                &&& forall|i: int|
                    0 <= i < f.len() ==> (#[trigger] out@[i]).0@ == f[i].0 && out@[i].1 == f[i].1
            }),
    {
        Ok(storage.cols.u32_storage.read_range(prefix_range, key_range))
    }

    fn count(storage: &Storage) -> (r: Result<usize, StorageError>)
        ensures
            r matches Ok(n) && n == storage@.u32s.len(),
    {
        Ok(storage.cols.u32_storage.count())
    }

    fn contains(prefix: &str, key: KeyWrapper, storage: &Storage) -> (r: Result<
        bool,
        StorageError,
    >)
        ensures
            r matches Ok(b) && b == spec_contains(storage@.u32s, ck_of(prefix@, key@)),
    {
        let ck = make_ck(prefix, key);
        Ok(storage.cols.u32_storage.contains(&ck))
    }

    fn rank(prefix: &str, key: KeyWrapper, storage: &Storage) -> (r: Result<usize, StorageError>)
        ensures
            r matches Ok(n) && n == spec_rank(storage@.u32s, ck_of(prefix@, key@)),
    {
        let ck = make_ck(prefix, key);
        Ok(storage.cols.u32_storage.rank(&ck))
    }
}

impl Writeable for Float32 {
    fn write_to_storage(
        prefix: &str,
        key: KeyWrapper,
        value: Float32,
        storage: &mut StorageBuilder,
    ) -> (r: Result<(), StorageError>)
        ensures
            r is Ok,
            final(storage)@ == (ColumnsView {
                f32s: spec_insert(old(storage)@.f32s, ck_of(prefix@, key@), value),
                ..old(storage)@
            }),
    {
        let ghost gv = value;
        let ck = make_ck(prefix, key);
        storage.f32_storage.insert(ck, value);
        proof {
            assert(storage@ =~= (ColumnsView {
                f32s: spec_insert(old(storage)@.f32s, ck_of(prefix@, key@), gv),
                ..old(storage)@
            }));
        }
        Ok(())
    }

    fn remove_from_storage(prefix: &str, key: KeyWrapper, storage: &mut StorageBuilder) -> (r:
        Result<(), StorageError>)
        ensures
            r is Ok,
            final(storage)@ == (ColumnsView {
                f32s: spec_remove(old(storage)@.f32s, ck_of(prefix@, key@)),
                ..old(storage)@
            }),
    {
        let ck = make_ck(prefix, key);
        storage.f32_storage.remove(&ck);
        proof {
            assert(storage@ =~= (ColumnsView {
                f32s: spec_remove(old(storage)@.f32s, ck_of(prefix@, key@)),
                ..old(storage)@
            }));
        }
        Ok(())
    }
}

impl Readable for Float32 {
    fn read_from_storage(prefix: &str, key: KeyWrapper, storage: &Storage) -> (r: Result<
        Option<Float32>,
        StorageError,
    >)
        ensures
            r matches Ok(o) && o == spec_get(storage@.f32s, ck_of(prefix@, key@)),
    {
        let ck = make_ck(prefix, key);
        match storage.cols.f32_storage.get(&ck) {
            Some(v) => Ok(Some(*v)),
            None => Ok(None),
        }
    }

    fn read_range_from_storage(
        prefix_range: &PrefixRange,
        key_range: &KeyRange,
        storage: &Storage,
    ) -> (r: Result<Vec<(CompositeKey, Float32)>, StorageError>)
        ensures
            r is Ok,
            ({
                let f = spec_range(storage@.f32s, prefix_range@, key_range@);
                let out = r->Ok_0;
                &&& out@.len() == f.len()
                &&& forall|i: int|
                    0 <= i < f.len() ==> (#[trigger] out@[i]).0@ == f[i].0 && out@[i].1 == f[i].1
            }),
    {
        Ok(storage.cols.f32_storage.read_range(prefix_range, key_range))
    }

    fn count(storage: &Storage) -> (r: Result<usize, StorageError>)
        ensures
            r matches Ok(n) && n == storage@.f32s.len(),
    {
        Ok(storage.cols.f32_storage.count())
    }

    fn contains(prefix: &str, key: KeyWrapper, storage: &Storage) -> (r: Result<
        bool,
        StorageError,
    >)
        ensures
            r matches Ok(b) && b == spec_contains(storage@.f32s, ck_of(prefix@, key@)),
    {
        let ck = make_ck(prefix, key);
        Ok(storage.cols.f32_storage.contains(&ck))
    }

    fn rank(prefix: &str, key: KeyWrapper, storage: &Storage) -> (r: Result<usize, StorageError>)
        ensures
            r matches Ok(n) && n == spec_rank(storage@.f32s, ck_of(prefix@, key@)),
    {
        let ck = make_ck(prefix, key);
        Ok(storage.cols.f32_storage.rank(&ck))
    }
}

impl Writeable for Bitmap {
    fn write_to_storage(
        prefix: &str,
        key: KeyWrapper,
        value: Bitmap,
        storage: &mut StorageBuilder,
    ) -> (r: Result<(), StorageError>)
        ensures
            r is Ok,
            final(storage)@ == (ColumnsView {
                bitmaps: spec_insert(old(storage)@.bitmaps, ck_of(prefix@, key@), value),
                ..old(storage)@
            }),
    {
        let ghost gv = value;
        let ck = make_ck(prefix, key);
        storage.roaring_bitmap_storage.insert(ck, value);
        proof {
            assert(storage@ =~= (ColumnsView {
                bitmaps: spec_insert(old(storage)@.bitmaps, ck_of(prefix@, key@), gv),
                ..old(storage)@
            }));
        }
        Ok(())
    }

    fn remove_from_storage(prefix: &str, key: KeyWrapper, storage: &mut StorageBuilder) -> (r:
        Result<(), StorageError>)
        ensures
            r is Ok,
            final(storage)@ == (ColumnsView {
                bitmaps: spec_remove(old(storage)@.bitmaps, ck_of(prefix@, key@)),
                ..old(storage)@
            }),
    {
        let ck = make_ck(prefix, key);
        storage.roaring_bitmap_storage.remove(&ck);
        proof {
            assert(storage@ =~= (ColumnsView {
                bitmaps: spec_remove(old(storage)@.bitmaps, ck_of(prefix@, key@)),
                ..old(storage)@
            }));
        }
        Ok(())
    }
}

impl Readable for Bitmap {
    fn read_from_storage(prefix: &str, key: KeyWrapper, storage: &Storage) -> (r: Result<
        Option<Bitmap>,
        StorageError,
    >)
        ensures
            r is Ok,
            (r->Ok_0 is Some) == spec_contains(storage@.bitmaps, ck_of(prefix@, key@)),
            r->Ok_0 matches Some(v) ==> spec_get(storage@.bitmaps, ck_of(prefix@, key@)) matches Some(
                w,
            ) && bitmap_elems(v.inner) == bitmap_elems(w.inner),
    {
        let ck = make_ck(prefix, key);
        match storage.cols.roaring_bitmap_storage.get(&ck) {
            Some(v) => Ok(Some(v.dup())),
            None => Ok(None),
        }
    }

    fn read_range_from_storage(
        prefix_range: &PrefixRange,
        key_range: &KeyRange,
        storage: &Storage,
    ) -> (r: Result<Vec<(CompositeKey, Bitmap)>, StorageError>)
        ensures
            r is Ok,
            ({
                let f = spec_range(storage@.bitmaps, prefix_range@, key_range@);
                let out = r->Ok_0;
                &&& out@.len() == f.len()
                &&& forall|i: int|
                    0 <= i < f.len() ==> (#[trigger] out@[i]).0@ == f[i].0 && bitmap_elems(out@[i].1.inner) == bitmap_elems(f[i].1.inner)
            }),
    {
        Ok(storage.cols.roaring_bitmap_storage.read_range(prefix_range, key_range))
    }

    fn count(storage: &Storage) -> (r: Result<usize, StorageError>)
        ensures
            r matches Ok(n) && n == storage@.bitmaps.len(),
    {
        Ok(storage.cols.roaring_bitmap_storage.count())
    }

    fn contains(prefix: &str, key: KeyWrapper, storage: &Storage) -> (r: Result<
        bool,
        StorageError,
    >)
        ensures
            r matches Ok(b) && b == spec_contains(storage@.bitmaps, ck_of(prefix@, key@)),
    {
        let ck = make_ck(prefix, key);
        Ok(storage.cols.roaring_bitmap_storage.contains(&ck))
    }

    fn rank(prefix: &str, key: KeyWrapper, storage: &Storage) -> (r: Result<usize, StorageError>)
        ensures
            r matches Ok(n) && n == spec_rank(storage@.bitmaps, ck_of(prefix@, key@)),
    {
        let ck = make_ck(prefix, key);
        Ok(storage.cols.roaring_bitmap_storage.rank(&ck))
    }
}

impl Writeable for Vec<u32> {
    fn write_to_storage(
        prefix: &str,
        key: KeyWrapper,
        value: Vec<u32>,
        storage: &mut StorageBuilder,
    ) -> (r: Result<(), StorageError>)
        ensures
            r is Ok,
            final(storage)@ == (ColumnsView {
                u32_arrays: spec_insert(old(storage)@.u32_arrays, ck_of(prefix@, key@), value),
                ..old(storage)@
            }),
    {
        let ghost gv = value;
        let ck = make_ck(prefix, key);
        storage.uint32_array_storage.insert(ck, value);
        proof {
            assert(storage@ =~= (ColumnsView {
                u32_arrays: spec_insert(old(storage)@.u32_arrays, ck_of(prefix@, key@), gv),
                ..old(storage)@
            }));
        }
        Ok(())
    }

    fn remove_from_storage(prefix: &str, key: KeyWrapper, storage: &mut StorageBuilder) -> (r:
        Result<(), StorageError>)
        ensures
            r is Ok,
            final(storage)@ == (ColumnsView {
                u32_arrays: spec_remove(old(storage)@.u32_arrays, ck_of(prefix@, key@)),
                ..old(storage)@
            }),
    {
        let ck = make_ck(prefix, key);
        storage.uint32_array_storage.remove(&ck);
        proof {
            assert(storage@ =~= (ColumnsView {
                u32_arrays: spec_remove(old(storage)@.u32_arrays, ck_of(prefix@, key@)),
                ..old(storage)@
            }));
        }
        Ok(())
    }
}

impl Readable for Vec<u32> {
    fn read_from_storage(prefix: &str, key: KeyWrapper, storage: &Storage) -> (r: Result<
        Option<Vec<u32>>,
        StorageError,
    >)
        ensures
            r is Ok,
            (r->Ok_0 is Some) == spec_contains(storage@.u32_arrays, ck_of(prefix@, key@)),
            r->Ok_0 matches Some(v) ==> spec_get(storage@.u32_arrays, ck_of(prefix@, key@)) matches Some(
                w,
            ) && v@ == w@,
    {
        let ck = make_ck(prefix, key);
        match storage.cols.uint32_array_storage.get(&ck) {
            Some(v) => Ok(Some(v.dup())),
            None => Ok(None),
        }
    }

    fn read_range_from_storage(
        prefix_range: &PrefixRange,
        key_range: &KeyRange,
        storage: &Storage,
    ) -> (r: Result<Vec<(CompositeKey, Vec<u32>)>, StorageError>)
        ensures
            r is Ok,
            ({
                let f = spec_range(storage@.u32_arrays, prefix_range@, key_range@);
                let out = r->Ok_0;
                &&& out@.len() == f.len()
                &&& forall|i: int|
                    0 <= i < f.len() ==> (#[trigger] out@[i]).0@ == f[i].0 && out@[i].1@ == f[i].1@
            }),
    {
        Ok(storage.cols.uint32_array_storage.read_range(prefix_range, key_range))
    }

    fn count(storage: &Storage) -> (r: Result<usize, StorageError>)
        ensures
            r matches Ok(n) && n == storage@.u32_arrays.len(),
    {
        Ok(storage.cols.uint32_array_storage.count())
    }

    fn contains(prefix: &str, key: KeyWrapper, storage: &Storage) -> (r: Result<
        bool,
        StorageError,
    >)
        ensures
            r matches Ok(b) && b == spec_contains(storage@.u32_arrays, ck_of(prefix@, key@)),
    {
        let ck = make_ck(prefix, key);
        Ok(storage.cols.uint32_array_storage.contains(&ck))
    }

    fn rank(prefix: &str, key: KeyWrapper, storage: &Storage) -> (r: Result<usize, StorageError>)
        ensures
            r matches Ok(n) && n == spec_rank(storage@.u32_arrays, ck_of(prefix@, key@)),
    {
        let ck = make_ck(prefix, key);
        Ok(storage.cols.uint32_array_storage.rank(&ck))
    }
}


/// The compound records a snapshot holds: entry `i` pairs the key of the
/// identifier column's entry `i` with the record assembled from both record
/// columns at that position.
pub open spec fn records_of(
    ids: Seq<(CompositeKeyView, String)>,
    embs: Seq<(CompositeKeyView, Vec<Float32>)>,
) -> Seq<(CompositeKeyView, DataRecord)> {
    Seq::new(ids.len(), |i: int| (ids[i].0, DataRecord { id: ids[i].1, embedding: embs[i].1 }))
}

/// Key-aligned columns agree on membership.
proof fn lemma_contains_same_keys<V1, V2>(
    s1: Seq<(CompositeKeyView, V1)>,
    s2: Seq<(CompositeKeyView, V2)>,
    k: CompositeKeyView,
)
    requires
        keys_of(s1) == keys_of(s2),
    ensures
        spec_contains(s1, k) == spec_contains(s2, k),
    decreases s1.len(),
{
    assert(keys_of(s1).len() == s1.len());
    assert(keys_of(s2).len() == s2.len());
    if s1.len() > 0 {
        assert(s1[0].0 == keys_of(s1)[0]);
        assert(s2[0].0 == keys_of(s2)[0]);
        assert(s1[0].0 == s2[0].0);
        if s1[0].0 != k {
            lemma_keys_of_drop(s1);
            lemma_keys_of_drop(s2);
            lemma_contains_same_keys(s1.drop_first(), s2.drop_first(), k);
        }
    }
}

impl Writeable for DataRecord {
    /// Writes both halves of the record, or logically neither: the two
    /// record columns are updated under the same composite key.
    fn write_to_storage(
        prefix: &str,
        key: KeyWrapper,
        value: DataRecord,
        storage: &mut StorageBuilder,
    ) -> (r: Result<(), StorageError>)
        ensures
            r is Ok,
            final(storage)@ == (ColumnsView {
                record_ids: spec_insert(
                    old(storage)@.record_ids,
                    ck_of(prefix@, key@),
                    value.id,
                ),
                record_embeddings: spec_insert(
                    old(storage)@.record_embeddings,
                    ck_of(prefix@, key@),
                    value.embedding,
                ),
                ..old(storage)@
            }),
    {
        let ghost gid = value.id;
        let ghost gemb = value.embedding;
        let ck = make_ck(prefix, key);
        let ck2 = ck.dup();
        let DataRecord { id, embedding } = value;
        storage.data_record_id_storage.insert(ck, id);
        storage.data_record_embedding_storage.insert(ck2, embedding);
        proof {
            lemma_insert_keys_parallel(
                old(storage)@.record_ids,
                old(storage)@.record_embeddings,
                ck_of(prefix@, key@),
                gid,
                gemb,
            );
            assert(storage@ =~= (ColumnsView {
                record_ids: spec_insert(old(storage)@.record_ids, ck_of(prefix@, key@), gid),
                record_embeddings: spec_insert(
                    old(storage)@.record_embeddings,
                    ck_of(prefix@, key@),
                    gemb,
                ),
                ..old(storage)@
            }));
        }
        Ok(())
    }

    /// Removes both halves of the record.
    fn remove_from_storage(prefix: &str, key: KeyWrapper, storage: &mut StorageBuilder) -> (r:
        Result<(), StorageError>)
        ensures
            r is Ok,
            final(storage)@ == (ColumnsView {
                record_ids: spec_remove(old(storage)@.record_ids, ck_of(prefix@, key@)),
                record_embeddings: spec_remove(
                    old(storage)@.record_embeddings,
                    ck_of(prefix@, key@),
                ),
                ..old(storage)@
            }),
    {
        let ck = make_ck(prefix, key);
        storage.data_record_id_storage.remove(&ck);
        storage.data_record_embedding_storage.remove(&ck);
        proof {
            lemma_remove_keys_parallel(
                old(storage)@.record_ids,
                old(storage)@.record_embeddings,
                ck_of(prefix@, key@),
            );
            assert(storage@ =~= (ColumnsView {
                record_ids: spec_remove(old(storage)@.record_ids, ck_of(prefix@, key@)),
                record_embeddings: spec_remove(
                    old(storage)@.record_embeddings,
                    ck_of(prefix@, key@),
                ),
                ..old(storage)@
            }));
        }
        Ok(())
    }
}

impl Readable for DataRecord {
    /// Reconstructs a record only when both halves are present; under the
    /// well-formedness invariant they always are together.
    fn read_from_storage(prefix: &str, key: KeyWrapper, storage: &Storage) -> (r: Result<
        Option<DataRecord>,
        StorageError,
    >)
        ensures
            r is Ok,
            (r->Ok_0 is Some) == spec_contains(storage@.record_ids, ck_of(prefix@, key@)),
            r->Ok_0 matches Some(d) ==> spec_get(storage@.record_ids, ck_of(prefix@, key@))
                == Some(d.id) && (spec_get(storage@.record_embeddings, ck_of(prefix@, key@))
                matches Some(e) && d.embedding@ == e@),
    {
        let ck = make_ck(prefix, key);
        proof {
            lemma_contains_same_keys(storage@.record_ids, storage@.record_embeddings, ck@);
        }
        match storage.cols.data_record_id_storage.get(&ck) {
            Some(idv) => match storage.cols.data_record_embedding_storage.get(&ck) {
                Some(emb) => Ok(Some(DataRecord { id: idv.clone(), embedding: emb.dup() })),
                None => {
                    proof {
                        assert(false);
                    }
                    Ok(None)
                },
            },
            None => Ok(None),
        }
    }

    fn read_range_from_storage(
        prefix_range: &PrefixRange,
        key_range: &KeyRange,
        storage: &Storage,
    ) -> (r: Result<Vec<(CompositeKey, DataRecord)>, StorageError>)
        ensures
            r is Ok,
            ({
                let f = spec_range(
                    records_of(storage@.record_ids, storage@.record_embeddings),
                    prefix_range@,
                    key_range@,
                );
                let out = r->Ok_0;
                &&& out@.len() == f.len()
                &&& forall|i: int|
                    0 <= i < f.len() ==> (#[trigger] out@[i]).0@ == f[i].0 && out@[i].1.id
                        == f[i].1.id && out@[i].1.embedding@ == f[i].1.embedding@
            }),
    {
        let ghost recs = records_of(storage@.record_ids, storage@.record_embeddings);
        let n = storage.cols.data_record_id_storage.count();
        proof {
            assert(keys_of(storage@.record_ids).len() == storage@.record_ids.len());
            assert(keys_of(storage@.record_embeddings).len() == storage@.record_embeddings.len());
            assert(recs.subrange(0, 0) =~= Seq::<(CompositeKeyView, DataRecord)>::empty());
        }
        let mut out: Vec<(CompositeKey, DataRecord)> = Vec::new();
        let mut j: usize = 0;
        while j < n
            invariant
                storage.wf(),
                recs == records_of(storage@.record_ids, storage@.record_embeddings),
                n == storage@.record_ids.len(),
                n == storage@.record_embeddings.len(),
                0 <= j <= n,
                ({
                    let f = spec_range(recs.subrange(0, j as int), prefix_range@, key_range@);
                    &&& out@.len() == f.len()
                    &&& forall|i: int|
                        0 <= i < f.len() ==> (#[trigger] out@[i]).0@ == f[i].0 && out@[i].1.id
                            == f[i].1.id && out@[i].1.embedding@ == f[i].1.embedding@
                }),
            decreases n - j,
        {
            proof {
                assert(recs.subrange(0, j as int + 1) =~= recs.subrange(0, j as int).push(
                    recs[j as int],
                ));
                crate::column::lemma_range_push(
                    recs.subrange(0, j as int),
                    recs[j as int],
                    prefix_range@,
                    key_range@,
                );
                assert(keys_of(storage@.record_ids)[j as int] == storage@.record_ids[j as int].0);
                assert(keys_of(storage@.record_embeddings)[j as int]
                    == storage@.record_embeddings[j as int].0);
            }
            let ckr = storage.cols.data_record_id_storage.key_at(j);
            if ck_in_ranges(ckr, prefix_range, key_range) {
                let idv = storage.cols.data_record_id_storage.value_at(j);
                let emb = storage.cols.data_record_embedding_storage.value_at(j);
                out.push((ckr.dup(), DataRecord { id: idv.clone(), embedding: emb.dup() }));
            }
            j += 1;
        }
        proof {
            assert(recs.subrange(0, n as int) =~= recs);
        }
        Ok(out)
    }

    fn count(storage: &Storage) -> (r: Result<usize, StorageError>)
        ensures
            r matches Ok(n) && n == storage@.record_ids.len(),
    {
        Ok(storage.cols.data_record_id_storage.count())
    }

    fn contains(prefix: &str, key: KeyWrapper, storage: &Storage) -> (r: Result<
        bool,
        StorageError,
    >)
        ensures
            r matches Ok(b) && b == spec_contains(storage@.record_ids, ck_of(prefix@, key@)),
    {
        let ck = make_ck(prefix, key);
        Ok(storage.cols.data_record_id_storage.contains(&ck))
    }

    fn rank(prefix: &str, key: KeyWrapper, storage: &Storage) -> (r: Result<usize, StorageError>)
        ensures
            r matches Ok(n) && n == spec_rank(storage@.record_ids, ck_of(prefix@, key@)),
    {
        let ck = make_ck(prefix, key);
        Ok(storage.cols.data_record_id_storage.rank(&ck))
    }
}

impl Writeable for SpannPostingList {
    /// Recognised as unimplemented: fails without touching any column.
    fn write_to_storage(
        prefix: &str,
        key: KeyWrapper,
        value: SpannPostingList,
        storage: &mut StorageBuilder,
    ) -> (r: Result<(), StorageError>)
        ensures
            r matches Err(e) && e is Unimplemented,
            final(storage)@ == old(storage)@,
    {
        Err(StorageError::Unimplemented)
    }

    /// Recognised as unimplemented: fails without touching any column.
    fn remove_from_storage(prefix: &str, key: KeyWrapper, storage: &mut StorageBuilder) -> (r:
        Result<(), StorageError>)
        ensures
            r matches Err(e) && e is Unimplemented,
            final(storage)@ == old(storage)@,
    {
        Err(StorageError::Unimplemented)
    }
}

impl Readable for SpannPostingList {
    /// Recognised as unimplemented: always fails.
    fn read_from_storage(prefix: &str, key: KeyWrapper, storage: &Storage) -> (r: Result<
        Option<SpannPostingList>,
        StorageError,
    >)
        ensures
            r matches Err(e) && e is Unimplemented,
    {
        Err(StorageError::Unimplemented)
    }

    /// Recognised as unimplemented: always fails.
    fn read_range_from_storage(
        prefix_range: &PrefixRange,
        key_range: &KeyRange,
        storage: &Storage,
    ) -> (r: Result<Vec<(CompositeKey, SpannPostingList)>, StorageError>)
        ensures
            r matches Err(e) && e is Unimplemented,
    {
        Err(StorageError::Unimplemented)
    }

    /// Recognised as unimplemented: always fails.
    fn count(storage: &Storage) -> (r: Result<usize, StorageError>)
        ensures
            r matches Err(e) && e is Unimplemented,
    {
        Err(StorageError::Unimplemented)
    }

    /// Recognised as unimplemented: always fails.
    fn contains(prefix: &str, key: KeyWrapper, storage: &Storage) -> (r: Result<
        bool,
        StorageError,
    >)
        ensures
            r matches Err(e) && e is Unimplemented,
    {
        Err(StorageError::Unimplemented)
    }

    /// Recognised as unimplemented: always fails.
    fn rank(prefix: &str, key: KeyWrapper, storage: &Storage) -> (r: Result<usize, StorageError>)
        ensures
            r matches Err(e) && e is Unimplemented,
    {
        Err(StorageError::Unimplemented)
    }
}

} // verus!
