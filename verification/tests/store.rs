//! End-to-end scenarios for the typed columnar store: build a block, seal
//! it, and query the snapshot through each value type's capabilities.

use roaring::RoaringBitmap;

use blockstore::{
    Bitmap, DataRecord, Float32, KeyBound, KeyRange, KeyWrapper, PrefixBound, PrefixRange,
    Readable, SpannPostingList, Storage, StorageError, StorageManager, Writeable,
};

fn f32v(x: f32) -> Float32 {
    Float32 { bits: x.to_bits() }
}

fn skey(s: &str) -> KeyWrapper {
    KeyWrapper::Str(s.to_string())
}

fn ukey(u: u32) -> KeyWrapper {
    KeyWrapper::Uint32(u)
}

fn fkey(x: f32) -> KeyWrapper {
    KeyWrapper::Float32(f32v(x))
}

fn all_ranges() -> (PrefixRange, KeyRange) {
    (PrefixRange::all(), KeyRange::all())
}

#[test]
fn round_trip_bool() {
    let mut mgr = StorageManager::new();
    let mut b = mgr.create();
    bool::write_to_storage("p", ukey(1), true, &mut b).unwrap();
    let s = mgr.commit(b).unwrap();
    assert_eq!(bool::read_from_storage("p", ukey(1), &s).unwrap(), Some(true));
    assert_eq!(bool::read_from_storage("p", ukey(2), &s).unwrap(), None);
}

#[test]
fn round_trip_string() {
    let mut mgr = StorageManager::new();
    let mut b = mgr.create();
    String::write_to_storage("p", skey("k"), "value".to_string(), &mut b).unwrap();
    let s = mgr.commit(b).unwrap();
    assert_eq!(
        String::read_from_storage("p", skey("k"), &s).unwrap(),
        Some("value".to_string())
    );
}

#[test]
fn round_trip_u32() {
    let mut mgr = StorageManager::new();
    let mut b = mgr.create();
    u32::write_to_storage("p", ukey(7), 99, &mut b).unwrap();
    let s = mgr.commit(b).unwrap();
    assert_eq!(u32::read_from_storage("p", ukey(7), &s).unwrap(), Some(99));
}

#[test]
fn round_trip_f32() {
    let mut mgr = StorageManager::new();
    let mut b = mgr.create();
    Float32::write_to_storage("p", ukey(1), f32v(3.5), &mut b).unwrap();
    let s = mgr.commit(b).unwrap();
    let got = Float32::read_from_storage("p", ukey(1), &s).unwrap().unwrap();
    assert_eq!(f32::from_bits(got.bits), 3.5);
}

#[test]
fn round_trip_bitmap() {
    let mut rb = RoaringBitmap::new();
    rb.insert(3);
    rb.insert(1000);
    rb.insert(7);
    let mut mgr = StorageManager::new();
    let mut b = mgr.create();
    Bitmap::write_to_storage("p", ukey(1), Bitmap { inner: rb.clone() }, &mut b).unwrap();
    let s = mgr.commit(b).unwrap();
    let got = Bitmap::read_from_storage("p", ukey(1), &s).unwrap().unwrap();
    assert_eq!(got.inner, rb);
}

#[test]
fn round_trip_u32_array() {
    let mut mgr = StorageManager::new();
    let mut b = mgr.create();
    <Vec<u32>>::write_to_storage("p", ukey(1), vec![5, 4, 3], &mut b).unwrap();
    let s = mgr.commit(b).unwrap();
    assert_eq!(
        <Vec<u32>>::read_from_storage("p", ukey(1), &s).unwrap(),
        Some(vec![5, 4, 3])
    );
}

#[test]
fn round_trip_data_record() {
    let mut mgr = StorageManager::new();
    let mut b = mgr.create();
    let rec = DataRecord { id: "x".to_string(), embedding: vec![f32v(1.0), f32v(2.0)] };
    DataRecord::write_to_storage("p", skey("k"), rec, &mut b).unwrap();
    let s = mgr.commit(b).unwrap();
    let got = DataRecord::read_from_storage("p", skey("k"), &s).unwrap().unwrap();
    assert_eq!(got.id, "x");
    assert_eq!(got.embedding, vec![f32v(1.0), f32v(2.0)]);
}

#[test]
fn overwrite_yields_second_value() {
    let mut mgr = StorageManager::new();
    let mut b = mgr.create();
    String::write_to_storage("p", ukey(1), "v1".to_string(), &mut b).unwrap();
    String::write_to_storage("p", ukey(1), "v2".to_string(), &mut b).unwrap();
    let s = mgr.commit(b).unwrap();
    assert_eq!(
        String::read_from_storage("p", ukey(1), &s).unwrap(),
        Some("v2".to_string())
    );
    assert_eq!(u32::count(&s).unwrap(), 0);
    assert_eq!(String::count(&s).unwrap(), 1);
}

#[test]
fn write_then_remove_is_absent() {
    let mut mgr = StorageManager::new();
    let mut b = mgr.create();
    u32::write_to_storage("p", ukey(1), 5, &mut b).unwrap();
    u32::write_to_storage("p", ukey(2), 6, &mut b).unwrap();
    u32::remove_from_storage("p", ukey(1), &mut b).unwrap();
    let s = mgr.commit(b).unwrap();
    assert_eq!(u32::contains("p", ukey(1), &s).unwrap(), false);
    assert_eq!(u32::contains("p", ukey(2), &s).unwrap(), true);
    assert_eq!(u32::count(&s).unwrap(), 1);
}

#[test]
fn rank_and_count_consistency() {
    let mut mgr = StorageManager::new();
    let mut b = mgr.create();
    for k in [10u32, 20, 30] {
        u32::write_to_storage("p", ukey(k), k, &mut b).unwrap();
    }
    let s = mgr.commit(b).unwrap();
    // At a key strictly above every stored key, rank equals count.
    assert_eq!(u32::rank("p", ukey(31), &s).unwrap(), u32::count(&s).unwrap());
    // A later prefix also lies above every stored key.
    assert_eq!(u32::rank("q", ukey(0), &s).unwrap(), 3);
    // At the minimum stored key, rank is zero.
    assert_eq!(u32::rank("p", ukey(10), &s).unwrap(), 0);
    assert_eq!(u32::rank("p", ukey(25), &s).unwrap(), 2);
}

#[test]
fn rank_orders_float_keys_like_floats() {
    let mut mgr = StorageManager::new();
    let mut b = mgr.create();
    for x in [-1.5f32, 0.25, 2.0] {
        u32::write_to_storage("p", fkey(x), x.to_bits(), &mut b).unwrap();
    }
    let s = mgr.commit(b).unwrap();
    assert_eq!(u32::rank("p", fkey(-1.5), &s).unwrap(), 0);
    assert_eq!(u32::rank("p", fkey(0.0), &s).unwrap(), 1);
    assert_eq!(u32::rank("p", fkey(1.0), &s).unwrap(), 2);
    assert_eq!(u32::rank("p", fkey(3.0), &s).unwrap(), 3);
}

#[test]
fn range_intersection() {
    let mut mgr = StorageManager::new();
    let mut b = mgr.create();
    for prefix in ["a", "b"] {
        for k in [1u32, 2, 3] {
            u32::write_to_storage(prefix, ukey(k), 10 * k, &mut b).unwrap();
        }
    }
    let s = mgr.commit(b).unwrap();
    let pr = PrefixRange {
        low: PrefixBound::Included("a".to_string()),
        high: PrefixBound::Excluded("b".to_string()),
    };
    let kr = KeyRange { low: KeyBound::Included(ukey(2)), high: KeyBound::Unbounded };
    let got = u32::read_range_from_storage(&pr, &kr, &s).unwrap();
    assert_eq!(got.len(), 2);
    assert_eq!(got[0].0.prefix, "a");
    assert!(matches!(got[0].0.key, KeyWrapper::Uint32(2)));
    assert_eq!(got[0].1, 20);
    assert_eq!(got[1].0.prefix, "a");
    assert!(matches!(got[1].0.key, KeyWrapper::Uint32(3)));
    assert_eq!(got[1].1, 30);
}

#[test]
fn range_scan_is_ordered_and_complete() {
    let mut mgr = StorageManager::new();
    let mut b = mgr.create();
    String::write_to_storage("b", skey("y"), "3".to_string(), &mut b).unwrap();
    String::write_to_storage("a", skey("z"), "2".to_string(), &mut b).unwrap();
    String::write_to_storage("a", skey("a"), "1".to_string(), &mut b).unwrap();
    let s = mgr.commit(b).unwrap();
    let (pr, kr) = all_ranges();
    let got = String::read_range_from_storage(&pr, &kr, &s).unwrap();
    let flat: Vec<(String, String)> =
        got.into_iter().map(|(ck, v)| (ck.prefix, v)).collect();
    assert_eq!(
        flat,
        vec![
            ("a".to_string(), "1".to_string()),
            ("a".to_string(), "2".to_string()),
            ("b".to_string(), "3".to_string()),
        ]
    );
}

#[test]
fn compound_record_atomicity() {
    let mut mgr = StorageManager::new();
    let mut b = mgr.create();
    let rec = DataRecord { id: "x".to_string(), embedding: vec![f32v(1.0), f32v(2.0)] };
    DataRecord::write_to_storage("p", skey("k"), rec, &mut b).unwrap();
    DataRecord::remove_from_storage("p", skey("k"), &mut b).unwrap();
    let s = mgr.commit(b).unwrap();
    assert_eq!(DataRecord::contains("p", skey("k"), &s).unwrap(), false);
    assert!(DataRecord::read_from_storage("p", skey("k"), &s).unwrap().is_none());
    assert_eq!(DataRecord::count(&s).unwrap(), 0);
}

#[test]
fn data_record_range_scan() {
    let mut mgr = StorageManager::new();
    let mut b = mgr.create();
    for (k, id) in [(1u32, "r1"), (2, "r2"), (3, "r3")] {
        let rec = DataRecord { id: id.to_string(), embedding: vec![f32v(k as f32)] };
        DataRecord::write_to_storage("p", ukey(k), rec, &mut b).unwrap();
    }
    let s = mgr.commit(b).unwrap();
    let pr = PrefixRange::all();
    let kr = KeyRange { low: KeyBound::Excluded(ukey(1)), high: KeyBound::Unbounded };
    let got = DataRecord::read_range_from_storage(&pr, &kr, &s).unwrap();
    assert_eq!(got.len(), 2);
    assert_eq!(got[0].1.id, "r2");
    assert_eq!(got[1].1.id, "r3");
    assert_eq!(got[1].1.embedding, vec![f32v(3.0)]);
}

#[test]
fn posting_list_capabilities_fail() {
    let mut mgr = StorageManager::new();
    let mut b = mgr.create();
    let pl = SpannPostingList {
        doc_offset_ids: vec![1],
        doc_versions: vec![1],
        doc_embeddings: vec![f32v(0.5)],
    };
    assert_eq!(
        SpannPostingList::write_to_storage("p", ukey(1), pl, &mut b),
        Err(StorageError::Unimplemented)
    );
    assert_eq!(
        SpannPostingList::remove_from_storage("p", ukey(1), &mut b),
        Err(StorageError::Unimplemented)
    );
    let s = mgr.commit(b).unwrap();
    assert!(SpannPostingList::read_from_storage("p", ukey(1), &s).is_err());
    let (pr, kr) = all_ranges();
    assert!(SpannPostingList::read_range_from_storage(&pr, &kr, &s).is_err());
    assert!(SpannPostingList::count(&s).is_err());
    assert!(SpannPostingList::contains("p", ukey(1), &s).is_err());
    assert!(SpannPostingList::rank("p", ukey(1), &s).is_err());
}

#[test]
fn get_unknown_identifier_is_absent() {
    let mgr = StorageManager::new();
    assert!(mgr.get(12345).is_none());
}

#[test]
fn get_before_commit_is_absent() {
    let mut mgr = StorageManager::new();
    let b = mgr.create();
    let id = b.id();
    assert!(mgr.get(id).is_none());
    let s = mgr.commit(b).unwrap();
    assert_eq!(s.id(), id);
    assert!(mgr.get(id).is_some());
}

#[test]
fn distinct_sessions_get_distinct_identifiers() {
    let mut mgr = StorageManager::new();
    let b1 = mgr.create();
    let b2 = mgr.create();
    assert_ne!(b1.id(), b2.id());
}

#[test]
fn clear_invalidates_identifiers() {
    let mut mgr = StorageManager::new();
    let b = mgr.create();
    let id = b.id();
    mgr.commit(b).unwrap();
    assert!(mgr.get(id).is_some());
    mgr.clear();
    assert!(mgr.get(id).is_none());
}

#[test]
fn double_commit_is_fatal() {
    let mut mgr = StorageManager::new();
    let mut b = mgr.create();
    u32::write_to_storage("p", ukey(1), 5, &mut b).unwrap();
    let twin = b.clone();
    assert!(mgr.commit(b).is_ok());
    // The identifier was consumed by the first commit.
    match mgr.commit(twin) {
        Err(e) => assert_eq!(e, StorageError::UnknownSession),
        Ok(_) => panic!("a second commit of the same identifier must fail"),
    }
}

#[test]
fn commit_after_clear_is_fatal() {
    let mut mgr = StorageManager::new();
    let b = mgr.create();
    mgr.clear();
    match mgr.commit(b) {
        Err(e) => assert_eq!(e, StorageError::UnknownSession),
        Ok(_) => panic!("commit of a cleared identifier must fail"),
    }
}

#[test]
fn snapshot_handles_share_sealed_contents() {
    let mut mgr = StorageManager::new();
    let mut b = mgr.create();
    u32::write_to_storage("p", ukey(1), 5, &mut b).unwrap();
    let id = b.id();
    let s1: Storage = mgr.commit(b).unwrap();
    let s2 = mgr.get(id).unwrap();
    let s3 = mgr.get(id).unwrap();
    assert_eq!(u32::read_from_storage("p", ukey(1), &s1).unwrap(), Some(5));
    assert_eq!(u32::read_from_storage("p", ukey(1), &s2).unwrap(), Some(5));
    assert_eq!(u32::read_from_storage("p", ukey(1), &s3).unwrap(), Some(5));
}

#[test]
fn columns_are_independent() {
    let mut mgr = StorageManager::new();
    let mut b = mgr.create();
    u32::write_to_storage("p", ukey(1), 5, &mut b).unwrap();
    bool::write_to_storage("p", ukey(1), true, &mut b).unwrap();
    u32::remove_from_storage("p", ukey(1), &mut b).unwrap();
    let s = mgr.commit(b).unwrap();
    assert_eq!(u32::contains("p", ukey(1), &s).unwrap(), false);
    assert_eq!(bool::read_from_storage("p", ukey(1), &s).unwrap(), Some(true));
}

#[test]
fn string_keys_order_lexicographically() {
    let mut mgr = StorageManager::new();
    let mut b = mgr.create();
    for k in ["b", "aa", "a"] {
        u32::write_to_storage("p", skey(k), 1, &mut b).unwrap();
    }
    let s = mgr.commit(b).unwrap();
    assert_eq!(u32::rank("p", skey("a"), &s).unwrap(), 0);
    assert_eq!(u32::rank("p", skey("aa"), &s).unwrap(), 1);
    assert_eq!(u32::rank("p", skey("b"), &s).unwrap(), 2);
    assert_eq!(u32::rank("p", skey("c"), &s).unwrap(), 3);
}
