//! The value types a block can store, and how each is duplicated when a read
//! hands a value out.  Scalars copy exactly; byte-backed values copy with
//! equal mathematical value; a compressed bitmap is cloned by the `roaring`
//! crate and keeps its set of integers.

use vstd::prelude::*;

use roaring::RoaringBitmap;

use crate::column::Dup;
use crate::keys::Float32;

verus! {

/// Declares roaring's bitmap type so that columns can hold it; the verifier
/// treats a value of it as opaque.
#[verifier::external_type_specification]
#[verifier::external_body]
pub struct ExRoaringBitmap(RoaringBitmap);

/// The set of integers a compressed bitmap holds.
pub uninterp spec fn bitmap_elems(b: RoaringBitmap) -> Set<u32>;

/// Relies on roaring's `RoaringBitmap::clone`: the clone holds exactly the
/// integers the original holds.
pub assume_specification[ <RoaringBitmap as Clone>::clone ](b: &RoaringBitmap) -> (r:
    RoaringBitmap)
    ensures
        bitmap_elems(r) == bitmap_elems(*b),
;

impl Dup for bool {
    open spec fn eqv(a: bool, b: bool) -> bool {
        a == b
    }

    fn dup(&self) -> (r: bool) {
        *self
    }
}

impl Dup for u32 {
    open spec fn eqv(a: u32, b: u32) -> bool {
        a == b
    }

    fn dup(&self) -> (r: u32) {
        *self
    }
}

impl Dup for Float32 {
    open spec fn eqv(a: Float32, b: Float32) -> bool {
        a == b
    }

    fn dup(&self) -> (r: Float32) {
        *self
    }
}

impl Dup for String {
    open spec fn eqv(a: String, b: String) -> bool {
        a == b
    }

    fn dup(&self) -> (r: String) {
        self.clone()
    }
}

impl Dup for Vec<u32> {
    open spec fn eqv(a: Vec<u32>, b: Vec<u32>) -> bool {
        a@ == b@
    }

    fn dup(&self) -> (r: Vec<u32>) {
        let r = self.clone();
        proof {
            assert(r@ =~= self@);
        }
        r
    }
}

impl Dup for Vec<Float32> {
    open spec fn eqv(a: Vec<Float32>, b: Vec<Float32>) -> bool {
        a@ == b@
    }

    fn dup(&self) -> (r: Vec<Float32>) {
        let n = self.len();
        let mut out: Vec<Float32> = Vec::new();
        let mut i: usize = 0;
        while i < n
            invariant
                n == self@.len(),
                0 <= i <= n,
                out@ == self@.subrange(0, i as int),
            decreases n - i,
        {
            out.push(self[i]);
            proof {
                assert(out@ =~= self@.subrange(0, i + 1));
            }
            i += 1;
        }
        proof {
            assert(self@.subrange(0, n as int) =~= self@);
        }
        out
    }
}

/// A compressed sorted integer-set, backed by roaring's bitmap.  The store
/// treats the bitmap as an opaque value; its mathematical content is the set
/// of integers it holds.
#[derive(Clone, Debug)]
pub struct Bitmap {
    pub inner: RoaringBitmap,
}

impl Dup for Bitmap {
    open spec fn eqv(a: Bitmap, b: Bitmap) -> bool {
        bitmap_elems(a.inner) == bitmap_elems(b.inner)
    }

    fn dup(&self) -> (r: Bitmap) {
        Bitmap { inner: self.inner.clone() }
    }
}

/// A compound record: an identifier plus a float-vector embedding, written
/// and removed as one atomic unit across its two underlying columns.  The
/// embedding's floats are held as bit patterns (see [`Float32`]).
#[derive(Debug)]
pub struct DataRecord {
    pub id: String,
    pub embedding: Vec<Float32>,
}

/// A posting list for an approximate-nearest-neighbour index.  Storing this
/// value type is recognised as unimplemented: every capability on it fails
/// with [`crate::storage::StorageError::Unimplemented`] rather than
/// corrupting state or returning a default.
#[derive(Debug)]
pub struct SpannPostingList {
    pub doc_offset_ids: Vec<u32>,
    pub doc_versions: Vec<u32>,
    pub doc_embeddings: Vec<Float32>,
}

} // verus!
