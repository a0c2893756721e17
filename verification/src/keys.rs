//! Composite keys: a namespace prefix paired with a typed key value, carrying
//! a total order.  The order is (prefix, key) lexicographic-then-typed:
//! prefixes compare as their UTF-8 byte sequences, and typed keys compare
//! first by variant, then by value within one variant.

use vstd::prelude::*;
use vstd::utf8::encode_utf8;

verus! {

/// Strict lexicographic order on byte sequences.
pub open spec fn lex_lt(a: Seq<u8>, b: Seq<u8>) -> bool
    decreases a.len(),
{
    if b.len() == 0 {
        false
    } else if a.len() == 0 {
        true
    } else if a[0] < b[0] {
        true
    } else if a[0] > b[0] {
        false
    } else {
        lex_lt(a.drop_first(), b.drop_first())
    }
}

pub proof fn lemma_lex_lt_irrefl(a: Seq<u8>)
    ensures
        !lex_lt(a, a),
    decreases a.len(),
{
    if a.len() > 0 {
        lemma_lex_lt_irrefl(a.drop_first());
    }
}

pub proof fn lemma_lex_lt_asym(a: Seq<u8>, b: Seq<u8>)
    ensures
        !(lex_lt(a, b) && lex_lt(b, a)),
    decreases a.len(),
{
    if a.len() > 0 && b.len() > 0 && a[0] == b[0] {
        lemma_lex_lt_asym(a.drop_first(), b.drop_first());
    }
}

pub proof fn lemma_lex_lt_connected(a: Seq<u8>, b: Seq<u8>)
    ensures
        lex_lt(a, b) || lex_lt(b, a) || a == b,
    decreases a.len(),
{
    if a.len() > 0 && b.len() > 0 && a[0] == b[0] {
        lemma_lex_lt_connected(a.drop_first(), b.drop_first());
        if !lex_lt(a, b) && !lex_lt(b, a) {
            assert(a.drop_first() == b.drop_first());
            assert(a =~= b) by {
                assert(a.len() == b.len());
                assert forall|i: int| 0 <= i < a.len() implies a[i] == b[i] by {
                    if i > 0 {
                        assert(a[i] == a.drop_first()[i - 1]);
                        assert(b[i] == b.drop_first()[i - 1]);
                    }
                }
            }
        }
    }
}

pub proof fn lemma_lex_lt_trans(a: Seq<u8>, b: Seq<u8>, c: Seq<u8>)
    requires
        lex_lt(a, b),
        lex_lt(b, c),
    ensures
        lex_lt(a, c),
    decreases a.len(),
{
    if a.len() > 0 && b.len() > 0 && c.len() > 0 && a[0] == b[0] && b[0] == c[0] {
        lemma_lex_lt_trans(a.drop_first(), b.drop_first(), c.drop_first());
    }
}

/// One step of the lexicographic order: equal heads reduce the comparison
/// to the tails.
proof fn lemma_lex_lt_step(a: Seq<u8>, b: Seq<u8>)
    requires
        a.len() > 0,
        b.len() > 0,
        a[0] == b[0],
    ensures
        lex_lt(a, b) == lex_lt(a.drop_first(), b.drop_first()),
        (a == b) == (a.drop_first() == b.drop_first()),
{
    if a.drop_first() == b.drop_first() {
        assert(a =~= b) by {
            assert(a.drop_first().len() == a.len() - 1);
            assert(b.drop_first().len() == b.len() - 1);
            assert(a.len() == b.len());
            assert forall|i: int| 0 <= i < a.len() implies a[i] == b[i] by {
                if i > 0 {
                    assert(a[i] == a.drop_first()[i - 1]);
                    assert(b[i] == b.drop_first()[i - 1]);
                }
            }
        }
    }
}

/// Result of a three-way comparison.
#[derive(Clone, Copy, Debug, PartialEq, Eq, Structural)]
pub enum Comparison {
    Less,
    Equal,
    Greater,
}

/// Three-way comparison of byte slices under the lexicographic order.
pub fn bytes_compare(a: &[u8], b: &[u8]) -> (r: Comparison)
    ensures
        (r is Less) == lex_lt(a@, b@),
        (r is Greater) == lex_lt(b@, a@),
        (r is Equal) == (a@ == b@),
{
    let alen: usize = a.len();
    let blen: usize = b.len();
    let n: usize = if alen < blen {
        alen
    } else {
        blen
    };
    proof {
        assert(a@.skip(0) =~= a@);
        assert(b@.skip(0) =~= b@);
    }
    let mut i: usize = 0;
    while i < n
        invariant
            0 <= i <= n,
            n <= alen,
            n <= blen,
            alen == a@.len(),
            blen == b@.len(),
            lex_lt(a@, b@) == lex_lt(a@.skip(i as int), b@.skip(i as int)),
            lex_lt(b@, a@) == lex_lt(b@.skip(i as int), a@.skip(i as int)),
            (a@ == b@) == (a@.skip(i as int) == b@.skip(i as int)),
        decreases n - i,
    {
        let x = a[i];
        let y = b[i];
        if x < y {
            proof {
                assert(a@.skip(i as int)[0] == x);
                assert(b@.skip(i as int)[0] == y);
            }
            return Comparison::Less;
        }
        if x > y {
            proof {
                assert(a@.skip(i as int)[0] == x);
                assert(b@.skip(i as int)[0] == y);
            }
            return Comparison::Greater;
        }
        proof {
            let sa = a@.skip(i as int);
            let sb = b@.skip(i as int);
            assert(sa[0] == x && sb[0] == y);
            lemma_lex_lt_step(sa, sb);
            lemma_lex_lt_step(sb, sa);
            assert(sa.drop_first() =~= a@.skip(i + 1));
            assert(sb.drop_first() =~= b@.skip(i + 1));
        }
        i += 1;
    }
    proof {
        let sa = a@.skip(n as int);
        let sb = b@.skip(n as int);
        assert(sa.len() == alen - n);
        assert(sb.len() == blen - n);
        if alen == blen {
            assert(sa =~= sb);
        } else {
            assert(sa.len() != sb.len());
            assert(sa != sb);
        }
    }
    if alen < blen {
        Comparison::Less
    } else if alen > blen {
        Comparison::Greater
    } else {
        Comparison::Equal
    }
}

/// An IEEE-754 single-precision value, held as its raw bit pattern so that
/// the store itself stays free of floating-point arithmetic.  Converting to
/// and from `f32` is the caller's business (`f32::to_bits` / `from_bits`).
#[derive(Clone, Copy, Debug, PartialEq, Eq, Structural)]
pub struct Float32 {
    pub bits: u32,
}

/// Maps float bit patterns to unsigned integers so that unsigned comparison
/// of the images agrees with the IEEE-754 total order of the floats.
pub open spec fn f32_order(bits: u32) -> u32 {
    if bits >= 0x8000_0000 {
        !bits
    } else {
        bits | 0x8000_0000
    }
}

pub proof fn lemma_f32_order_injective(x: u32, y: u32)
    requires
        f32_order(x) == f32_order(y),
    ensures
        x == y,
{
    assert(x >= 0x8000_0000 ==> !x < 0x8000_0000u32) by (bit_vector);
    assert(y >= 0x8000_0000 ==> !y < 0x8000_0000u32) by (bit_vector);
    assert(x < 0x8000_0000 ==> (x | 0x8000_0000u32) >= 0x8000_0000) by (bit_vector);
    assert(y < 0x8000_0000 ==> (y | 0x8000_0000u32) >= 0x8000_0000) by (bit_vector);
    assert(!x == !y ==> x == y) by (bit_vector);
    assert((x | 0x8000_0000u32) == (y | 0x8000_0000u32) && x < 0x8000_0000 && y < 0x8000_0000
        ==> x == y) by (bit_vector);
}

fn f32_order_exec(bits: u32) -> (r: u32)
    ensures
        r == f32_order(bits),
{
    if bits >= 0x8000_0000 {
        !bits
    } else {
        bits | 0x8000_0000
    }
}

/// A typed key value.  A column must never mix incompatible variants; the
/// cross-variant order (by variant, then by value) keeps the order total
/// regardless.
#[derive(Clone, Debug)]
pub enum KeyWrapper {
    /// A UTF-8 string key, ordered by its byte sequence.
    Str(String),
    /// A 32-bit unsigned integer key.
    Uint32(u32),
    /// A 32-bit float key, ordered by the IEEE-754 total order.
    Float32(Float32),
    /// A raw byte-sequence key.
    Bytes(Vec<u8>),
}

/// The mathematical value of a [`KeyWrapper`]: strings appear as their UTF-8
/// byte sequences.
pub enum KeyView {
    Str(Seq<u8>),
    Uint32(u32),
    Float32(u32),
    Bytes(Seq<u8>),
}

impl View for KeyWrapper {
    type V = KeyView;

    open spec fn view(&self) -> KeyView {
        match self {
            KeyWrapper::Str(s) => KeyView::Str(encode_utf8(s@)),
            KeyWrapper::Uint32(u) => KeyView::Uint32(*u),
            KeyWrapper::Float32(f) => KeyView::Float32(f.bits),
            KeyWrapper::Bytes(v) => KeyView::Bytes(v@),
        }
    }
}

pub open spec fn key_variant_rank(k: KeyView) -> int {
    match k {
        KeyView::Str(_) => 0,
        KeyView::Uint32(_) => 1,
        KeyView::Float32(_) => 2,
        KeyView::Bytes(_) => 3,
    }
}

/// Strict total order on typed key values.
pub open spec fn key_lt(a: KeyView, b: KeyView) -> bool {
    key_variant_rank(a) < key_variant_rank(b) || (key_variant_rank(a) == key_variant_rank(b)
        && match (a, b) {
        (KeyView::Str(x), KeyView::Str(y)) => lex_lt(x, y),
        (KeyView::Uint32(x), KeyView::Uint32(y)) => x < y,
        (KeyView::Float32(x), KeyView::Float32(y)) => f32_order(x) < f32_order(y),
        (KeyView::Bytes(x), KeyView::Bytes(y)) => lex_lt(x, y),
        _ => false,
    })
}

pub proof fn lemma_key_lt_asym(a: KeyView, b: KeyView)
    ensures
        !(key_lt(a, b) && key_lt(b, a)),
{
    match (a, b) {
        (KeyView::Str(x), KeyView::Str(y)) => lemma_lex_lt_asym(x, y),
        (KeyView::Bytes(x), KeyView::Bytes(y)) => lemma_lex_lt_asym(x, y),
        _ => {},
    }
}

pub proof fn lemma_key_lt_connected(a: KeyView, b: KeyView)
    ensures
        key_lt(a, b) || key_lt(b, a) || a == b,
{
    if key_variant_rank(a) == key_variant_rank(b) {
        match (a, b) {
            (KeyView::Str(x), KeyView::Str(y)) => lemma_lex_lt_connected(x, y),
            (KeyView::Bytes(x), KeyView::Bytes(y)) => lemma_lex_lt_connected(x, y),
            (KeyView::Float32(x), KeyView::Float32(y)) => {
                if f32_order(x) == f32_order(y) {
                    lemma_f32_order_injective(x, y);
                }
            },
            _ => {},
        }
    }
}

pub proof fn lemma_key_lt_trans(a: KeyView, b: KeyView, c: KeyView)
    requires
        key_lt(a, b),
        key_lt(b, c),
    ensures
        key_lt(a, c),
{
    match (a, b) {
        (KeyView::Str(x), KeyView::Str(y)) => {
            if c is Str {
                lemma_lex_lt_trans(x, y, c->Str_0);
            }
        },
        (KeyView::Bytes(x), KeyView::Bytes(y)) => {
            if c is Bytes {
                lemma_lex_lt_trans(x, y, c->Bytes_0);
            }
        },
        _ => {},
    }
}

/// The sole addressing scheme for column entries: a namespace prefix plus a
/// typed key value.
#[derive(Clone, Debug)]
pub struct CompositeKey {
    pub prefix: String,
    pub key: KeyWrapper,
}

/// The mathematical value of a [`CompositeKey`].
pub struct CompositeKeyView {
    pub prefix: Seq<u8>,
    pub key: KeyView,
}

impl View for CompositeKey {
    type V = CompositeKeyView;

    open spec fn view(&self) -> CompositeKeyView {
        CompositeKeyView { prefix: encode_utf8(self.prefix@), key: self.key@ }
    }
}

/// Builds a composite key view from a prefix (as characters) and a key view.
pub open spec fn ck_of(prefix: Seq<char>, key: KeyView) -> CompositeKeyView {
    CompositeKeyView { prefix: encode_utf8(prefix), key }
}

/// Strict total order on composite keys: by prefix, then by typed key.
pub open spec fn ck_lt(a: CompositeKeyView, b: CompositeKeyView) -> bool {
    lex_lt(a.prefix, b.prefix) || (a.prefix == b.prefix && key_lt(a.key, b.key))
}

pub proof fn lemma_ck_lt_asym(a: CompositeKeyView, b: CompositeKeyView)
    ensures
        !(ck_lt(a, b) && ck_lt(b, a)),
{
    lemma_lex_lt_asym(a.prefix, b.prefix);
    lemma_key_lt_asym(a.key, b.key);
}

pub proof fn lemma_ck_lt_irrefl(a: CompositeKeyView)
    ensures
        !ck_lt(a, a),
{
    lemma_ck_lt_asym(a, a);
}

pub proof fn lemma_ck_lt_connected(a: CompositeKeyView, b: CompositeKeyView)
    ensures
        ck_lt(a, b) || ck_lt(b, a) || a == b,
{
    lemma_lex_lt_connected(a.prefix, b.prefix);
    lemma_key_lt_connected(a.key, b.key);
    if !ck_lt(a, b) && !ck_lt(b, a) && a.prefix == b.prefix && a.key == b.key {
        assert(a == b);
    }
}

pub proof fn lemma_ck_lt_trans(a: CompositeKeyView, b: CompositeKeyView, c: CompositeKeyView)
    requires
        ck_lt(a, b),
        ck_lt(b, c),
    ensures
        ck_lt(a, c),
{
    lemma_lex_lt_irrefl(a.prefix);
    lemma_lex_lt_irrefl(b.prefix);
    if lex_lt(a.prefix, b.prefix) {
        if lex_lt(b.prefix, c.prefix) {
            lemma_lex_lt_trans(a.prefix, b.prefix, c.prefix);
        }
    } else {
        assert(a.prefix == b.prefix && key_lt(a.key, b.key));
        if !lex_lt(b.prefix, c.prefix) {
            lemma_key_lt_trans(a.key, b.key, c.key);
        }
    }
}

impl KeyWrapper {
    /// An explicit copy whose mathematical value equals the original's.
    pub fn dup(&self) -> (r: KeyWrapper)
        ensures
            r@ == self@,
    {
        match self {
            KeyWrapper::Str(s) => KeyWrapper::Str(s.clone()),
            KeyWrapper::Uint32(u) => KeyWrapper::Uint32(*u),
            KeyWrapper::Float32(f) => KeyWrapper::Float32(*f),
            KeyWrapper::Bytes(v) => {
                let w = v.clone();
                proof {
                    assert(w@ =~= v@);
                }
                KeyWrapper::Bytes(w)
            },
        }
    }

    /// Three-way comparison under the typed-key total order.
    pub fn compare(&self, other: &KeyWrapper) -> (r: Comparison)
        ensures
            (r is Less) == key_lt(self@, other@),
            (r is Greater) == key_lt(other@, self@),
            (r is Equal) == (self@ == other@),
    {
        match (self, other) {
            (KeyWrapper::Str(x), KeyWrapper::Str(y)) => bytes_compare(
                x.as_str().as_bytes(),
                y.as_str().as_bytes(),
            ),
            (KeyWrapper::Uint32(x), KeyWrapper::Uint32(y)) => {
                if x < y {
                    Comparison::Less
                } else if x > y {
                    Comparison::Greater
                } else {
                    Comparison::Equal
                }
            },
            (KeyWrapper::Float32(x), KeyWrapper::Float32(y)) => {
                let ox = f32_order_exec(x.bits);
                let oy = f32_order_exec(y.bits);
                if ox < oy {
                    Comparison::Less
                } else if ox > oy {
                    Comparison::Greater
                } else {
                    proof {
                        lemma_f32_order_injective(x.bits, y.bits);
                    }
                    Comparison::Equal
                }
            },
            (KeyWrapper::Bytes(x), KeyWrapper::Bytes(y)) => bytes_compare(
                x.as_slice(),
                y.as_slice(),
            ),
            (x, y) => {
                let rx = x.variant_rank();
                let ry = y.variant_rank();
                proof {
                    assert(rx != ry);
                }
                if rx < ry {
                    Comparison::Less
                } else {
                    Comparison::Greater
                }
            },
        }
    }

    fn variant_rank(&self) -> (r: u8)
        ensures
            r as int == key_variant_rank(self@),
    {
        match self {
            KeyWrapper::Str(_) => 0,
            KeyWrapper::Uint32(_) => 1,
            KeyWrapper::Float32(_) => 2,
            KeyWrapper::Bytes(_) => 3,
        }
    }
}

impl CompositeKey {
    /// An explicit copy whose mathematical value equals the original's.
    pub fn dup(&self) -> (r: CompositeKey)
        ensures
            r@ == self@,
    {
        CompositeKey { prefix: self.prefix.clone(), key: self.key.dup() }
    }

    /// Three-way comparison under the composite-key total order.
    pub fn compare(&self, other: &CompositeKey) -> (r: Comparison)
        ensures
            (r is Less) == ck_lt(self@, other@),
            (r is Greater) == ck_lt(other@, self@),
            (r is Equal) == (self@ == other@),
    {
        let pc = bytes_compare(self.prefix.as_str().as_bytes(), other.prefix.as_str().as_bytes());
        let r = match pc {
            Comparison::Less => Comparison::Less,
            Comparison::Greater => Comparison::Greater,
            Comparison::Equal => self.key.compare(&other.key),
        };
        proof {
            lemma_lex_lt_asym(self@.prefix, other@.prefix);
        }
        r
    }
}

} // verus!
