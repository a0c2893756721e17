//! Range bounds for range scans.  A range scan filters entries by a prefix
//! range and a key range, evaluated independently: an entry qualifies when
//! its prefix lies within the prefix range and its typed key lies within the
//! key range.

use vstd::prelude::*;
use vstd::utf8::encode_utf8;

use crate::keys::{
    bytes_compare, key_lt, lex_lt, Comparison, CompositeKey, CompositeKeyView, KeyView, KeyWrapper,
};

verus! {

/// One end of a prefix range.
#[derive(Clone, Debug)]
pub enum PrefixBound {
    Unbounded,
    Included(String),
    Excluded(String),
}

pub enum PrefixBoundView {
    Unbounded,
    Included(Seq<u8>),
    Excluded(Seq<u8>),
}

impl View for PrefixBound {
    type V = PrefixBoundView;

    open spec fn view(&self) -> PrefixBoundView {
        match self {
            PrefixBound::Unbounded => PrefixBoundView::Unbounded,
            PrefixBound::Included(s) => PrefixBoundView::Included(encode_utf8(s@)),
            PrefixBound::Excluded(s) => PrefixBoundView::Excluded(encode_utf8(s@)),
        }
    }
}

/// A range of namespace prefixes, bounded independently at both ends.
#[derive(Clone, Debug)]
pub struct PrefixRange {
    pub low: PrefixBound,
    pub high: PrefixBound,
}

pub struct PrefixRangeView {
    pub low: PrefixBoundView,
    pub high: PrefixBoundView,
}

impl View for PrefixRange {
    type V = PrefixRangeView;

    open spec fn view(&self) -> PrefixRangeView {
        PrefixRangeView { low: self.low@, high: self.high@ }
    }
}

/// One end of a typed-key range.
#[derive(Clone, Debug)]
pub enum KeyBound {
    Unbounded,
    Included(KeyWrapper),
    Excluded(KeyWrapper),
}

pub enum KeyBoundView {
    Unbounded,
    Included(KeyView),
    Excluded(KeyView),
}

impl View for KeyBound {
    type V = KeyBoundView;

    open spec fn view(&self) -> KeyBoundView {
        match self {
            KeyBound::Unbounded => KeyBoundView::Unbounded,
            KeyBound::Included(k) => KeyBoundView::Included(k@),
            KeyBound::Excluded(k) => KeyBoundView::Excluded(k@),
        }
    }
}

/// A range of typed keys, bounded independently at both ends.
#[derive(Clone, Debug)]
pub struct KeyRange {
    pub low: KeyBound,
    pub high: KeyBound,
}

pub struct KeyRangeView {
    pub low: KeyBoundView,
    pub high: KeyBoundView,
}

impl View for KeyRange {
    type V = KeyRangeView;

    open spec fn view(&self) -> KeyRangeView {
        KeyRangeView { low: self.low@, high: self.high@ }
    }
}

pub open spec fn prefix_above_low(low: PrefixBoundView, p: Seq<u8>) -> bool {
    match low {
        PrefixBoundView::Unbounded => true,
        PrefixBoundView::Included(x) => !lex_lt(p, x),
        PrefixBoundView::Excluded(x) => lex_lt(x, p),
    }
}

pub open spec fn prefix_below_high(high: PrefixBoundView, p: Seq<u8>) -> bool {
    match high {
        PrefixBoundView::Unbounded => true,
        PrefixBoundView::Included(x) => !lex_lt(x, p),
        PrefixBoundView::Excluded(x) => lex_lt(p, x),
    }
}

pub open spec fn in_prefix_range(r: PrefixRangeView, p: Seq<u8>) -> bool {
    prefix_above_low(r.low, p) && prefix_below_high(r.high, p)
}

pub open spec fn key_above_low(low: KeyBoundView, k: KeyView) -> bool {
    match low {
        KeyBoundView::Unbounded => true,
        KeyBoundView::Included(x) => !key_lt(k, x),
        KeyBoundView::Excluded(x) => key_lt(x, k),
    }
}

pub open spec fn key_below_high(high: KeyBoundView, k: KeyView) -> bool {
    match high {
        KeyBoundView::Unbounded => true,
        KeyBoundView::Included(x) => !key_lt(x, k),
        KeyBoundView::Excluded(x) => key_lt(k, x),
    }
}

pub open spec fn in_key_range(r: KeyRangeView, k: KeyView) -> bool {
    key_above_low(r.low, k) && key_below_high(r.high, k)
}

/// Whether a composite key satisfies both the prefix range and the key
/// range; the two bounds form an intersection filter, not a single
/// two-dimensional restriction.
pub open spec fn in_ranges(k: CompositeKeyView, pr: PrefixRangeView, kr: KeyRangeView) -> bool {
    in_prefix_range(pr, k.prefix) && in_key_range(kr, k.key)
}

impl PrefixRange {
    /// The range containing every prefix.
    pub fn all() -> (r: PrefixRange)
        ensures
            r@.low is Unbounded,
            r@.high is Unbounded,
    {
        PrefixRange { low: PrefixBound::Unbounded, high: PrefixBound::Unbounded }
    }

    /// Whether `p` lies within this prefix range.
    pub fn contains_prefix(&self, p: &str) -> (r: bool)
        ensures
            r == in_prefix_range(self@, encode_utf8(p@)),
    {
        let above = match &self.low {
            PrefixBound::Unbounded => true,
            PrefixBound::Included(x) => match bytes_compare(p.as_bytes(), x.as_str().as_bytes()) {
                Comparison::Less => false,
                _ => true,
            },
            PrefixBound::Excluded(x) => match bytes_compare(x.as_str().as_bytes(), p.as_bytes()) {
                Comparison::Less => true,
                _ => false,
            },
        };
        if !above {
            return false;
        }
        match &self.high {
            PrefixBound::Unbounded => true,
            PrefixBound::Included(x) => match bytes_compare(x.as_str().as_bytes(), p.as_bytes()) {
                Comparison::Less => false,
                _ => true,
            },
            PrefixBound::Excluded(x) => match bytes_compare(p.as_bytes(), x.as_str().as_bytes()) {
                Comparison::Less => true,
                _ => false,
            },
        }
    }
}

impl KeyRange {
    /// The range containing every typed key.
    pub fn all() -> (r: KeyRange)
        ensures
            r@.low is Unbounded,
            r@.high is Unbounded,
    {
        KeyRange { low: KeyBound::Unbounded, high: KeyBound::Unbounded }
    }

    /// Whether `k` lies within this key range.
    pub fn contains_key(&self, k: &KeyWrapper) -> (r: bool)
        ensures
            r == in_key_range(self@, k@),
    {
        let above = match &self.low {
            KeyBound::Unbounded => true,
            KeyBound::Included(x) => match k.compare(x) {
                Comparison::Less => false,
                _ => true,
            },
            KeyBound::Excluded(x) => match x.compare(k) {
                Comparison::Less => true,
                _ => false,
            },
        };
        if !above {
            return false;
        }
        match &self.high {
            KeyBound::Unbounded => true,
            KeyBound::Included(x) => match x.compare(k) {
                Comparison::Less => false,
                _ => true,
            },
            KeyBound::Excluded(x) => match k.compare(x) {
                Comparison::Less => true,
                _ => false,
            },
        }
    }
}

/// Whether a composite key satisfies both range filters.
pub fn ck_in_ranges(k: &CompositeKey, pr: &PrefixRange, kr: &KeyRange) -> (r: bool)
    ensures
        r == in_ranges(k@, pr@, kr@),
{
    pr.contains_prefix(k.prefix.as_str()) && kr.contains_key(&k.key)
}

} // verus!
