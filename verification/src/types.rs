use vstd::prelude::*;

verus! {

/// The distance metric an index compares vectors under.
#[derive(Debug, Clone, Copy, PartialEq, Eq, Hash, Structural)]
pub enum Metric {
    /// Cosine distance.
    Cosine,
    /// Inner product; a similarity, so the index negates it.
    DotProduct,
    /// Straight-line (L2) distance.
    Euclidean,
    /// Sum of absolute differences (L1).
    Manhattan,
    /// Count of differing components.
    Hamming,
}

/// Configuration of a flat index: there is nothing to tune.
#[derive(Debug, Default, Clone, PartialEq, Eq)]
pub struct FlatConfig;

/// The identity of a stored vector: a 64-bit integer or a byte key.
#[derive(Debug, Clone, PartialEq, Eq, Hash)]
pub enum VectorKey {
    /// A compact integer id.
    U64(u64),
    /// An opaque byte key.
    Bytes(Vec<u8>),
}

/// The mathematical value of a [`VectorKey`].
pub enum KeyView {
    U64(u64),
    Bytes(Seq<u8>),
}

impl View for VectorKey {
    type V = KeyView;

    open spec fn view(&self) -> KeyView {
        match self {
            VectorKey::U64(v) => KeyView::U64(*v),
            VectorKey::Bytes(b) => KeyView::Bytes(b@),
        }
    }
}

impl VectorKey {
    /// A copy of this key.
    pub fn duplicate(&self) -> (copy: VectorKey)
        ensures
            copy@ == self@,
    {
        match self {
            VectorKey::U64(v) => VectorKey::U64(*v),
            VectorKey::Bytes(b) => {
                let c = b.clone();
                assert(c@ =~= b@);
                VectorKey::Bytes(c)
            },
        }
    }

    /// Whether `self` and `other` are the same id: the same variant with
    /// the same integer or the same bytes.
    pub fn matches(&self, other: &VectorKey) -> (same: bool)
        ensures
            same == (self@ == other@),
    {
        match (self, other) {
            (VectorKey::U64(a), VectorKey::U64(b)) => *a == *b,
            (VectorKey::Bytes(a), VectorKey::Bytes(b)) => {
                if a.len() != b.len() {
                    assert(a@ != b@);
                    return false;
                }
                let mut i: usize = 0;
                while i < a.len()
                    invariant
                        self@ == KeyView::Bytes(a@),
                        other@ == KeyView::Bytes(b@),
                        a.len() == b.len(),
                        i <= a.len(),
                        forall|j: int| 0 <= j < i ==> a@[j] == b@[j],
                    decreases a.len() - i,
                {
                    if a[i] != b[i] {
                        assert(a@[i as int] != b@[i as int]);
                        assert(a@ != b@);
                        return false;
                    }
                    i += 1;
                }
                assert(a@ =~= b@);
                true
            },
            (VectorKey::U64(_), VectorKey::Bytes(_)) => false,
            (VectorKey::Bytes(_), VectorKey::U64(_)) => false,
        }
    }
}

/// Which configuration check failed.
#[derive(Debug, Clone, Copy, PartialEq, Eq, Structural)]
pub enum ConfigIssue {
    /// The index was asked for zero-component vectors.
    ZeroDimension,
    /// Every insertion stamp of the 64-bit counter has been handed out.
    StampsExhausted,
}

/// The errors a flat index reports.
#[derive(Debug, Clone, Copy, PartialEq, Eq, Structural)]
pub enum FlatError {
    /// A vector or query does not have the index's dimension.
    DimensionMismatch { expected: usize, found: usize },
    /// A configuration value cannot describe a working index.
    InvalidConfig(ConfigIssue),
    /// No stored vector has the requested id.
    NotFound,
    /// An insert collided with an id that is already stored.
    Duplicate,
    /// The query's metric is not the index's metric.
    InvalidMetric,
}

} // verus!
