use vstd::prelude::*;

use crate::order::negated;
use crate::topk::distinct_stamps;
use crate::types::{ConfigIssue, FlatError, KeyView, Metric};

verus! {

/// `s` after `swap_remove(slot)`: the last element moves into `slot` and the
/// sequence shrinks by one.
pub open spec fn swap_removed<T>(s: Seq<T>, slot: int) -> Seq<T> {
    s.update(slot, s.last()).drop_last()
}

/// One call on an index: an insert, a delete, or a batch insert.
pub enum Call<V, M> {
    Insert(KeyView, V, usize, M),
    Delete(KeyView),
    Batch(Seq<(KeyView, V, usize, M)>),
}

/// The mathematical state of a flat index: the rows in storage order, each
/// with its id, payload, metadata and insertion stamp, and the next stamp to
/// hand out.
#[verifier::ext_equal]
pub struct FlatView<V, M> {
    pub dim: usize,
    pub metric: Metric,
    pub ids: Seq<KeyView>,
    pub rows: Seq<V>,
    pub metadata: Seq<M>,
    pub stamps: Seq<u64>,
    pub next_stamp: u64,
}

impl<V, M> FlatView<V, M> {
    /// The number of stored rows.
    pub open spec fn len(self) -> nat {
        self.ids.len()
    }

    /// The invariant every index state keeps: a positive dimension, parallel
    /// stores of one length, no id and no stamp twice, and every stamp below
    /// the next one to be handed out.
    pub open spec fn valid(self) -> bool {
        &&& self.dim > 0
        &&& self.rows.len() == self.ids.len()
        &&& self.metadata.len() == self.ids.len()
        &&& self.stamps.len() == self.ids.len()
        &&& forall|i: int, j: int|
            0 <= i < self.ids.len() && 0 <= j < self.ids.len() && i != j ==> self.ids[i]
                != self.ids[j]
        &&& distinct_stamps(self.stamps)
        &&& forall|i: int| 0 <= i < self.stamps.len() ==> #[trigger] self.stamps[i] < self.next_stamp
    }

    /// An index with no rows.
    pub open spec fn empty(dim: usize, metric: Metric) -> Self {
        FlatView {
            dim,
            metric,
            ids: Seq::empty(),
            rows: Seq::empty(),
            metadata: Seq::empty(),
            stamps: Seq::empty(),
            next_stamp: 0,
        }
    }

    /// Whether a row with id `key` is stored.
    pub open spec fn holds(self, key: KeyView) -> bool {
        self.ids.contains(key)
    }

    /// The storage slot of the row with id `key`.
    pub open spec fn slot_of(self, key: KeyView) -> int {
        choose|i: int| 0 <= i < self.ids.len() && self.ids[i] == key
    }

    /// What an insert of `key` with a `vector_len`-component vector answers:
    /// the dimension is checked first, then duplicates, then whether a stamp
    /// is left to hand out.
    pub open spec fn insert_result(self, key: KeyView, vector_len: usize) -> Result<(), FlatError> {
        if vector_len != self.dim {
            Err(FlatError::DimensionMismatch { expected: self.dim, found: vector_len })
        } else if self.holds(key) {
            Err(FlatError::Duplicate)
        } else if self.next_stamp == u64::MAX {
            Err(FlatError::InvalidConfig(ConfigIssue::StampsExhausted))
        } else {
            Ok(())
        }
    }

    /// The state with one more row at the back, stamped with the next stamp.
    pub open spec fn with_row(self, key: KeyView, row: V, meta: M) -> Self {
        FlatView {
            dim: self.dim,
            metric: self.metric,
            ids: self.ids.push(key),
            rows: self.rows.push(row),
            metadata: self.metadata.push(meta),
            stamps: self.stamps.push(self.next_stamp),
            next_stamp: (self.next_stamp + 1) as u64,
        }
    }

    /// The state after an insert: the new row when it is accepted, the same
    /// state when it is refused.
    pub open spec fn after_insert(self, key: KeyView, row: V, vector_len: usize, meta: M) -> Self {
        if self.insert_result(key, vector_len) is Ok {
            self.with_row(key, row, meta)
        } else {
            self
        }
    }

    /// The state with the row in `slot` swap-removed from every store.
    pub open spec fn without_slot(self, slot: int) -> Self {
        FlatView {
            dim: self.dim,
            metric: self.metric,
            ids: swap_removed(self.ids, slot),
            rows: swap_removed(self.rows, slot),
            metadata: swap_removed(self.metadata, slot),
            stamps: swap_removed(self.stamps, slot),
            next_stamp: self.next_stamp,
        }
    }

    /// What a delete of `key` answers.
    pub open spec fn delete_result(self, key: KeyView) -> Result<(), FlatError> {
        if self.holds(key) {
            Ok(())
        } else {
            Err(FlatError::NotFound)
        }
    }

    /// The state after a delete of `key`.
    pub open spec fn after_delete(self, key: KeyView) -> Self {
        if self.holds(key) {
            self.without_slot(self.slot_of(key))
        } else {
            self
        }
    }

    /// Inserting `items` in order, stopping at the first refusal: the state
    /// reached and the answer.
    pub open spec fn after_batch(self, items: Seq<(KeyView, V, usize, M)>) -> (Self, Result<(), FlatError>)
        decreases items.len(),
    {
        if items.len() == 0 {
            (self, Ok(()))
        } else {
            let (before, answer) = self.after_batch(items.drop_last());
            if answer is Err {
                (before, answer)
            } else {
                let item = items.last();
                (
                    before.after_insert(item.0, item.1, item.2, item.3),
                    before.insert_result(item.0, item.2),
                )
            }
        }
    }

    /// Once a batch prefix is refused, the rest of the batch changes nothing.
    pub proof fn lemma_batch_stops(self, items: Seq<(KeyView, V, usize, M)>, i: int)
        requires
            0 <= i <= items.len(),
            self.after_batch(items.take(i)).1 is Err,
        ensures
            self.after_batch(items) == self.after_batch(items.take(i)),
        decreases items.len(),
    {
        if i < items.len() {
            assert(items.drop_last().take(i) =~= items.take(i));
            self.lemma_batch_stops(items.drop_last(), i);
        } else {
            assert(items.take(i) =~= items);
        }
    }

    /// What a search with a `query_len`-component query, `metric` and `k`
    /// answers before any distance is computed: a dimension or metric
    /// mismatch, or whether there is anything to rank.
    pub open spec fn search_check(self, query_len: usize, metric: Metric, k: usize) -> Result<bool, FlatError> {
        if query_len != self.dim {
            Err(FlatError::DimensionMismatch { expected: self.dim, found: query_len })
        } else if metric != self.metric {
            Err(FlatError::InvalidMetric)
        } else {
            Ok(k != 0 && self.len() != 0)
        }
    }

    /// Raw distance bits turned into smaller-is-nearer distances: the inner
    /// product is negated, every other metric is kept as it is.
    pub open spec fn adjusted(self, raw: Seq<u32>) -> Seq<u32> {
        if self.metric == Metric::DotProduct {
            raw.map_values(|b: u32| negated(b))
        } else {
            raw
        }
    }

    /// The number of items of a batch that are inserted before it stops.
    pub open spec fn batch_landed(self, items: Seq<(KeyView, V, usize, M)>) -> nat
        decreases items.len(),
    {
        if items.len() == 0 {
            0
        } else {
            let (before, answer) = self.after_batch(items.drop_last());
            let last = items.last();
            if answer is Ok && before.insert_result(last.0, last.2) is Ok {
                self.batch_landed(items.drop_last()) + 1
            } else {
                self.batch_landed(items.drop_last())
            }
        }
    }

    /// The state after `call` and its answer.
    pub open spec fn apply(self, call: Call<V, M>) -> (Self, Result<(), FlatError>) {
        match call {
            Call::Insert(key, row, vector_len, meta) => (
                self.after_insert(key, row, vector_len, meta),
                self.insert_result(key, vector_len),
            ),
            Call::Delete(key) => (self.after_delete(key), self.delete_result(key)),
            Call::Batch(items) => self.after_batch(items),
        }
    }

    /// The rows `call` adds: one for an accepted insert, one for each
    /// inserted item of a batch, minus one for an accepted delete.
    pub open spec fn landed_by(self, call: Call<V, M>) -> int {
        match call {
            Call::Insert(key, _, vector_len, _) => if self.insert_result(key, vector_len) is Ok {
                1
            } else {
                0
            },
            Call::Delete(key) => if self.delete_result(key) is Ok {
                -1
            } else {
                0
            },
            Call::Batch(items) => self.batch_landed(items) as int,
        }
    }

    /// The state after `calls`, made in order.
    pub open spec fn run(self, calls: Seq<Call<V, M>>) -> Self
        decreases calls.len(),
    {
        if calls.len() == 0 {
            self
        } else {
            self.run(calls.drop_last()).apply(calls.last()).0
        }
    }

    /// The rows `calls` add in all: accepted inserts and inserted batch
    /// items, less accepted deletes.
    pub open spec fn landed(self, calls: Seq<Call<V, M>>) -> int
        decreases calls.len(),
    {
        if calls.len() == 0 {
            0
        } else {
            self.landed(calls.drop_last()) + self.run(calls.drop_last()).landed_by(calls.last())
        }
    }
}

} // verus!
