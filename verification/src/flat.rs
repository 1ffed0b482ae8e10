use vstd::layout::size_of;
use vstd::prelude::*;

use crate::memory::{footprint_bytes, lemma_footprint_positive, memory_bytes, saturated, vec_capacity, Footprint, PayloadLayout, StoreUse};
use crate::model::{swap_removed, FlatView};
use crate::order::{negate_bits, negated};
use crate::slots::{digests, SlotMap};
use crate::topk::{clamp, is_top_k, select_topk_indices};
use crate::types::{ConfigIssue, FlatConfig, FlatError, KeyView, Metric, VectorKey};

verus! {

/// The items of a batch insert, each id taken by its view.
pub open spec fn batch_view<V, M>(items: Seq<(VectorKey, V, usize, M)>) -> Seq<(KeyView, V, usize, M)> {
    items.map_values(|it: (VectorKey, V, usize, M)| (it.0@, it.1, it.2, it.3))
}

/// `slots` is strictly ascending and below `n`.
pub open spec fn ascending_slots(slots: Seq<usize>, n: nat) -> bool {
    &&& forall|q: int| 0 <= q < slots.len() ==> #[trigger] slots[q] < n
    &&& forall|a: int, b: int|
        #![trigger slots[a], slots[b]]
        0 <= a < b < slots.len() ==> slots[a] < slots[b]
}

/// The stamps of the rows in `slots`, in that order.
pub open spec fn gathered_stamps(stamps: Seq<u64>, slots: Seq<usize>) -> Seq<u64> {
    slots.map_values(|i: usize| stamps[i as int])
}

/// The slots of ranked rows, in rank order.
pub open spec fn slots_of(hits: Seq<Scored>) -> Seq<usize> {
    hits.map_values(|h: Scored| h.slot)
}

/// One ranked row of a search: its storage slot and its distance bits
/// (smaller is nearer).
#[derive(Debug, Clone, Copy, PartialEq, Eq, Structural)]
pub struct Scored {
    pub slot: usize,
    pub distance: u32,
}

/// The rows of a [`FlatIndex`].
///
/// Storage is four parallel `Vec`s (payloads, ids, metadata, insertion
/// stamps) plus a map from each id to its slot. Insert pushes to the back;
/// delete swap-removes. Ties between equal distances are broken by the
/// stamp, which never changes once handed out, so deleting rows never
/// reorders the rest.
pub(crate) struct RowStore<V, M> {
    dim: usize,
    metric: Metric,
    vectors: Vec<V>,
    ids: Vec<VectorKey>,
    metadata: Vec<M>,
    seqs: Vec<u64>,
    next_seq: u64,
    id_to_pos: SlotMap,
}

impl<V, M> View for RowStore<V, M> {
    type V = FlatView<V, M>;

    closed spec fn view(&self) -> FlatView<V, M> {
        FlatView {
            dim: self.dim,
            metric: self.metric,
            ids: self.ids@.map_values(|k: VectorKey| k@),
            rows: self.vectors@,
            metadata: self.metadata@,
            stamps: self.seqs@,
            next_stamp: self.next_seq,
        }
    }
}

impl<V, M> RowStore<V, M> {
    /// The index is well formed: its view is valid and the slot map points
    /// each stored id at its slot and at nothing else.
    pub(crate) closed spec fn wf(&self) -> bool {
        &&& self@.valid()
        &&& self.ids@.len() == self.vectors@.len()
        &&& self.id_to_pos.locates(self@.ids)
    }

    /// Builds an empty index for `dim`-component vectors compared under
    /// `metric`; a zero `dim` is refused.
    pub(crate) fn new_unconfigured(dim: usize, metric: Metric) -> (r: Result<Self, FlatError>)
        ensures
            dim == 0 ==> r == Err::<Self, FlatError>(
                FlatError::InvalidConfig(ConfigIssue::ZeroDimension),
            ),
            dim > 0 ==> r is Ok && r->Ok_0.wf() && r->Ok_0@ == FlatView::<V, M>::empty(dim, metric),
    {
        if dim == 0 {
            return Err(FlatError::InvalidConfig(ConfigIssue::ZeroDimension));
        }
        let idx = RowStore {
            dim,
            metric,
            vectors: Vec::new(),
            ids: Vec::new(),
            metadata: Vec::new(),
            seqs: Vec::new(),
            next_seq: 0,
            id_to_pos: SlotMap::new(),
        };
        assert(idx@.ids =~= Seq::<KeyView>::empty());
        Ok(idx)
    }

    /// An empty store for `dim`-component rows.
    fn vacant(dim: usize, metric: Metric) -> (store: Self)
        requires
            dim > 0,
        ensures
            store.wf(),
            store@ == FlatView::<V, M>::empty(dim, metric),
    {
        let store = RowStore {
            dim,
            metric,
            vectors: Vec::new(),
            ids: Vec::new(),
            metadata: Vec::new(),
            seqs: Vec::new(),
            next_seq: 0,
            id_to_pos: SlotMap::new(),
        };
        assert(store@.ids =~= Seq::<KeyView>::empty());
        store
    }

    /// The dimensionality the index was built for.
    pub(crate) fn dim(&self) -> (d: usize)
        ensures
            d == self@.dim,
    {
        self.dim
    }

    /// The metric the index was built for.
    pub(crate) fn metric(&self) -> (m: Metric)
        ensures
            m == self@.metric,
    {
        self.metric
    }

    /// The number of stored rows.
    pub(crate) fn len(&self) -> (n: usize)
        requires
            self.wf(),
        ensures
            n == self@.len(),
    {
        self.ids.len()
    }

    /// Whether the index holds no rows.
    pub(crate) fn is_empty(&self) -> (e: bool)
        requires
            self.wf(),
        ensures
            e == (self@.len() == 0),
    {
        self.ids.len() == 0
    }

    /// Inserts one row: the id `id`, the payload `vector` (stored as it is
    /// handed in, never copied), whose component count is `vector_len`, and
    /// the metadata `metadata`. The row gets the next insertion stamp.
    ///
    /// Refused, with the index unchanged, when `vector_len` is not the
    /// dimension (checked first), when `id` is already stored, or when the
    /// stamp counter is spent.
    pub(crate) fn insert(&mut self, id: VectorKey, vector: V, vector_len: usize, metadata: M) -> (r: Result<
        (),
        FlatError,
    >)
        requires
            old(self).wf(),
        ensures
            final(self).wf(),
            r == old(self)@.insert_result(id@, vector_len),
            final(self)@ == old(self)@.after_insert(id@, vector, vector_len, metadata),
    {
        self.check_dim(vector_len)?;
        if let Some(slot) = self.id_to_pos.find(&self.ids, &id) {
            proof {
                assert(self@.ids[slot as int] == id@);
            }
            return Err(FlatError::Duplicate);
        }
        let pos = self.ids.len();
        let seq = self.next_seq;
        let next = match self.next_seq.checked_add(1) {
            Some(n) => n,
            None => {
                return Err(FlatError::InvalidConfig(ConfigIssue::StampsExhausted));
            },
        };
        let ghost before = self@;
        self.id_to_pos.add(Ghost(before.ids), &id, pos);
        self.next_seq = next;
        self.vectors.push(vector);
        self.ids.push(id);
        self.metadata.push(metadata);
        self.seqs.push(seq);
        proof {
            assert(self@.ids =~= before.ids.push(id@));
            assert(self@ =~= before.with_row(id@, vector, metadata));
            assert forall|i: int, j: int|
                0 <= i < self@.ids.len() && 0 <= j < self@.ids.len() && i != j implies self@.ids[i]
                != self@.ids[j] by {
                if i == pos {
                    assert(before.ids[j] == old(self).ids@[j]@);
                } else if j == pos {
                    assert(before.ids[i] == old(self).ids@[i]@);
                }
            }
        }
        Ok(())
    }

    /// Removes the row with id `id`: the last row moves into its slot and
    /// every other row keeps its slot, payload, metadata and stamp.
    /// Refused with `NotFound`, the index unchanged, when no row has `id`.
    pub(crate) fn delete(&mut self, id: &VectorKey) -> (r: Result<(), FlatError>)
        requires
            old(self).wf(),
        ensures
            final(self).wf(),
            r == old(self)@.delete_result(id@),
            final(self)@ == old(self)@.after_delete(id@),
    {
        let ghost before = self@;
        let ghost old_ids = self.ids@;
        let pos = match self.id_to_pos.find(&self.ids, id) {
            Some(p) => p,
            None => {
                proof {
                    if before.holds(id@) {
                        let i = choose|i: int| 0 <= i < before.ids.len() && before.ids[i] == id@;
                        assert(old_ids[i]@ == before.ids[i]);
                    }
                }
                return Err(FlatError::NotFound);
            },
        };
        let last = self.ids.len() - 1;
        if pos < last {
            self.id_to_pos.replace(Ghost(before.ids), pos, &self.ids[pos], &self.ids[last]);
            self.id_to_pos.pop(
                Ghost(before.ids.update(pos as int, before.ids[last as int])),
                &self.ids[last],
                last,
            );
        } else {
            self.id_to_pos.pop(Ghost(before.ids), &self.ids[last], last);
        }
        let _v = self.vectors.swap_remove(pos);
        let _i = self.ids.swap_remove(pos);
        let _m = self.metadata.swap_remove(pos);
        let _s = self.seqs.swap_remove(pos);
        proof {
            let n = old_ids.len();
            assert(self.ids@ =~= swap_removed(old_ids, pos as int));
            assert(self@.ids =~= swap_removed(before.ids, pos as int));
            assert(self@ =~= before.without_slot(pos as int));
            if pos < last {
                assert(before.ids.update(pos as int, before.ids[last as int]).drop_last()
                    =~= self@.ids);
            } else {
                assert(before.ids.drop_last() =~= self@.ids);
            }
            assert forall|i: int, j: int|
                0 <= i < self@.ids.len() && 0 <= j < self@.ids.len() && i != j implies self@.ids[i]
                != self@.ids[j] by {
                if i == pos {
                    assert(before.ids[n - 1] != before.ids[j]);
                } else if j == pos {
                    assert(before.ids[n - 1] != before.ids[i]);
                } else {
                    assert(before.ids[i] != before.ids[j]);
                }
            }
            assert forall|i: int, j: int|
                0 <= i < self@.stamps.len() && 0 <= j < self@.stamps.len() && i != j
                    implies self@.stamps[i] != self@.stamps[j] by {
                let oi = if i == pos { n - 1 } else { i };
                let oj = if j == pos { n - 1 } else { j };
                assert(before.stamps[oi] != before.stamps[oj]);
            }
            assert forall|i: int| 0 <= i < self@.stamps.len() implies #[trigger] self@.stamps[i]
                < self@.next_stamp by {
                let oi = if i == pos { n - 1 } else { i };
                assert(before.stamps[oi] < before.next_stamp);
            }
            assert(before.ids[pos as int] == id@);
            let c = before.slot_of(id@);
            assert(before.ids[c] == id@);
        }
        Ok(())
    }

    /// Inserts `items` in order, each as [`RowStore::insert`] would, after
    /// reserving room for all of them. Fail-fast: the first refusal is
    /// returned at once, and the rows inserted before it stay.
    pub(crate) fn insert_batch(&mut self, items: Vec<(VectorKey, V, usize, M)>) -> (r: Result<
        (),
        FlatError,
    >)
        requires
            old(self).wf(),
        ensures
            final(self).wf(),
            (final(self)@, r) == old(self)@.after_batch(batch_view(items@)),
    {
        let additional = items.len();
        self.vectors.reserve(additional);
        self.ids.reserve(additional);
        self.metadata.reserve(additional);
        self.seqs.reserve(additional);
        self.id_to_pos.reserve(additional);
        let ghost start = self@;
        let ghost all = batch_view(items@);
        assert(start =~= old(self)@);
        proof {
            assert(all.take(0) =~= Seq::<(KeyView, V, usize, M)>::empty());
        }
        for item in it: items
            invariant
                self.wf(),
                all == batch_view(items@),
                start == old(self)@,
                (self@, Ok::<(), FlatError>(())) == start.after_batch(all.take(it.index() as int)),
        {
            let ghost i = it.index() as int;
            let ghost prefix = all.take(i);
            let (id, vector, vector_len, metadata) = item;
            let ghost before = self@;
            let r = self.insert(id, vector, vector_len, metadata);
            proof {
                assert(all.take(i + 1).drop_last() =~= prefix);
                assert(all.take(i + 1).last() == all[i]);
                assert(all[i] == (id@, vector, vector_len, metadata));
                assert(start.after_batch(all.take(i + 1)) == (self@, r));
            }
            if r.is_err() {
                proof {
                    start.lemma_batch_stops(all, i + 1);
                    assert(start.after_batch(all) == (self@, r));
                }
                return r;
            }
        }
        proof {
            assert(all.take(all.len() as int) =~= all);
        }
        Ok(())
    }

    /// The checks a search makes before any distance is computed: the
    /// query's component count against the dimension (first), then the
    /// query's metric against the index's. `Ok(false)` when `k` is zero or
    /// the index is empty, so there is nothing to rank.
    pub(crate) fn check_search(&self, query_len: usize, metric: Metric, k: usize) -> (r: Result<
        bool,
        FlatError,
    >)
        requires
            self.wf(),
        ensures
            r == self@.search_check(query_len, metric, k),
    {
        self.check_dim(query_len)?;
        if metric != self.metric {
            return Err(FlatError::InvalidMetric);
        }
        Ok(k != 0 && self.ids.len() != 0)
    }

    /// The slots whose row a filter accepted, in ascending order:
    /// `mask[i]` says whether the row in slot `i` passed.
    pub(crate) fn accepted_slots(&self, mask: &Vec<bool>) -> (accepted: Vec<usize>)
        requires
            self.wf(),
            mask.len() == self@.len(),
        ensures
            ascending_slots(accepted@, self@.len()),
            forall|i: int| 0 <= i < self@.len() ==> (mask@[i] <==> accepted@.contains(i as usize)),
    {
        let n = self.ids.len();
        let mut accepted: Vec<usize> = Vec::new();
        let mut i: usize = 0;
        while i < n
            invariant
                n == mask.len(),
                n == self@.len(),
                i <= n,
                ascending_slots(accepted@, i as nat),
                forall|j: int| 0 <= j < i ==> (mask@[j] <==> accepted@.contains(j as usize)),
            decreases n - i,
        {
            let ghost before = accepted@;
            if mask[i] {
                accepted.push(i);
                proof {
                    assert(accepted@[before.len() as int] == i);
                    assert forall|j: int| 0 <= j < i implies (mask@[j] <==> accepted@.contains(
                        j as usize,
                    )) by {
                        if mask@[j] {
                            assert(before.contains(j as usize));
                            let q = choose|q: int| 0 <= q < before.len() && before[q] == j as usize;
                            assert(accepted@[q] == j as usize);
                        }
                        if accepted@.contains(j as usize) {
                            let q = choose|q: int|
                                0 <= q < accepted@.len() && accepted@[q] == j as usize;
                            assert(q < before.len());
                            assert(before[q] == j as usize);
                        }
                    }
                }
            } else {
                proof {
                    assert(!accepted@.contains(i as usize));
                }
            }
            i += 1;
        }
        accepted
    }

    /// Ranks every row: `raw[i]` is the raw distance bits of the row in
    /// slot `i`. The distances are made smaller-is-nearer (the inner
    /// product is negated) and the exact top-`k` rows are returned best
    /// first, ties going to the earlier insertion stamp.
    pub(crate) fn search_unfiltered(&self, raw: Vec<u32>, k: usize) -> (hits: Vec<Scored>)
        requires
            self.wf(),
            raw.len() == self@.len(),
        ensures
            is_top_k(self@.adjusted(raw@), self@.stamps, k as nat, slots_of(hits@)),
            forall|q: int|
                0 <= q < hits.len() ==> (#[trigger] hits@[q]).distance == self@.adjusted(
                    raw@,
                )[hits@[q].slot as int],
    {
        let distances = self.adjust(raw);
        let chosen = select_topk_indices(&distances, &self.seqs, k);
        let mut hits: Vec<Scored> = Vec::new();
        let mut q: usize = 0;
        while q < chosen.len()
            invariant
                q <= chosen.len(),
                hits.len() == q,
                distances@ == self@.adjusted(raw@),
                distances.len() == self@.len(),
                forall|c: int| 0 <= c < chosen.len() ==> #[trigger] chosen@[c] < distances.len(),
                forall|c: int|
                    0 <= c < q ==> (#[trigger] hits@[c]).slot == chosen@[c] && hits@[c].distance
                        == distances@[chosen@[c] as int],
            decreases chosen.len() - q,
        {
            let slot = chosen[q];
            hits.push(Scored { slot, distance: distances[slot] });
            q += 1;
        }
        proof {
            assert(slots_of(hits@) =~= chosen@);
        }
        hits
    }

    /// Ranks the rows a filter accepted: `accepted` are their slots in
    /// ascending order and `raw[c]` is the raw distance bits of the row in
    /// slot `accepted[c]`. Only accepted rows are ranked; the result is
    /// their exact top-`k`, best first, as [`RowStore::search_unfiltered`]
    /// ranks.
    pub(crate) fn search_filtered(&self, accepted: &Vec<usize>, raw: Vec<u32>, k: usize) -> (hits: Vec<
        Scored,
    >)
        requires
            self.wf(),
            ascending_slots(accepted@, self@.len()),
            raw.len() == accepted.len(),
        ensures
            exists|chosen: Seq<usize>|
                #[trigger] is_top_k(
                    self@.adjusted(raw@),
                    gathered_stamps(self@.stamps, accepted@),
                    k as nat,
                    chosen,
                ) && hits.len() == chosen.len() && forall|q: int|
                    0 <= q < hits.len() ==> (#[trigger] hits@[q]).slot == accepted@[chosen[q] as int]
                        && hits@[q].distance == self@.adjusted(raw@)[chosen[q] as int],
    {
        let mut accepted_seqs: Vec<u64> = Vec::new();
        let mut c: usize = 0;
        while c < accepted.len()
            invariant
                c <= accepted.len(),
                self.wf(),
                ascending_slots(accepted@, self@.len()),
                accepted_seqs@ =~= gathered_stamps(self@.stamps, accepted@).take(c as int),
            decreases accepted.len() - c,
        {
            accepted_seqs.push(self.seqs[accepted[c]]);
            c += 1;
            proof {
                assert(accepted_seqs@ =~= gathered_stamps(self@.stamps, accepted@).take(c as int));
            }
        }
        proof {
            assert(accepted_seqs@ =~= gathered_stamps(self@.stamps, accepted@).take(
                accepted@.len() as int,
            ));
            assert(gathered_stamps(self@.stamps, accepted@).take(accepted@.len() as int)
                =~= gathered_stamps(self@.stamps, accepted@));
            let g = gathered_stamps(self@.stamps, accepted@);
            assert forall|a: int, b: int|
                0 <= a < g.len() && 0 <= b < g.len() && a != b implies g[a] != g[b] by {
                if a < b {
                    assert(accepted@[a] < accepted@[b]);
                } else {
                    assert(accepted@[b] < accepted@[a]);
                }
            }
        }
        let distances = self.adjust(raw);
        let chosen = select_topk_indices(&distances, &accepted_seqs, k);
        let mut hits: Vec<Scored> = Vec::new();
        let mut q: usize = 0;
        while q < chosen.len()
            invariant
                q <= chosen.len(),
                hits.len() == q,
                distances.len() == accepted.len(),
                forall|j: int| 0 <= j < chosen.len() ==> #[trigger] chosen@[j] < distances.len(),
                forall|j: int|
                    0 <= j < q ==> (#[trigger] hits@[j]).slot == accepted@[chosen@[j] as int]
                        && hits@[j].distance == distances@[chosen@[j] as int],
            decreases chosen.len() - q,
        {
            let cand = chosen[q];
            hits.push(Scored { slot: accepted[cand], distance: distances[cand] });
            q += 1;
        }
        proof {
            assert(is_top_k(
                self@.adjusted(raw@),
                gathered_stamps(self@.stamps, accepted@),
                k as nat,
                chosen@,
            ));
        }
        hits
    }

    fn adjust(&self, raw: Vec<u32>) -> (distances: Vec<u32>)
        ensures
            distances@ == self@.adjusted(raw@),
    {
        let mut distances = raw;
        if self.metric == Metric::DotProduct {
            let mut i: usize = 0;
            while i < distances.len()
                invariant
                    i <= distances.len(),
                    distances.len() == raw.len(),
                    forall|j: int| 0 <= j < i ==> distances@[j] == negated(raw@[j]),
                    forall|j: int| i <= j < distances.len() ==> distances@[j] == raw@[j],
                decreases distances.len() - i,
            {
                let value = negate_bits(distances[i]);
                distances.set(i, value);
                i += 1;
            }
            proof {
                assert(distances@ =~= raw@.map_values(|b: u32| negated(b)));
            }
        }
        distances
    }

    /// The stored payloads, in storage order.
    pub(crate) fn rows(&self) -> (rows: &Vec<V>)
        ensures
            rows@ == self@.rows,
    {
        &self.vectors
    }

    /// The id of the row in `slot`.
    pub(crate) fn id_at(&self, slot: usize) -> (id: &VectorKey)
        requires
            self.wf(),
            slot < self@.len(),
        ensures
            id@ == self@.ids[slot as int],
    {
        &self.ids[slot]
    }

    /// The metadata of the row in `slot`.
    pub(crate) fn metadata_at(&self, slot: usize) -> (meta: &M)
        requires
            self.wf(),
            slot < self@.len(),
        ensures
            *meta == self@.metadata[slot as int],
    {
        &self.metadata[slot]
    }

    /// Approximate resident footprint of the index in bytes, for capacity
    /// dashboards: each payload counted once under `payload` (rows have
    /// `dim` components), plus each store's capacity times its slot size.
    /// The capacities are the allocator's; the result is the saturated
    /// estimate for some capacities at least the stores' lengths.
    pub(crate) fn approximate_memory_bytes(&self, payload: PayloadLayout) -> (bytes: usize)
        requires
            self.wf(),
        ensures
            exists|f: Footprint|
                {
                    &&& f.vectors.capacity >= self@.len() && f.ids.capacity >= self@.len()
                    &&& f.metadata.capacity >= self@.len() && f.stamps.capacity >= self@.len()
                    &&& f.slot_map.capacity >= digests(self@.ids).len()
                    &&& f.vectors.slot_bytes == size_of::<V>()
                    &&& f.ids.slot_bytes == size_of::<VectorKey>()
                    &&& f.metadata.slot_bytes == size_of::<M>()
                    &&& f.stamps.slot_bytes == size_of::<u64>()
                    &&& f.slot_map.slot_bytes == saturated(
                        (size_of::<u64>() + size_of::<Vec<usize>>()) as int,
                    )
                    &&& bytes == #[trigger] saturated(
                        footprint_bytes(self@.len() as usize, self@.dim, payload, f),
                    )
                },
            self@.len() > 0 && (payload.component_bytes > 0 || payload.header_bytes > 0) ==> bytes
                > 0,
    {
        proof {
            assert(self@.ids.len() == self.ids.len());
            self.id_to_pos.lemma_bucket_count(self@.ids);
        }
        let f = Footprint {
            vectors: StoreUse {
                capacity: vec_capacity(&self.vectors),
                slot_bytes: core::mem::size_of::<V>(),
            },
            ids: StoreUse {
                capacity: vec_capacity(&self.ids),
                slot_bytes: core::mem::size_of::<VectorKey>(),
            },
            metadata: StoreUse {
                capacity: vec_capacity(&self.metadata),
                slot_bytes: core::mem::size_of::<M>(),
            },
            stamps: StoreUse {
                capacity: vec_capacity(&self.seqs),
                slot_bytes: core::mem::size_of::<u64>(),
            },
            slot_map: StoreUse {
                capacity: self.id_to_pos.capacity(),
                slot_bytes: core::mem::size_of::<u64>().saturating_add(
                    core::mem::size_of::<Vec<usize>>(),
                ),
            },
        };
        let bytes = memory_bytes(self.ids.len(), self.dim, payload, f);
        proof {
            assert(self.ids.len() == self@.len() as usize);
            assert(bytes == saturated(footprint_bytes(self@.len() as usize, self@.dim, payload, f)));
            if self@.len() > 0 && (payload.component_bytes > 0 || payload.header_bytes > 0) {
                lemma_footprint_positive(self@.len() as usize, self@.dim, payload, f);
            }
        }
        bytes
    }

    fn check_dim(&self, vector_len: usize) -> (r: Result<(), FlatError>)
        ensures
            r == (if vector_len != self@.dim {
                Err(FlatError::DimensionMismatch { expected: self@.dim, found: vector_len })
            } else {
                Ok(())
            }),
    {
        if vector_len != self.dim {
            return Err(FlatError::DimensionMismatch { expected: self.dim, found: vector_len });
        }
        Ok(())
    }
}

/// Brute-force exact nearest-neighbour index over rows of type `V` with
/// metadata of type `M`.
///
/// Storage is four parallel `Vec`s (payloads, ids, metadata, insertion
/// stamps) plus a map from each id to its slot. Insert pushes to the back;
/// delete swap-removes. Ties between equal distances are broken by the
/// stamp, which never changes once handed out, so deleting rows never
/// reorders the rest. Every index is well formed ([`FlatIndex::wf`]) at all
/// times.
pub struct FlatIndex<V, M> {
    store: RowStore<V, M>,
}

impl<V, M> View for FlatIndex<V, M> {
    type V = FlatView<V, M>;

    closed spec fn view(&self) -> FlatView<V, M> {
        self.store@
    }
}

impl<V, M> FlatIndex<V, M> {
    /// The index is well formed: its view is valid and the slot map points
    /// each stored id at its slot and at nothing else. Every index keeps
    /// this at all times; `use_type_invariant` hands it to a caller.
    #[verifier::type_invariant]
    pub closed spec fn wf(&self) -> bool {
        self.store.wf()
    }

    /// A well-formed index has a valid view: a positive dimension, parallel
    /// stores of one length, no id and no stamp twice, and every stamp below
    /// the next one to be handed out.
    pub proof fn lemma_wf_valid(&self)
        requires
            self.wf(),
        ensures
            self@.valid(),
    {
    }

    /// Takes the rows out, leaving an empty store of the same dimension and
    /// metric in their place.
    fn take_store(&mut self) -> (store: RowStore<V, M>)
        ensures
            store.wf(),
            store@ == old(self)@,
            final(self)@ == FlatView::<V, M>::empty(old(self)@.dim, old(self)@.metric),
    {
        proof {
            use_type_invariant(&*self);
        }
        let mut store = RowStore::vacant(self.store.dim(), self.store.metric());
        std::mem::swap(&mut store, &mut self.store);
        store
    }

    /// Builds an empty index for `dim`-component vectors compared under
    /// `metric`; a zero `dim` is refused.
    pub fn new_unconfigured(dim: usize, metric: Metric) -> (r: Result<Self, FlatError>)
        ensures
            dim == 0 ==> r == Err::<Self, FlatError>(
                FlatError::InvalidConfig(ConfigIssue::ZeroDimension),
            ),
            dim > 0 ==> r is Ok && r->Ok_0@ == FlatView::<V, M>::empty(dim, metric),
    {
        match RowStore::new_unconfigured(dim, metric) {
            Ok(store) => Ok(FlatIndex { store }),
            Err(e) => Err(e),
        }
    }

    /// Builds an empty index, as [`FlatIndex::new_unconfigured`] does;
    /// `config` has nothing to tune.
    pub fn new(dim: usize, metric: Metric, config: FlatConfig) -> (r: Result<Self, FlatError>)
        ensures
            dim == 0 ==> r == Err::<Self, FlatError>(
                FlatError::InvalidConfig(ConfigIssue::ZeroDimension),
            ),
            dim > 0 ==> r is Ok && r->Ok_0@ == FlatView::<V, M>::empty(dim, metric),
    {
        let _unused = config;
        Self::new_unconfigured(dim, metric)
    }

    /// The dimensionality the index was built for.
    pub fn dim(&self) -> (d: usize)
        ensures
            d == self@.dim,
    {
        self.store.dim()
    }

    /// The metric the index was built for.
    pub fn metric(&self) -> (m: Metric)
        ensures
            m == self@.metric,
    {
        self.store.metric()
    }

    /// The number of stored rows.
    pub fn len(&self) -> (n: usize)
        ensures
            n == self@.len(),
    {
        proof {
            use_type_invariant(self);
        }
        self.store.len()
    }

    /// Whether the index holds no rows.
    pub fn is_empty(&self) -> (e: bool)
        ensures
            e == (self@.len() == 0),
    {
        proof {
            use_type_invariant(self);
        }
        self.store.is_empty()
    }

    /// Inserts one row: the id `id`, the payload `vector` (stored as it is
    /// handed in, never copied), whose component count is `vector_len`, and
    /// the metadata `metadata`. The row gets the next insertion stamp.
    ///
    /// Refused, with the index unchanged, when `vector_len` is not the
    /// dimension (checked first), when `id` is already stored, or when the
    /// stamp counter is spent.
    pub fn insert(&mut self, id: VectorKey, vector: V, vector_len: usize, metadata: M) -> (r: Result<
        (),
        FlatError,
    >)
        ensures
            r == old(self)@.insert_result(id@, vector_len),
            final(self)@ == old(self)@.after_insert(id@, vector, vector_len, metadata),
    {
        let mut store = self.take_store();
        let r = store.insert(id, vector, vector_len, metadata);
        self.store = store;
        r
    }

    /// Removes the row with id `id`: the last row moves into its slot and
    /// every other row keeps its slot, payload, metadata and stamp.
    /// Refused with `NotFound`, the index unchanged, when no row has `id`.
    pub fn delete(&mut self, id: &VectorKey) -> (r: Result<(), FlatError>)
        ensures
            r == old(self)@.delete_result(id@),
            final(self)@ == old(self)@.after_delete(id@),
    {
        let mut store = self.take_store();
        let r = store.delete(id);
        self.store = store;
        r
    }

    /// Inserts `items` in order, each as [`FlatIndex::insert`] would, after
    /// reserving room for all of them. Fail-fast: the first refusal is
    /// returned at once, and the rows inserted before it stay.
    pub fn insert_batch(&mut self, items: Vec<(VectorKey, V, usize, M)>) -> (r: Result<
        (),
        FlatError,
    >)
        ensures
            (final(self)@, r) == old(self)@.after_batch(batch_view(items@)),
    {
        let mut store = self.take_store();
        let r = store.insert_batch(items);
        self.store = store;
        r
    }

    /// The checks a search makes before any distance is computed: the
    /// query's component count against the dimension (first), then the
    /// query's metric against the index's. `Ok(false)` when `k` is zero or
    /// the index is empty, so there is nothing to rank.
    pub fn check_search(&self, query_len: usize, metric: Metric, k: usize) -> (r: Result<
        bool,
        FlatError,
    >)
        ensures
            r == self@.search_check(query_len, metric, k),
    {
        proof {
            use_type_invariant(self);
        }
        self.store.check_search(query_len, metric, k)
    }

    /// The slots whose row a filter accepted, in ascending order:
    /// `mask[i]` says whether the row in slot `i` passed.
    pub fn accepted_slots(&self, mask: &Vec<bool>) -> (accepted: Vec<usize>)
        requires
            mask.len() == self@.len(),
        ensures
            ascending_slots(accepted@, self@.len()),
            forall|i: int| 0 <= i < self@.len() ==> (mask@[i] <==> accepted@.contains(i as usize)),
    {
        proof {
            use_type_invariant(self);
        }
        self.store.accepted_slots(mask)
    }

    /// Ranks every row: `raw[i]` is the raw distance bits of the row in
    /// slot `i`. The distances are made smaller-is-nearer (the inner
    /// product is negated) and the exact top-`k` rows are returned best
    /// first, ties going to the earlier insertion stamp.
    pub fn search_unfiltered(&self, raw: Vec<u32>, k: usize) -> (hits: Vec<Scored>)
        requires
            raw.len() == self@.len(),
        ensures
            is_top_k(self@.adjusted(raw@), self@.stamps, k as nat, slots_of(hits@)),
            forall|q: int|
                0 <= q < hits.len() ==> (#[trigger] hits@[q]).distance == self@.adjusted(
                    raw@,
                )[hits@[q].slot as int],
    {
        proof {
            use_type_invariant(self);
        }
        self.store.search_unfiltered(raw, k)
    }

    /// Ranks the rows a filter accepted: `accepted` are their slots in
    /// ascending order and `raw[c]` is the raw distance bits of the row in
    /// slot `accepted[c]`. Only accepted rows are ranked; the result is
    /// their exact top-`k`, best first, as [`FlatIndex::search_unfiltered`]
    /// ranks.
    pub fn search_filtered(&self, accepted: &Vec<usize>, raw: Vec<u32>, k: usize) -> (hits: Vec<
        Scored,
    >)
        requires
            ascending_slots(accepted@, self@.len()),
            raw.len() == accepted.len(),
        ensures
            exists|chosen: Seq<usize>|
                #[trigger] is_top_k(
                    self@.adjusted(raw@),
                    gathered_stamps(self@.stamps, accepted@),
                    k as nat,
                    chosen,
                ) && hits.len() == chosen.len() && forall|q: int|
                    0 <= q < hits.len() ==> (#[trigger] hits@[q]).slot == accepted@[chosen[q] as int]
                        && hits@[q].distance == self@.adjusted(raw@)[chosen[q] as int],
    {
        proof {
            use_type_invariant(self);
        }
        self.store.search_filtered(accepted, raw, k)
    }

    /// The stored payloads, in storage order.
    pub fn rows(&self) -> (rows: &Vec<V>)
        ensures
            rows@ == self@.rows,
    {
        self.store.rows()
    }

    /// The id of the row in `slot`.
    pub fn id_at(&self, slot: usize) -> (id: &VectorKey)
        requires
            slot < self@.len(),
        ensures
            id@ == self@.ids[slot as int],
    {
        proof {
            use_type_invariant(self);
        }
        self.store.id_at(slot)
    }

    /// The metadata of the row in `slot`.
    pub fn metadata_at(&self, slot: usize) -> (meta: &M)
        requires
            slot < self@.len(),
        ensures
            *meta == self@.metadata[slot as int],
    {
        proof {
            use_type_invariant(self);
        }
        self.store.metadata_at(slot)
    }

    /// Nothing is pending in a purely in-memory index: always `Ok`, the
    /// index unchanged.
    pub fn flush(&mut self) -> (r: Result<(), FlatError>)
        ensures
            final(self)@ == old(self)@,
            r == Ok::<(), FlatError>(()),
    {
        Ok(())
    }

    /// Approximate resident footprint of the index in bytes, for capacity
    /// dashboards: each payload counted once under `payload` (rows have
    /// `dim` components), plus each store's capacity times its slot size.
    /// The capacities are the allocator's; the result is the saturated
    /// estimate for some capacities at least the stores' lengths (the slot
    /// map's at least the number of distinct digests of the stored ids).
    pub fn approximate_memory_bytes(&self, payload: PayloadLayout) -> (bytes: usize)
        ensures
            exists|f: Footprint|
                {
                    &&& f.vectors.capacity >= self@.len() && f.ids.capacity >= self@.len()
                    &&& f.metadata.capacity >= self@.len() && f.stamps.capacity >= self@.len()
                    &&& f.slot_map.capacity >= digests(self@.ids).len()
                    &&& f.vectors.slot_bytes == size_of::<V>()
                    &&& f.ids.slot_bytes == size_of::<VectorKey>()
                    &&& f.metadata.slot_bytes == size_of::<M>()
                    &&& f.stamps.slot_bytes == size_of::<u64>()
                    &&& f.slot_map.slot_bytes == saturated(
                        (size_of::<u64>() + size_of::<Vec<usize>>()) as int,
                    )
                    &&& bytes == #[trigger] saturated(
                        footprint_bytes(self@.len() as usize, self@.dim, payload, f),
                    )
                },
            self@.len() > 0 && (payload.component_bytes > 0 || payload.header_bytes > 0) ==> bytes
                > 0,
    {
        proof {
            use_type_invariant(self);
        }
        self.store.approximate_memory_bytes(payload)
    }
}

} // verus!
