use std::collections::hash_map::DefaultHasher;
use std::collections::HashMap;
use std::hash::Hasher;
use vstd::prelude::*;
use vstd::std_specs::hash::DefaultHasherAdditionalSpecFns;

use crate::types::{KeyView, VectorKey};

verus! {

broadcast use vstd::std_specs::hash::group_hash_axioms;

/// The bucket an id falls in: an integer id is its own digest, a byte id is
/// digested by a fresh `DefaultHasher` (every hasher made by
/// `DefaultHasher::new` hashes alike). Different ids may share a bucket.
pub open spec fn digest(key: KeyView) -> u64 {
    match key {
        KeyView::U64(v) => v,
        KeyView::Bytes(b) => DefaultHasher::spec_finish(Seq::empty().push(b)),
    }
}

/// Computes [`digest`].
pub fn key_digest(key: &VectorKey) -> (d: u64)
    ensures
        d == digest(key@),
{
    match key {
        VectorKey::U64(v) => *v,
        VectorKey::Bytes(b) => {
            let mut hasher = DefaultHasher::new();
            hasher.write(b.as_slice());
            hasher.finish()
        },
    }
}

/// The digests of the ids `ids`: the buckets they fall in.
pub open spec fn digests(ids: Seq<KeyView>) -> Set<u64> {
    ids.map_values(|k: KeyView| digest(k)).to_set()
}

/// Whether bucket `d` of `m` lists slot `s`.
pub open spec fn lists(m: Map<u64, Seq<usize>>, d: u64, s: usize) -> bool {
    m.contains_key(d) && m[d].contains(s)
}

/// `m` locates exactly the ids `ids`: every listed slot is a slot of `ids`
/// whose id falls in the bucket listing it, no bucket lists a slot twice,
/// and every slot of `ids` is listed in its id's bucket.
pub open spec fn layout(m: Map<u64, Seq<usize>>, ids: Seq<KeyView>) -> bool {
    &&& forall|d: u64, s: usize| #[trigger] lists(m, d, s) ==> s < ids.len() && digest(ids[s as int]) == d
    &&& forall|d: u64| #[trigger] m.contains_key(d) ==> m[d].no_duplicates()
    &&& forall|s: usize| s < ids.len() ==> #[trigger] lists(m, digest(ids[s as int]), s)
}

/// `HashMap::capacity`: the number of entries the map can hold without
/// reallocating. It depends on the allocator and on how the map grew; only
/// that the map can hold the entries it holds, so that it is at least their
/// number, is stated.
#[verifier::external_body]
fn map_capacity(m: &HashMap<u64, Vec<usize>>) -> (cap: usize)
    ensures
        cap >= m@.len(),
{
    m.capacity()
}

/// The index of `s` in `bucket`.
fn index_in(bucket: &Vec<usize>, s: usize) -> (q: usize)
    requires
        bucket@.contains(s),
    ensures
        q < bucket.len(),
        bucket@[q as int] == s,
{
    let mut q: usize = 0;
    while q < bucket.len()
        invariant
            q <= bucket.len(),
            bucket@.contains(s),
            forall|p: int| 0 <= p < q ==> bucket@[p] != s,
        decreases bucket.len() - q,
    {
        if bucket[q] == s {
            return q;
        }
        q += 1;
    }
    proof {
        let p = choose|p: int| 0 <= p < bucket@.len() && bucket@[p] == s;
        assert(bucket@[p] != s);
    }
    0
}

/// Where each stored id sits: a hash map from each bucket's digest to the
/// slots whose id falls in that bucket. Looking an id up compares it
/// against the ids of the slots in its bucket only.
pub struct SlotMap {
    buckets: HashMap<u64, Vec<usize>>,
}

impl SlotMap {
    /// The buckets, each taken by its slots.
    pub closed spec fn contents(&self) -> Map<u64, Seq<usize>> {
        self.buckets@.map_values(|b: Vec<usize>| b@)
    }

    /// The map locates exactly the ids `ids`.
    pub open spec fn locates(&self, ids: Seq<KeyView>) -> bool {
        layout(self.contents(), ids)
    }

    /// A map that locates no ids.
    pub(crate) fn new() -> (fresh: SlotMap)
        ensures
            fresh.locates(Seq::empty()),
    {
        let fresh = SlotMap { buckets: HashMap::new() };
        assert(fresh.contents() =~= Map::<u64, Seq<usize>>::empty());
        fresh
    }

    /// The slot of `key` among `ids`, or `None` when no slot holds it.
    pub(crate) fn find(&self, ids: &Vec<VectorKey>, key: &VectorKey) -> (slot: Option<usize>)
        requires
            self.locates(ids@.map_values(|k: VectorKey| k@)),
        ensures
            match slot {
                Some(s) => s < ids.len() && ids@[s as int]@ == key@,
                None => forall|s: int| 0 <= s < ids.len() ==> (#[trigger] ids@[s])@ != key@,
            },
    {
        let ghost view = ids@.map_values(|k: VectorKey| k@);
        let ghost m = self.contents();
        let d = key_digest(key);
        match self.buckets.get(&d) {
            None => {
                proof {
                    assert forall|s: int| 0 <= s < ids.len() implies (#[trigger] ids@[s])@
                        != key@ by {
                        if ids@[s]@ == key@ {
                            assert(view[s] == key@);
                            assert(lists(m, digest(view[s]), s as usize));
                        }
                    }
                }
                None
            },
            Some(bucket) => {
                assert(m[d] == bucket@);
                let mut q: usize = 0;
                while q < bucket.len()
                    invariant
                        self.locates(view),
                        view == ids@.map_values(|k: VectorKey| k@),
                        m == self.contents(),
                        m.contains_key(d),
                        m[d] == bucket@,
                        d == digest(key@),
                        q <= bucket.len(),
                        forall|p: int| 0 <= p < q ==> ids@[bucket@[p] as int]@ != key@,
                    decreases bucket.len() - q,
                {
                    let s = bucket[q];
                    assert(lists(m, d, s));
                    if ids[s].matches(key) {
                        return Some(s);
                    }
                    q += 1;
                }
                proof {
                    assert forall|s: int| 0 <= s < ids.len() implies (#[trigger] ids@[s])@
                        != key@ by {
                        if ids@[s]@ == key@ {
                            assert(view[s] == key@);
                            assert(lists(m, digest(view[s]), s as usize));
                            let p = choose|p: int|
                                0 <= p < bucket@.len() && bucket@[p] == s as usize;
                            assert(ids@[bucket@[p] as int]@ != key@);
                        }
                    }
                }
                None
            },
        }
    }

    fn take(&mut self, d: u64) -> (bucket: Vec<usize>)
        ensures
            final(self).contents() == old(self).contents().remove(d),
            bucket@ == (if old(self).contents().contains_key(d) {
                old(self).contents()[d]
            } else {
                Seq::empty()
            }),
    {
        let ghost m = self.contents();
        let bucket = match self.buckets.remove(&d) {
            Some(b) => b,
            None => Vec::new(),
        };
        assert(self.contents() =~= m.remove(d));
        bucket
    }

    fn put(&mut self, d: u64, bucket: Vec<usize>)
        requires
            !old(self).contents().contains_key(d),
        ensures
            final(self).contents() == (if bucket.len() > 0 {
                old(self).contents().insert(d, bucket@)
            } else {
                old(self).contents()
            }),
    {
        let ghost m = self.contents();
        let ghost b = bucket@;
        if bucket.len() > 0 {
            let _prev = self.buckets.insert(d, bucket);
            assert(self.contents() =~= m.insert(d, b));
        }
    }

    /// Lists slot `s` in bucket `d`, which did not list it.
    fn attach(&mut self, d: u64, s: usize)
        requires
            !lists(old(self).contents(), d, s),
        ensures
            forall|d2: u64, x: usize|
                #[trigger] lists(final(self).contents(), d2, x) == (lists(old(self).contents(), d2, x)
                    || (d2 == d && x == s)),
            (forall|d2: u64| #[trigger]
                old(self).contents().contains_key(d2) ==> old(self).contents()[d2].no_duplicates())
                ==> (forall|d2: u64| #[trigger]
                final(self).contents().contains_key(d2) ==> final(self).contents()[d2].no_duplicates()),
    {
        let ghost m = self.contents();
        let mut bucket = self.take(d);
        let ghost b = bucket@;
        bucket.push(s);
        proof {
            assert(bucket@ == b.push(s));
            assert(!b.contains(s));
            assert forall|x: usize| bucket@.contains(x) == (b.contains(x) || x == s) by {
                if bucket@.contains(x) && x != s {
                    let p = choose|p: int| 0 <= p < bucket@.len() && bucket@[p] == x;
                    assert(b[p] == x);
                }
                if b.contains(x) {
                    let p = choose|p: int| 0 <= p < b.len() && b[p] == x;
                    assert(bucket@[p] == x);
                }
                if x == s {
                    assert(bucket@[b.len() as int] == s);
                }
            }
        }
        self.put(d, bucket);
        proof {
            let f = self.contents();
            assert(f == m.insert(d, b.push(s)));
            assert forall|d2: u64, x: usize| #[trigger] lists(f, d2, x) == (lists(m, d2, x) || (d2
                == d && x == s)) by {
                if d2 != d {
                    assert(f.contains_key(d2) == m.contains_key(d2));
                }
            }
            if forall|d2: u64| #[trigger] m.contains_key(d2) ==> m[d2].no_duplicates() {
                assert forall|d2: u64| #[trigger] f.contains_key(d2) implies f[d2].no_duplicates() by {
                    if d2 == d {
                        assert(b.no_duplicates());
                        assert forall|i: int, j: int|
                            0 <= i < f[d].len() && 0 <= j < f[d].len() && i != j implies f[d][i]
                            != f[d][j] by {
                            if i == b.len() {
                                assert(b.contains(f[d][j]));
                            } else if j == b.len() {
                                assert(b.contains(f[d][i]));
                            }
                        }
                    }
                }
            }
        }
    }

    /// Unlists slot `s` from bucket `d`, which listed it once.
    fn detach(&mut self, d: u64, s: usize)
        requires
            lists(old(self).contents(), d, s),
            old(self).contents()[d].no_duplicates(),
        ensures
            forall|d2: u64, x: usize|
                #[trigger] lists(final(self).contents(), d2, x) == (lists(old(self).contents(), d2, x)
                    && !(d2 == d && x == s)),
            (forall|d2: u64| #[trigger]
                old(self).contents().contains_key(d2) ==> old(self).contents()[d2].no_duplicates())
                ==> (forall|d2: u64| #[trigger]
                final(self).contents().contains_key(d2) ==> final(self).contents()[d2].no_duplicates()),
    {
        let ghost m = self.contents();
        let mut bucket = self.take(d);
        let ghost b = bucket@;
        let q = index_in(&bucket, s);
        let _gone = bucket.swap_remove(q);
        let ghost nb = bucket@;
        proof {
            assert(nb == b.update(q as int, b.last()).drop_last());
            assert forall|x: usize| nb.contains(x) == (b.contains(x) && x != s) by {
                if nb.contains(x) {
                    let p = choose|p: int| 0 <= p < nb.len() && nb[p] == x;
                    if p == q {
                        assert(x == b[b.len() - 1]);
                        assert(b.len() - 1 != q);
                    } else {
                        assert(b[p] == x);
                    }
                }
                if b.contains(x) && x != s {
                    let p = choose|p: int| 0 <= p < b.len() && b[p] == x;
                    assert(p != q);
                    if p == b.len() - 1 {
                        assert(nb[q as int] == x);
                    } else {
                        assert(nb[p] == x);
                    }
                }
            }
            assert forall|i: int, j: int|
                0 <= i < nb.len() && 0 <= j < nb.len() && i != j implies nb[i] != nb[j] by {
                let oi = if i == q { b.len() - 1 } else { i };
                let oj = if j == q { b.len() - 1 } else { j };
                assert(b[oi] != b[oj]);
            }
        }
        self.put(d, bucket);
        proof {
            let f = self.contents();
            assert forall|d2: u64, x: usize| #[trigger] lists(f, d2, x) == (lists(m, d2, x) && !(d2
                == d && x == s)) by {
                if d2 != d {
                    assert(f.contains_key(d2) == m.contains_key(d2));
                } else if nb.len() == 0 {
                    assert(!nb.contains(x));
                }
            }
        }
    }

    /// Lists `slot`, the slot one past the end of `ids`, for `key`: the map
    /// then locates `ids` with `key` appended.
    pub(crate) fn add(&mut self, Ghost(ids): Ghost<Seq<KeyView>>, key: &VectorKey, slot: usize)
        requires
            old(self).locates(ids),
            slot == ids.len(),
        ensures
            final(self).locates(ids.push(key@)),
    {
        let ghost m = self.contents();
        let d = key_digest(key);
        self.attach(d, slot);
        proof {
            let f = self.contents();
            let nids = ids.push(key@);
            assert forall|d2: u64, x: usize| #[trigger] lists(f, d2, x) implies x < nids.len()
                && digest(nids[x as int]) == d2 by {
                if !(d2 == d && x == slot) {
                    assert(lists(m, d2, x));
                }
            }
            assert forall|t: usize| t < nids.len() implies #[trigger] lists(
                f,
                digest(nids[t as int]),
                t,
            ) by {
                if t < ids.len() {
                    assert(nids[t as int] == ids[t as int]);
                    assert(lists(m, digest(ids[t as int]), t));
                }
            }
        }
    }

    /// Unlists the last slot of `ids`, whose id is `key`: the map then
    /// locates `ids` without its last id.
    pub(crate) fn pop(&mut self, Ghost(ids): Ghost<Seq<KeyView>>, key: &VectorKey, last: usize)
        requires
            old(self).locates(ids),
            last + 1 == ids.len(),
            key@ == ids[last as int],
        ensures
            final(self).locates(ids.drop_last()),
    {
        let ghost m = self.contents();
        let d = key_digest(key);
        assert(lists(m, digest(ids[last as int]), last));
        self.detach(d, last);
        proof {
            let f = self.contents();
            let nids = ids.drop_last();
            assert forall|d2: u64, x: usize| #[trigger] lists(f, d2, x) implies x < nids.len()
                && digest(nids[x as int]) == d2 by {
                assert(lists(m, d2, x));
                if x == last {
                    assert(d2 == d);
                }
            }
            assert forall|t: usize| t < nids.len() implies #[trigger] lists(
                f,
                digest(nids[t as int]),
                t,
            ) by {
                assert(lists(m, digest(ids[t as int]), t));
            }
        }
    }

    /// Moves slot `slot` of `ids` from the bucket of its id `old_key` to the
    /// bucket of `new_key`: the map then locates `ids` with `new_key` in
    /// that slot.
    pub(crate) fn replace(
        &mut self,
        Ghost(ids): Ghost<Seq<KeyView>>,
        slot: usize,
        old_key: &VectorKey,
        new_key: &VectorKey,
    )
        requires
            old(self).locates(ids),
            slot < ids.len(),
            old_key@ == ids[slot as int],
        ensures
            final(self).locates(ids.update(slot as int, new_key@)),
    {
        let ghost m = self.contents();
        let d_old = key_digest(old_key);
        assert(lists(m, digest(ids[slot as int]), slot));
        self.detach(d_old, slot);
        let ghost mid = self.contents();
        let d_new = key_digest(new_key);
        self.attach(d_new, slot);
        proof {
            let f = self.contents();
            let nids = ids.update(slot as int, new_key@);
            assert forall|d2: u64, x: usize| #[trigger] lists(f, d2, x) implies x < nids.len()
                && digest(nids[x as int]) == d2 by {
                if !(d2 == d_new && x == slot) {
                    assert(lists(mid, d2, x));
                    assert(lists(m, d2, x));
                }
            }
            assert forall|t: usize| t < nids.len() implies #[trigger] lists(
                f,
                digest(nids[t as int]),
                t,
            ) by {
                if t != slot {
                    assert(lists(m, digest(ids[t as int]), t));
                    assert(lists(mid, digest(ids[t as int]), t));
                }
            }
        }
    }

    /// Asks the hash map for room for `additional` more buckets; no bucket
    /// and no listed slot changes, so what the map locates does not change.
    pub(crate) fn reserve(&mut self, additional: usize)
        ensures
            final(self).contents() == old(self).contents(),
            forall|ids: Seq<KeyView>| old(self).locates(ids) ==> final(self).locates(ids),
    {
        let ghost m = self.contents();
        self.buckets.reserve(additional);
        assert(self.contents() =~= m);
    }

    /// How many buckets the hash map holds without reallocating: at least
    /// as many as it holds now.
    pub(crate) fn capacity(&self) -> (cap: usize)
        ensures
            cap >= self.contents().len(),
    {
        let cap = map_capacity(&self.buckets);
        assert(self.contents().dom() =~= self.buckets@.dom());
        cap
    }

    /// A map that locates `ids` holds a bucket for each of their digests.
    pub proof fn lemma_bucket_count(&self, ids: Seq<KeyView>)
        requires
            self.locates(ids),
            ids.len() <= usize::MAX,
        ensures
            self.contents().len() >= digests(ids).len(),
    {
        let m = self.contents();
        assert(m.dom() =~= self.buckets@.dom());
        assert(self.buckets@.dom().finite());
        assert(digests(ids).subset_of(m.dom())) by {
            assert forall|d: u64| digests(ids).contains(d) implies m.dom().contains(d) by {
                let dv = ids.map_values(|k: KeyView| digest(k));
                let i = choose|i: int| 0 <= i < dv.len() && dv[i] == d;
                let u = i as usize;
                assert(lists(m, digest(ids[u as int]), u));
                assert(dv[u as int] == digest(ids[u as int]));
            }
        }
        vstd::set_lib::lemma_len_subset(digests(ids), m.dom());
    }
}

} // verus!
