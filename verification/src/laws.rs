use vstd::prelude::*;

use crate::flat::{ascending_slots, batch_view, gathered_stamps};
use crate::model::{Call, FlatView};
use crate::order::{is_nan, negated, order_key, ranks_before};
use crate::topk::{clamp, distinct_stamps, is_top_k, precedes};
use crate::types::{ConfigIssue, FlatError, KeyView, Metric, VectorKey};
use crate::value::{
    lemma_scaled_magnitude_increases, lemma_scaled_magnitude_nonnegative, magnitude, scaled_value,
    sign_set,
};

verus! {

/// Negating a distance reverses its place among the numbers: the largest
/// raw inner product becomes the smallest distance. A NaN stays a NaN under
/// negation, so it stays after every number.
pub proof fn law_negation_reverses_order(a: u32, b: u32)
    ensures
        is_nan(negated(a)) == is_nan(a),
        !is_nan(a) ==> order_key(negated(a)) == 0xFFFF_FFFFu64 - order_key(a),
        !is_nan(a) && !is_nan(b) ==> (order_key(a) < order_key(b) <==> order_key(negated(b))
            < order_key(negated(a))),
        negated(negated(a)) == a,
{
}

/// Two distances take the same place in the order only when they are the
/// same bit pattern, so every tie is an exact tie.
pub proof fn law_order_key_injective(a: u32, b: u32)
    ensures
        order_key(a) == order_key(b) <==> a == b,
{
}

/// A NaN, whatever its sign, ranks after every distance that is not a NaN,
/// `+inf` included.
pub proof fn law_nan_ranks_last(nan: u32, other: u32)
    requires
        is_nan(nan),
        !is_nan(other),
    ensures
        order_key(other) < order_key(nan),
        forall|s1: u64, s2: u64| ranks_before(other, s1, nan, s2),
{
}

/// In every top-`k`, NaN distances come last: each NaN hit is ranked
/// after each hit that is a number, and a NaN is chosen only when every
/// candidate that is a number is chosen too.
pub proof fn law_nan_hits_last(distances: Seq<u32>, stamps: Seq<u64>, k: nat, chosen: Seq<usize>)
    requires
        distances.len() == stamps.len(),
        is_top_k(distances, stamps, k, chosen),
    ensures
        forall|q1: int, q2: int|
            0 <= q1 < chosen.len() && 0 <= q2 < chosen.len() && is_nan(
                #[trigger] distances[chosen[q1] as int],
            ) && !is_nan(#[trigger] distances[chosen[q2] as int]) ==> q2 < q1,
        forall|q: int, j: int|
            0 <= q < chosen.len() && 0 <= j < distances.len() && is_nan(
                #[trigger] distances[chosen[q] as int],
            ) && !is_nan(#[trigger] distances[j]) ==> chosen.contains(j as usize),
{
    assert forall|q1: int, q2: int|
        0 <= q1 < chosen.len() && 0 <= q2 < chosen.len() && is_nan(
            #[trigger] distances[chosen[q1] as int],
        ) && !is_nan(#[trigger] distances[chosen[q2] as int]) implies q2 < q1 by {
        if q1 < q2 {
            assert(precedes(distances, stamps, chosen[q1] as int, chosen[q2] as int));
        }
        if q1 == q2 {
            assert(false);
        }
    }
    assert forall|q: int, j: int|
        0 <= q < chosen.len() && 0 <= j < distances.len() && is_nan(
            #[trigger] distances[chosen[q] as int],
        ) && !is_nan(#[trigger] distances[j]) implies chosen.contains(j as usize) by {
        if !chosen.contains(j as usize) {
            assert(precedes(distances, stamps, chosen[q] as int, j));
        }
    }
}

/// On equal distances the earlier insertion stamp ranks first.
pub proof fn law_ties_go_to_earlier_stamp(d: u32, s1: u64, s2: u64)
    ensures
        ranks_before(d, s1, d, s2) <==> s1 < s2,
{
}

/// The top-`k` of a set of candidates is unique: two selections that both
/// meet [`is_top_k`] are the same sequence.
pub proof fn law_top_k_unique(
    distances: Seq<u32>,
    stamps: Seq<u64>,
    k: nat,
    c1: Seq<usize>,
    c2: Seq<usize>,
)
    requires
        distances.len() == stamps.len(),
        is_top_k(distances, stamps, k, c1),
        is_top_k(distances, stamps, k, c2),
    ensures
        c1 == c2,
{
    assert forall|q: int| 0 <= q < c1.len() implies c1[q] == c2[q] by {
        lemma_top_k_agree_upto(distances, stamps, k, c1, c2, q);
    }
    assert(c1 =~= c2);
}

proof fn lemma_top_k_agree_upto(
    d: Seq<u32>,
    s: Seq<u64>,
    k: nat,
    c1: Seq<usize>,
    c2: Seq<usize>,
    q: int,
)
    requires
        d.len() == s.len(),
        is_top_k(d, s, k, c1),
        is_top_k(d, s, k, c2),
        0 <= q < c1.len(),
    ensures
        forall|p: int| 0 <= p <= q ==> c1[p] == c2[p],
    decreases q,
{
    if q > 0 {
        lemma_top_k_agree_upto(d, s, k, c1, c2, q - 1);
    }
    let a = c1[q];
    let b = c2[q];
    if a != b {
        lemma_rank_of_other(d, s, k, c1, c2, q);
        lemma_rank_of_other(d, s, k, c2, c1, q);
        assert(precedes(d, s, a as int, b as int));
        assert(precedes(d, s, b as int, a as int));
    }
}

proof fn lemma_rank_of_other(d: Seq<u32>, s: Seq<u64>, k: nat, c1: Seq<usize>, c2: Seq<usize>, q: int)
    requires
        d.len() == s.len(),
        is_top_k(d, s, k, c1),
        is_top_k(d, s, k, c2),
        0 <= q < c1.len(),
        forall|p: int| 0 <= p < q ==> c1[p] == c2[p],
        c1[q] != c2[q],
    ensures
        precedes(d, s, c1[q] as int, c2[q] as int),
{
    let a = c1[q];
    let b = c2[q];
    if c1.contains(b) {
        let r = choose|r: int| 0 <= r < c1.len() && c1[r] == b;
        if r < q {
            assert(c2[r] == b);
            assert(precedes(d, s, c2[r] as int, c2[q] as int));
        } else {
            assert(r != q);
            assert(precedes(d, s, c1[q] as int, c1[r] as int));
        }
    } else {
        assert(b < d.len());
        assert(precedes(d, s, c1[q] as int, (b as usize) as int));
    }
}

/// Ranking sees only each candidate's distance and the order of the
/// stamps, never where a candidate is stored or which stamp values it
/// carries. If `perm` is a bijection of the candidate indices (with inverse
/// `inv`), `relabelled[i]` is the distance of candidate `perm[i]`, and the
/// stamps `order` put any two relabelled candidates in the same order as
/// `stamps` puts the candidates they stand for, then the top-`k` of the
/// relabelled candidates, mapped through `perm`, is the top-`k` of the
/// original ones.
pub proof fn law_top_k_ignores_storage_order(
    distances: Seq<u32>,
    stamps: Seq<u64>,
    perm: Seq<usize>,
    inv: Seq<usize>,
    relabelled: Seq<u32>,
    order: Seq<u64>,
    k: nat,
    chosen: Seq<usize>,
)
    requires
        distances.len() == stamps.len(),
        perm.len() == distances.len(),
        inv.len() == distances.len(),
        relabelled.len() == distances.len(),
        order.len() == distances.len(),
        forall|i: int| 0 <= i < perm.len() ==> #[trigger] perm[i] < perm.len() && inv[perm[i] as int] == i,
        forall|j: int| 0 <= j < inv.len() ==> #[trigger] inv[j] < inv.len() && perm[inv[j] as int] == j,
        forall|i: int| 0 <= i < relabelled.len() ==> #[trigger] relabelled[i] == distances[perm[i] as int],
        forall|i: int, j: int|
            #![trigger order[i], order[j]]
            0 <= i < order.len() && 0 <= j < order.len() ==> (order[i] < order[j] <==> stamps[perm[i] as int]
                < stamps[perm[j] as int]),
        is_top_k(relabelled, order, k, chosen),
    ensures
        is_top_k(distances, stamps, k, chosen.map_values(|c: usize| perm[c as int])),
{
    let n = distances.len();
    let mapped = chosen.map_values(|c: usize| perm[c as int]);
    assert forall|a: int, b: int| 0 <= a < n && 0 <= b < n implies precedes(relabelled, order, a, b)
        == precedes(distances, stamps, perm[a] as int, perm[b] as int) by {
        assert(relabelled[a] == distances[perm[a] as int]);
        assert(relabelled[b] == distances[perm[b] as int]);
        assert(order[a] < order[b] <==> stamps[perm[a] as int] < stamps[perm[b] as int]);
    }
    assert forall|q1: int, q2: int| 0 <= q1 < q2 < mapped.len() implies precedes(
        distances,
        stamps,
        mapped[q1] as int,
        mapped[q2] as int,
    ) by {
        assert(precedes(relabelled, order, chosen[q1] as int, chosen[q2] as int));
    }
    assert forall|q: int, j: int|
        0 <= q < mapped.len() && 0 <= j < n && !mapped.contains(j as usize) implies precedes(
        distances,
        stamps,
        mapped[q] as int,
        j,
    ) by {
        let i = inv[j];
        if chosen.contains(i) {
            let r = choose|r: int| 0 <= r < chosen.len() && chosen[r] == i;
            assert(mapped[r] == j as usize);
            assert(mapped.contains(j as usize));
        }
        assert(!chosen.contains(i));
        assert(i < n);
        assert(!chosen.contains((i as int) as usize));
        assert(precedes(relabelled, order, chosen[q] as int, i as int));
        assert(perm[i as int] == j);
    }
}

/// Two indexes that hold the same rows (id, payload and metadata) in the
/// same insertion order rank them alike, however each got there: when
/// `perm` takes each slot of `v1` to the slot of the same row in `v2`, the
/// stamps of the two put the rows in the same order, and each row's raw
/// distance is the same in both, then the two top-`k`s return the same
/// rows in the same order with the same distances.
pub proof fn law_same_rows_same_hits<V, M>(
    v1: FlatView<V, M>,
    v2: FlatView<V, M>,
    perm: Seq<usize>,
    inv: Seq<usize>,
    raw1: Seq<u32>,
    raw2: Seq<u32>,
    k: nat,
    c1: Seq<usize>,
    c2: Seq<usize>,
)
    requires
        v1.valid(),
        v2.valid(),
        v1.metric == v2.metric,
        v1.len() == v2.len(),
        perm.len() == v1.len(),
        inv.len() == v1.len(),
        forall|i: int| 0 <= i < perm.len() ==> #[trigger] perm[i] < perm.len() && inv[perm[i] as int] == i,
        forall|j: int| 0 <= j < inv.len() ==> #[trigger] inv[j] < inv.len() && perm[inv[j] as int] == j,
        forall|i: int|
            0 <= i < v1.len() ==> {
                &&& v2.ids[#[trigger] perm[i] as int] == v1.ids[i]
                &&& v2.rows[perm[i] as int] == v1.rows[i]
                &&& v2.metadata[perm[i] as int] == v1.metadata[i]
            },
        forall|i: int, j: int|
            #![trigger v1.stamps[i], v1.stamps[j]]
            0 <= i < v1.len() && 0 <= j < v1.len() ==> (v1.stamps[i] < v1.stamps[j]
                <==> v2.stamps[perm[i] as int] < v2.stamps[perm[j] as int]),
        raw1.len() == v1.len(),
        raw2.len() == v2.len(),
        forall|i: int| 0 <= i < raw1.len() ==> #[trigger] raw1[i] == raw2[perm[i] as int],
        is_top_k(v1.adjusted(raw1), v1.stamps, k, c1),
        is_top_k(v2.adjusted(raw2), v2.stamps, k, c2),
    ensures
        c2.len() == c1.len(),
        forall|q: int|
            0 <= q < c1.len() ==> {
                &&& c2[q] == perm[#[trigger] c1[q] as int]
                &&& v2.ids[c2[q] as int] == v1.ids[c1[q] as int]
                &&& v2.rows[c2[q] as int] == v1.rows[c1[q] as int]
                &&& v2.metadata[c2[q] as int] == v1.metadata[c1[q] as int]
                &&& v2.adjusted(raw2)[c2[q] as int] == v1.adjusted(raw1)[c1[q] as int]
            },
{
    let d1 = v1.adjusted(raw1);
    let d2 = v2.adjusted(raw2);
    assert forall|i: int| 0 <= i < d1.len() implies #[trigger] d1[i] == d2[perm[i] as int] by {
        assert(raw1[i] == raw2[perm[i] as int]);
    }
    assert forall|i: int, j: int|
        #![trigger v1.stamps[i], v1.stamps[j]]
        0 <= i < v1.stamps.len() && 0 <= j < v1.stamps.len() implies (v1.stamps[i] < v1.stamps[j]
        <==> v2.stamps[perm[i] as int] < v2.stamps[perm[j] as int]) by {}
    law_top_k_ignores_storage_order(d2, v2.stamps, perm, inv, d1, v1.stamps, k, c1);
    let mapped = c1.map_values(|c: usize| perm[c as int]);
    law_top_k_unique(d2, v2.stamps, k, mapped, c2);
    assert forall|q: int| 0 <= q < c1.len() implies {
        &&& c2[q] == perm[#[trigger] c1[q] as int]
        &&& v2.ids[c2[q] as int] == v1.ids[c1[q] as int]
        &&& v2.rows[c2[q] as int] == v1.rows[c1[q] as int]
        &&& v2.metadata[c2[q] as int] == v1.metadata[c1[q] as int]
        &&& d2[c2[q] as int] == d1[c1[q] as int]
    } by {
        assert(mapped[q] == perm[c1[q] as int]);
        assert(c1[q] < v1.len());
    }
}

/// A top-`k` with `k` at least the number of candidates holds every
/// candidate, each exactly once.
pub proof fn law_full_scan_returns_all(distances: Seq<u32>, stamps: Seq<u64>, k: nat, chosen: Seq<usize>)
    requires
        distances.len() == stamps.len(),
        k >= distances.len(),
        is_top_k(distances, stamps, k, chosen),
    ensures
        chosen.len() == distances.len(),
        chosen.no_duplicates(),
        forall|j: usize| 0 <= j < distances.len() ==> #[trigger] chosen.contains(j),
{
    let n = distances.len() as int;
    assert(chosen.no_duplicates()) by {
        assert forall|a: int, b: int|
            0 <= a < chosen.len() && 0 <= b < chosen.len() && a != b implies chosen[a]
            != chosen[b] by {
            if a < b {
                assert(precedes(distances, stamps, chosen[a] as int, chosen[b] as int));
            } else {
                assert(precedes(distances, stamps, chosen[b] as int, chosen[a] as int));
            }
        }
    }
    let ci = chosen.map_values(|c: usize| c as int);
    assert(ci.no_duplicates()) by {
        assert forall|a: int, b: int|
            0 <= a < ci.len() && 0 <= b < ci.len() && a != b implies ci[a] != ci[b] by {
            assert(chosen[a] != chosen[b]);
        }
    }
    ci.unique_seq_to_set();
    vstd::set_lib::lemma_int_range(0, n);
    let range = vstd::set_lib::set_int_range(0, n);
    assert(ci.to_set().subset_of(range)) by {
        assert forall|x: int| ci.to_set().contains(x) implies range.contains(x) by {
            let r = choose|r: int| 0 <= r < ci.len() && ci[r] == x;
            assert(chosen[r] < n);
        }
    }
    vstd::set_lib::lemma_subset_equality(ci.to_set(), range);
    assert forall|j: usize| 0 <= j < n implies #[trigger] chosen.contains(j) by {
        assert(range.contains(j as int));
        assert(ci.to_set().contains(j as int));
        let r = choose|r: int| 0 <= r < ci.len() && ci[r] == j as int;
        assert(chosen[r] == j);
    }
}

/// After a delete of `key`, no ranking of the remaining rows can return
/// `key`: every ranked slot holds another id.
pub proof fn law_search_excludes_deleted<V, M>(
    v: FlatView<V, M>,
    key: KeyView,
    raw: Seq<u32>,
    k: nat,
    chosen: Seq<usize>,
)
    requires
        v.valid(),
        raw.len() == v.len() - 1,
        v.holds(key),
        is_top_k(v.after_delete(key).adjusted(raw), v.after_delete(key).stamps, k, chosen),
    ensures
        forall|q: int|
            0 <= q < chosen.len() ==> v.after_delete(key).ids[#[trigger] chosen[q] as int] != key,
{
    law_delete_removes_only_key(v, key);
    let w = v.after_delete(key);
    assert forall|q: int| 0 <= q < chosen.len() implies w.ids[#[trigger] chosen[q] as int]
        != key by {
        assert(chosen[q] < raw.len());
        if w.ids[chosen[q] as int] == key {
            assert(w.ids.contains(key));
        }
    }
}

/// A deleted id can be inserted again: with a vector of the right
/// dimension the insert is accepted unless the stamp counter is spent.
pub proof fn law_reinsert_after_delete<V, M>(v: FlatView<V, M>, key: KeyView)
    requires
        v.valid(),
        v.holds(key),
    ensures
        v.after_delete(key).insert_result(key, v.dim) == (if v.next_stamp == u64::MAX {
            Err(FlatError::InvalidConfig(ConfigIssue::StampsExhausted))
        } else {
            Ok(())
        }),
{
    law_delete_removes_only_key(v, key);
}

/// With `k` at least the number of rows, every hit of a filtered search
/// is also a hit of the unfiltered search: a filter only ever removes rows.
pub proof fn law_filtered_hits_within_full_scan<V, M>(
    v: FlatView<V, M>,
    raw_all: Seq<u32>,
    full: Seq<usize>,
    accepted: Seq<usize>,
    raw_accepted: Seq<u32>,
    k: nat,
    chosen: Seq<usize>,
)
    requires
        v.valid(),
        raw_all.len() == v.len(),
        k >= v.len(),
        is_top_k(v.adjusted(raw_all), v.stamps, k, full),
        ascending_slots(accepted, v.len()),
        raw_accepted.len() == accepted.len(),
        is_top_k(v.adjusted(raw_accepted), gathered_stamps(v.stamps, accepted), k, chosen),
    ensures
        forall|q: int| 0 <= q < chosen.len() ==> full.contains(#[trigger] accepted[chosen[q] as int]),
{
    law_full_scan_returns_all(v.adjusted(raw_all), v.stamps, k, full);
    assert forall|q: int| 0 <= q < chosen.len() implies full.contains(
        #[trigger] accepted[chosen[q] as int],
    ) by {
        assert(chosen[q] < raw_accepted.len());
        assert(accepted[chosen[q] as int] < v.len());
    }
}

proof fn lemma_ascending_len(slots: Seq<usize>, n: nat)
    requires
        ascending_slots(slots, n),
    ensures
        slots.len() <= n,
{
    assert forall|q: int| 0 <= q < slots.len() implies #[trigger] slots[q] >= q by {
        lemma_ascending_from(slots, n, q);
    }
    if slots.len() > n {
        assert(slots[n as int] >= n);
    }
}

proof fn lemma_ascending_from(slots: Seq<usize>, n: nat, q: int)
    requires
        ascending_slots(slots, n),
        0 <= q < slots.len(),
    ensures
        slots[q] >= q,
    decreases q,
{
    if q > 0 {
        lemma_ascending_from(slots, n, q - 1);
        assert(slots[q - 1] < slots[q]);
    }
}

/// With `k` at least the number of rows, a filtered search returns exactly
/// the rows the filter accepted, each once, in the order the unfiltered
/// search ranks them: it is the unfiltered result with the rejected rows
/// taken out. `raw_accepted` are the raw distances of the accepted rows,
/// the same as in `raw_all`.
pub proof fn law_filtered_hits_follow_full_scan<V, M>(
    v: FlatView<V, M>,
    raw_all: Seq<u32>,
    full: Seq<usize>,
    accepted: Seq<usize>,
    raw_accepted: Seq<u32>,
    k: nat,
    chosen: Seq<usize>,
)
    requires
        v.valid(),
        raw_all.len() == v.len(),
        k >= v.len(),
        is_top_k(v.adjusted(raw_all), v.stamps, k, full),
        ascending_slots(accepted, v.len()),
        raw_accepted.len() == accepted.len(),
        forall|c: int|
            0 <= c < accepted.len() ==> #[trigger] raw_accepted[c] == raw_all[accepted[c] as int],
        is_top_k(v.adjusted(raw_accepted), gathered_stamps(v.stamps, accepted), k, chosen),
    ensures
        chosen.len() == accepted.len(),
        forall|c: usize| c < accepted.len() ==> #[trigger] chosen.contains(c),
        forall|q: int| 0 <= q < chosen.len() ==> full.contains(#[trigger] accepted[chosen[q] as int]),
        forall|q1: int, q2: int, p1: int, p2: int|
            #![trigger chosen[q1], chosen[q2], full[p1], full[p2]]
            0 <= q1 < q2 < chosen.len() && 0 <= p1 < full.len() && 0 <= p2 < full.len() && full[p1]
                == accepted[chosen[q1] as int] && full[p2] == accepted[chosen[q2] as int] ==> p1 < p2,
{
    let df = v.adjusted(raw_all);
    let da = v.adjusted(raw_accepted);
    let g = gathered_stamps(v.stamps, accepted);
    lemma_ascending_len(accepted, v.len());
    law_full_scan_returns_all(da, g, k, chosen);
    law_filtered_hits_within_full_scan(v, raw_all, full, accepted, raw_accepted, k, chosen);
    assert forall|c: int| 0 <= c < accepted.len() implies #[trigger] da[c] == df[accepted[c] as int]
        && g[c] == v.stamps[accepted[c] as int] by {
        assert(raw_accepted[c] == raw_all[accepted[c] as int]);
    }
    assert forall|q1: int, q2: int, p1: int, p2: int|
        #![trigger chosen[q1], chosen[q2], full[p1], full[p2]]
        0 <= q1 < q2 < chosen.len() && 0 <= p1 < full.len() && 0 <= p2 < full.len() && full[p1]
            == accepted[chosen[q1] as int] && full[p2] == accepted[chosen[q2] as int] implies p1
        < p2 by {
        let c1 = chosen[q1] as int;
        let c2 = chosen[q2] as int;
        assert(precedes(da, g, c1, c2));
        assert(da[c1] == df[accepted[c1] as int] && g[c1] == v.stamps[accepted[c1] as int]);
        assert(da[c2] == df[accepted[c2] as int] && g[c2] == v.stamps[accepted[c2] as int]);
        assert(precedes(df, v.stamps, full[p1] as int, full[p2] as int));
        if p2 < p1 {
            assert(precedes(df, v.stamps, full[p2] as int, full[p1] as int));
        } else if p1 == p2 {
            assert(!precedes(df, v.stamps, full[p1] as int, full[p1] as int));
        }
    }
}

/// An accepted insert stores the new id at the back with a stamp larger
/// than every stamp already stored, so a re-inserted id ranks after every
/// row it ties with; the state stays valid.
pub proof fn law_insert_stamps_last<V, M>(v: FlatView<V, M>, key: KeyView, row: V, vector_len: usize, meta: M)
    requires
        v.valid(),
        v.insert_result(key, vector_len) is Ok,
    ensures
        ({
            let w = v.after_insert(key, row, vector_len, meta);
            &&& w.valid()
            &&& w.holds(key)
            &&& w.len() == v.len() + 1
            &&& w.ids[v.len() as int] == key
            &&& forall|i: int| 0 <= i < v.len() ==> #[trigger] w.stamps[i] < w.stamps[v.len() as int]
        }),
{
    let w = v.after_insert(key, row, vector_len, meta);
    assert(w.ids[v.len() as int] == key);
    assert forall|i: int, j: int|
        0 <= i < w.ids.len() && 0 <= j < w.ids.len() && i != j implies w.ids[i] != w.ids[j] by {
        if i == v.len() {
            assert(v.ids.contains(v.ids[j]));
        } else if j == v.len() {
            assert(v.ids.contains(v.ids[i]));
        }
    }
    assert forall|i: int, j: int|
        0 <= i < w.stamps.len() && 0 <= j < w.stamps.len() && i != j implies w.stamps[i]
        != w.stamps[j] by {
        if i < v.len() && j < v.len() {
            assert(v.stamps[i] != v.stamps[j]);
        } else if i < v.len() {
            assert(v.stamps[i] < v.next_stamp);
        } else if j < v.len() {
            assert(v.stamps[j] < v.next_stamp);
        }
    }
    assert forall|i: int| 0 <= i < w.stamps.len() implies #[trigger] w.stamps[i] < w.next_stamp by {
        if i < v.len() {
            assert(v.stamps[i] < v.next_stamp);
        }
    }
    assert forall|i: int| 0 <= i < v.len() implies #[trigger] w.stamps[i] < w.stamps[v.len() as int] by {
        assert(v.stamps[i] < v.next_stamp);
    }
}

/// An accepted delete removes exactly the row of `key`: afterwards `key`
/// is no longer stored, every other id still is, and every remaining row
/// keeps its id, payload, metadata and stamp (the row from the back moves
/// into the freed slot). No search can return `key` until it is inserted
/// again.
pub proof fn law_delete_removes_only_key<V, M>(v: FlatView<V, M>, key: KeyView)
    requires
        v.valid(),
        v.holds(key),
    ensures
        ({
            let w = v.after_delete(key);
            let slot = v.slot_of(key);
            &&& w.valid()
            &&& !w.holds(key)
            &&& w.len() + 1 == v.len()
            &&& forall|other: KeyView| other != key ==> (w.holds(other) <==> v.holds(other))
            &&& forall|j: int|
                0 <= j < w.len() ==> {
                    let from = if j == slot {
                        v.len() - 1
                    } else {
                        j
                    };
                    &&& #[trigger] w.ids[j] == v.ids[from]
                    &&& w.rows[j] == v.rows[from]
                    &&& w.metadata[j] == v.metadata[from]
                    &&& w.stamps[j] == v.stamps[from]
                }
        }),
{
    let slot = v.slot_of(key);
    let n = v.len() as int;
    let w = v.after_delete(key);
    assert(0 <= slot < n && v.ids[slot] == key);
    let from = |j: int|
        if j == slot {
            n - 1
        } else {
            j
        };
    assert forall|i: int, j: int|
        0 <= i < w.ids.len() && 0 <= j < w.ids.len() && i != j implies w.ids[i] != w.ids[j] by {
        assert(v.ids[from(i)] != v.ids[from(j)]);
    }
    assert forall|i: int, j: int|
        0 <= i < w.stamps.len() && 0 <= j < w.stamps.len() && i != j implies w.stamps[i]
        != w.stamps[j] by {
        assert(v.stamps[from(i)] != v.stamps[from(j)]);
    }
    assert forall|i: int| 0 <= i < w.stamps.len() implies #[trigger] w.stamps[i] < w.next_stamp by {
        assert(v.stamps[from(i)] < v.next_stamp);
    }
    if w.holds(key) {
        let j = choose|j: int| 0 <= j < w.ids.len() && w.ids[j] == key;
        assert(v.ids[from(j)] == key);
        assert(from(j) != slot);
    }
    assert forall|other: KeyView| other != key implies (w.holds(other) <==> v.holds(other)) by {
        if v.holds(other) {
            let i = choose|i: int| 0 <= i < n && v.ids[i] == other;
            assert(i != slot);
            if i == n - 1 {
                assert(w.ids[slot] == other);
            } else {
                assert(w.ids[i] == other);
            }
        }
        if w.holds(other) {
            let j = choose|j: int| 0 <= j < w.ids.len() && w.ids[j] == other;
            assert(v.ids[from(j)] == other);
        }
    }
}

/// Each call changes the number of rows by what it did: an accepted insert
/// adds one row, an accepted delete removes one, and a refused insert or
/// delete leaves the state as it was.
pub proof fn law_len_tracks_calls<V, M>(v: FlatView<V, M>, key: KeyView, row: V, vector_len: usize, meta: M)
    requires
        v.valid(),
    ensures
        v.after_insert(key, row, vector_len, meta).len() == v.len() + (if v.insert_result(
            key,
            vector_len,
        ) is Ok {
            1int
        } else {
            0int
        }),
        v.insert_result(key, vector_len) is Err ==> v.after_insert(key, row, vector_len, meta) == v,
        v.after_delete(key).len() + (if v.delete_result(key) is Ok {
            1int
        } else {
            0int
        }) == v.len(),
        v.delete_result(key) is Err ==> v.after_delete(key) == v,
{
    if v.holds(key) {
        law_delete_removes_only_key(v, key);
    }
}

/// Inserting an id that is not stored and deleting it again gives back the
/// rows as they were: the same ids, payloads, metadata and stamps in the
/// same slots, so every later search ranks as before; only the next stamp
/// has moved on.
pub proof fn law_insert_then_delete<V, M>(v: FlatView<V, M>, key: KeyView, row: V, vector_len: usize, meta: M)
    requires
        v.valid(),
        v.insert_result(key, vector_len) is Ok,
    ensures
        ({
            let w = v.after_insert(key, row, vector_len, meta);
            let u = w.after_delete(key);
            &&& w.delete_result(key) is Ok
            &&& u.ids == v.ids
            &&& u.rows == v.rows
            &&& u.metadata == v.metadata
            &&& u.stamps == v.stamps
            &&& u.dim == v.dim
            &&& u.metric == v.metric
            &&& u.next_stamp == v.next_stamp + 1
        }),
{
    law_insert_stamps_last(v, key, row, vector_len, meta);
    let w = v.after_insert(key, row, vector_len, meta);
    let n = v.len() as int;
    let c = w.slot_of(key);
    assert(w.ids[n] == key);
    assert(0 <= c < w.ids.len() && w.ids[c] == key);
    assert(c == n);
    let u = w.after_delete(key);
    assert(u.ids =~= v.ids);
    assert(u.rows =~= v.rows);
    assert(u.metadata =~= v.metadata);
    assert(u.stamps =~= v.stamps);
}

/// A batch is the inserts of its items in order, stopping at the first
/// refusal: the first `accepted` items are inserted, and when the batch is
/// refused it is item `accepted` that is refused, with the answer its insert
/// gives. The batch adds, at the back and in batch order, the rows of those
/// `accepted` items and no others, so the number of rows grows by exactly
/// `accepted`; when the answer is `Ok` every item is added. The state stays
/// valid.
pub proof fn law_batch_appends<V, M>(v: FlatView<V, M>, items: Seq<(KeyView, V, usize, M)>) -> (accepted: nat)
    requires
        v.valid(),
    ensures
        ({
            let (w, r) = v.after_batch(items);
            let added = items.take(accepted as int);
            &&& accepted <= items.len()
            &&& accepted == v.batch_landed(items)
            &&& r is Ok ==> accepted == items.len()
            &&& r is Err ==> accepted < items.len()
            &&& v.after_batch(added).1 is Ok
            &&& w == v.after_batch(added).0
            &&& r is Err ==> r == v.after_batch(added).0.insert_result(
                items[accepted as int].0,
                items[accepted as int].2,
            )
            &&& w.valid()
            &&& w.dim == v.dim
            &&& w.metric == v.metric
            &&& w.len() == v.len() + accepted
            &&& w.ids == v.ids + added.map_values(|it: (KeyView, V, usize, M)| it.0)
            &&& w.rows == v.rows + added.map_values(|it: (KeyView, V, usize, M)| it.1)
            &&& w.metadata == v.metadata + added.map_values(|it: (KeyView, V, usize, M)| it.3)
        }),
    decreases items.len(),
{
    if items.len() == 0 {
        let added = items.take(0);
        assert(added.map_values(|it: (KeyView, V, usize, M)| it.0) =~= Seq::<KeyView>::empty());
        assert(added.map_values(|it: (KeyView, V, usize, M)| it.1) =~= Seq::<V>::empty());
        assert(added.map_values(|it: (KeyView, V, usize, M)| it.3) =~= Seq::<M>::empty());
        assert(v.ids + Seq::<KeyView>::empty() =~= v.ids);
        assert(v.rows + Seq::<V>::empty() =~= v.rows);
        assert(v.metadata + Seq::<M>::empty() =~= v.metadata);
        assert(added =~= items);
        0
    } else {
        let prefix = items.drop_last();
        let n_prev = law_batch_appends(v, prefix);
        let (before, answer) = v.after_batch(prefix);
        let last = items.last();
        assert(prefix.take(n_prev as int) =~= items.take(n_prev as int));
        if answer is Err {
            assert(items[n_prev as int] == prefix[n_prev as int]);
            n_prev
        } else if before.insert_result(last.0, last.2) is Err {
            assert(prefix.take(n_prev as int) =~= prefix);
            n_prev
        } else {
            assert(n_prev == prefix.len());
            law_insert_stamps_last(before, last.0, last.1, last.2, last.3);
            let added = items.take(items.len() as int);
            assert(added =~= items);
            assert(prefix.take(n_prev as int) =~= prefix);
            assert(items.map_values(|it: (KeyView, V, usize, M)| it.0) =~= prefix.map_values(
                |it: (KeyView, V, usize, M)| it.0,
            ).push(last.0));
            assert(items.map_values(|it: (KeyView, V, usize, M)| it.1) =~= prefix.map_values(
                |it: (KeyView, V, usize, M)| it.1,
            ).push(last.1));
            assert(items.map_values(|it: (KeyView, V, usize, M)| it.3) =~= prefix.map_values(
                |it: (KeyView, V, usize, M)| it.3,
            ).push(last.3));
            let w = before.with_row(last.0, last.1, last.3);
            assert(w.ids =~= v.ids + items.map_values(|it: (KeyView, V, usize, M)| it.0));
            assert(w.rows =~= v.rows + items.map_values(|it: (KeyView, V, usize, M)| it.1));
            assert(w.metadata =~= v.metadata + items.map_values(|it: (KeyView, V, usize, M)| it.3));
            items.len()
        }
    }
}

/// A search never returns an id twice: the rows of a valid state carry
/// distinct ids, and a top-`k` holds each row at most once.
pub proof fn law_hits_have_distinct_ids<V, M>(v: FlatView<V, M>, raw: Seq<u32>, k: nat, chosen: Seq<usize>)
    requires
        v.valid(),
        raw.len() == v.len(),
        is_top_k(v.adjusted(raw), v.stamps, k, chosen),
    ensures
        forall|q1: int, q2: int|
            0 <= q1 < chosen.len() && 0 <= q2 < chosen.len() && q1 != q2 ==> v.ids[#[trigger] chosen[q1] as int]
                != v.ids[#[trigger] chosen[q2] as int],
{
    let d = v.adjusted(raw);
    assert forall|q1: int, q2: int|
        0 <= q1 < chosen.len() && 0 <= q2 < chosen.len() && q1 != q2 implies v.ids[#[trigger] chosen[q1] as int]
        != v.ids[#[trigger] chosen[q2] as int] by {
        if q1 < q2 {
            assert(precedes(d, v.stamps, chosen[q1] as int, chosen[q2] as int));
        } else {
            assert(precedes(d, v.stamps, chosen[q2] as int, chosen[q1] as int));
        }
        assert(chosen[q1] != chosen[q2]);
    }
}

/// The number of rows counts what the calls did: after any sequence of
/// inserts, deletes and batch inserts, accepted or refused, the index holds
/// its starting rows plus every accepted insert (each inserted item of a
/// batch included) minus every accepted delete, and the state stays valid,
/// so those rows carry distinct ids.
pub proof fn law_len_counts_landed<V, M>(v: FlatView<V, M>, calls: Seq<Call<V, M>>)
    requires
        v.valid(),
    ensures
        v.run(calls).valid(),
        v.run(calls).len() == v.len() + v.landed(calls),
    decreases calls.len(),
{
    if calls.len() > 0 {
        let prefix = calls.drop_last();
        law_len_counts_landed(v, prefix);
        let before = v.run(prefix);
        match calls.last() {
            Call::Insert(key, row, vector_len, meta) => {
                law_len_tracks_calls(before, key, row, vector_len, meta);
                if before.insert_result(key, vector_len) is Ok {
                    law_insert_stamps_last(before, key, row, vector_len, meta);
                }
            },
            Call::Delete(key) => {
                if before.holds(key) {
                    law_delete_removes_only_key(before, key);
                }
            },
            Call::Batch(items) => {
                let _accepted = law_batch_appends(before, items);
            },
        }
    }
}

/// Equal states given equal calls end equal, with equal answers, and then
/// rank alike: two indexes built by the same calls (or one index asked
/// twice) answer every further call the same way, and their top-`k`s for
/// the same raw distances are the same rows with the same distances.
pub proof fn law_same_calls_same_results<V, M>(
    v1: FlatView<V, M>,
    v2: FlatView<V, M>,
    calls: Seq<Call<V, M>>,
    next: Call<V, M>,
    raw: Seq<u32>,
    k: nat,
    c1: Seq<usize>,
    c2: Seq<usize>,
)
    requires
        v1.valid(),
        v1 == v2,
        raw.len() == v1.run(calls).len(),
        is_top_k(v1.run(calls).adjusted(raw), v1.run(calls).stamps, k, c1),
        is_top_k(v2.run(calls).adjusted(raw), v2.run(calls).stamps, k, c2),
    ensures
        v1.run(calls) == v2.run(calls),
        v1.run(calls).apply(next) == v2.run(calls).apply(next),
        c1 == c2,
        forall|q: int|
            0 <= q < c1.len() ==> {
                &&& v1.run(calls).ids[#[trigger] c1[q] as int] == v2.run(calls).ids[c2[q] as int]
                &&& v1.run(calls).metadata[c1[q] as int] == v2.run(calls).metadata[c2[q] as int]
                &&& v1.run(calls).adjusted(raw)[c1[q] as int] == v2.run(calls).adjusted(raw)[c2[q] as int]
            },
{
    law_len_counts_landed(v1, calls);
    law_top_k_unique(v1.run(calls).adjusted(raw), v1.run(calls).stamps, k, c1, c2);
}

/// Distances rank by the numbers they encode: of two bit patterns that are
/// not NaN, the first ranks before the second exactly when its number is
/// smaller, or when the two are `-0.0` and `+0.0` in that order. This is
/// the order `f32::total_cmp` gives numbers, `-inf` first and `+inf` last.
pub proof fn law_order_follows_value(a: u32, b: u32)
    requires
        !is_nan(a),
        !is_nan(b),
    ensures
        order_key(a) < order_key(b) <==> (scaled_value(a) < scaled_value(b) || (scaled_value(a)
            == scaled_value(b) && sign_set(a) && !sign_set(b))),
{
    let ma = magnitude(a);
    let mb = magnitude(b);
    assert(0 <= ma <= 0x7F80_0000 && 0 <= mb <= 0x7F80_0000);
    lemma_scaled_magnitude_nonnegative(ma);
    lemma_scaled_magnitude_nonnegative(mb);
    if ma < mb {
        lemma_scaled_magnitude_increases(ma, mb);
    } else if mb < ma {
        lemma_scaled_magnitude_increases(mb, ma);
    }
}

/// A top-`k` is best first by number: of two chosen distances that are not
/// NaN, the earlier one's number is at most the later one's, and every
/// candidate left out whose distance is not NaN is at least as far as every
/// chosen one.
pub proof fn law_top_k_by_value(distances: Seq<u32>, stamps: Seq<u64>, k: nat, chosen: Seq<usize>)
    requires
        distances.len() == stamps.len(),
        is_top_k(distances, stamps, k, chosen),
    ensures
        forall|q1: int, q2: int|
            0 <= q1 < q2 < chosen.len() && !is_nan(#[trigger] distances[chosen[q1] as int]) && !is_nan(
                #[trigger] distances[chosen[q2] as int],
            ) ==> scaled_value(distances[chosen[q1] as int]) <= scaled_value(
                distances[chosen[q2] as int],
            ),
        forall|q: int, j: int|
            0 <= q < chosen.len() && 0 <= j < distances.len() && !chosen.contains(j as usize)
                && !is_nan(#[trigger] distances[chosen[q] as int]) && !is_nan(#[trigger] distances[j])
                ==> scaled_value(distances[chosen[q] as int]) <= scaled_value(distances[j]),
{
    assert forall|q1: int, q2: int|
        0 <= q1 < q2 < chosen.len() && !is_nan(#[trigger] distances[chosen[q1] as int]) && !is_nan(
            #[trigger] distances[chosen[q2] as int],
        ) implies scaled_value(distances[chosen[q1] as int]) <= scaled_value(
        distances[chosen[q2] as int],
    ) by {
        let a = distances[chosen[q1] as int];
        let b = distances[chosen[q2] as int];
        assert(precedes(distances, stamps, chosen[q1] as int, chosen[q2] as int));
        law_order_follows_value(a, b);
        law_order_follows_value(b, a);
        law_order_key_injective(a, b);
    }
    assert forall|q: int, j: int|
        0 <= q < chosen.len() && 0 <= j < distances.len() && !chosen.contains(j as usize)
            && !is_nan(#[trigger] distances[chosen[q] as int]) && !is_nan(#[trigger] distances[j])
            implies scaled_value(distances[chosen[q] as int]) <= scaled_value(distances[j]) by {
        let a = distances[chosen[q] as int];
        let b = distances[j];
        assert(precedes(distances, stamps, chosen[q] as int, j));
        law_order_follows_value(a, b);
        law_order_follows_value(b, a);
        law_order_key_injective(a, b);
    }
}

/// Under the inner product every distance is its raw value negated: the
/// number is the opposite one and the sign bit the other (a NaN stays a
/// NaN). Under every other metric the raw distance is kept as it is.
pub proof fn law_adjusted_negates_inner_product<V, M>(v: FlatView<V, M>, raw: Seq<u32>)
    ensures
        v.adjusted(raw).len() == raw.len(),
        forall|i: int|
            0 <= i < raw.len() ==> if v.metric == Metric::DotProduct {
                &&& scaled_value(#[trigger] v.adjusted(raw)[i]) == -scaled_value(raw[i])
                &&& sign_set(v.adjusted(raw)[i]) != sign_set(raw[i])
                &&& magnitude(v.adjusted(raw)[i]) == magnitude(raw[i])
                &&& is_nan(v.adjusted(raw)[i]) == is_nan(raw[i])
            } else {
                v.adjusted(raw)[i] == raw[i]
            },
{
}

/// An insert is accepted only with a vector of the index's dimension and an
/// id not yet stored: a vector of any other length is refused with the
/// expected and the found length, and an id already stored is refused as a
/// duplicate.
pub proof fn law_insert_checks_dimension_and_id<V, M>(v: FlatView<V, M>, key: KeyView, vector_len: usize)
    ensures
        v.insert_result(key, vector_len) is Ok ==> vector_len == v.dim && !v.holds(key),
        vector_len != v.dim ==> v.insert_result(key, vector_len) == Err::<(), FlatError>(
            FlatError::DimensionMismatch { expected: v.dim, found: vector_len },
        ),
        vector_len == v.dim && v.holds(key) ==> v.insert_result(key, vector_len) == Err::<
            (),
            FlatError,
        >(FlatError::Duplicate),
{
}

/// A search is checked before anything is ranked: it goes on only with a
/// query of the index's dimension and the index's own metric. A query of
/// another length is refused with the expected and the found length, a
/// query of the right length under another metric with `InvalidMetric`;
/// there is something to rank exactly when `k` is positive and the index
/// holds a row.
pub proof fn law_search_checks_dimension_and_metric<V, M>(
    v: FlatView<V, M>,
    query_len: usize,
    metric: Metric,
    k: usize,
)
    ensures
        v.search_check(query_len, metric, k) is Ok ==> query_len == v.dim && metric == v.metric,
        query_len != v.dim ==> v.search_check(query_len, metric, k) == Err::<bool, FlatError>(
            FlatError::DimensionMismatch { expected: v.dim, found: query_len },
        ),
        query_len == v.dim && metric != v.metric ==> v.search_check(query_len, metric, k) == Err::<
            bool,
            FlatError,
        >(FlatError::InvalidMetric),
        v.search_check(query_len, metric, k) == Ok::<bool, FlatError>(true) <==> (query_len == v.dim
            && metric == v.metric && k > 0 && v.len() > 0),
{
}

/// Each item of a batch keeps its own id, payload, length and metadata, in
/// batch order; an accepted batch stores item `i` with its own id, payload
/// and metadata in the slot `i` past the rows that were there before.
pub proof fn law_batch_items_keep_their_rows<V, M>(
    v: FlatView<V, M>,
    items: Seq<(VectorKey, V, usize, M)>,
)
    requires
        v.valid(),
    ensures
        batch_view(items).len() == items.len(),
        forall|i: int|
            0 <= i < items.len() ==> #[trigger] batch_view(items)[i] == (
                items[i].0@,
                items[i].1,
                items[i].2,
                items[i].3,
            ),
        v.after_batch(batch_view(items)).1 is Ok ==> forall|i: int|
            0 <= i < items.len() ==> {
                &&& v.after_batch(batch_view(items)).0.ids[v.len() + i] == (#[trigger] items[i]).0@
                &&& v.after_batch(batch_view(items)).0.rows[v.len() + i] == items[i].1
                &&& v.after_batch(batch_view(items)).0.metadata[v.len() + i] == items[i].3
            },
{
    let all = batch_view(items);
    let accepted = law_batch_appends(v, all);
    if v.after_batch(all).1 is Ok {
        assert(all.take(accepted as int) =~= all);
        let w = v.after_batch(all).0;
        assert forall|i: int| 0 <= i < items.len() implies {
            &&& w.ids[v.len() + i] == (#[trigger] items[i]).0@
            &&& w.rows[v.len() + i] == items[i].1
            &&& w.metadata[v.len() + i] == items[i].3
        } by {
            assert(all[i] == (items[i].0@, items[i].1, items[i].2, items[i].3));
        }
    }
}

} // verus!
