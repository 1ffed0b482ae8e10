use vstd::prelude::*;

use crate::order::{rank_before, ranks_before};

verus! {

/// Candidate `a` ranks strictly before candidate `b`, both taken from the
/// parallel `distances` / `stamps` sequences.
pub open spec fn precedes(distances: Seq<u32>, stamps: Seq<u64>, a: int, b: int) -> bool {
    ranks_before(distances[a], stamps[a], distances[b], stamps[b])
}

/// No two candidates carry the same insertion stamp.
pub open spec fn distinct_stamps(stamps: Seq<u64>) -> bool {
    forall|i: int, j: int|
        0 <= i < stamps.len() && 0 <= j < stamps.len() && i != j ==> stamps[i] != stamps[j]
}

/// The smaller of `k` and `n`.
pub open spec fn clamp(k: nat, n: nat) -> nat {
    if k <= n {
        k
    } else {
        n
    }
}

/// `chosen` is the exact top-`k` of the candidates, best first: it holds
/// `min(k, n)` candidate indices in strictly increasing rank, and every
/// candidate it leaves out ranks after every candidate it holds.
pub open spec fn is_top_k(distances: Seq<u32>, stamps: Seq<u64>, k: nat, chosen: Seq<usize>) -> bool {
    &&& chosen.len() == clamp(k, distances.len())
    &&& forall|q: int| 0 <= q < chosen.len() ==> #[trigger] chosen[q] < distances.len()
    &&& forall|q1: int, q2: int|
        #![trigger chosen[q1], chosen[q2]]
        0 <= q1 < q2 < chosen.len() ==> precedes(
            distances,
            stamps,
            chosen[q1] as int,
            chosen[q2] as int,
        )
    &&& forall|q: int, j: int|
        #![trigger chosen[q], chosen.contains(j as usize)]
        0 <= q < chosen.len() && 0 <= j < distances.len() && !chosen.contains(j as usize)
            ==> precedes(distances, stamps, chosen[q] as int, j)
}

// ----- max-heap over candidate indices: the root ranks last -----

spec fn ordered_at(d: Seq<u32>, s: Seq<u64>, h: Seq<usize>, c: int) -> bool {
    !precedes(d, s, h[(c - 1) / 2] as int, h[c] as int)
}

spec fn heap_ordered(d: Seq<u32>, s: Seq<u64>, h: Seq<usize>) -> bool {
    forall|c: int| 0 < c < h.len() ==> #[trigger] ordered_at(d, s, h, c)
}

/// `pos` is the inverse of `h`: `pos[j]` is the slot of candidate `j`, or
/// negative when `j` is not in `h`.
spec fn tracks(h: Seq<usize>, pos: Seq<int>, n: int) -> bool {
    &&& pos.len() == n
    &&& forall|p: int| 0 <= p < h.len() ==> (#[trigger] h[p]) < n && pos[h[p] as int] == p
    &&& forall|j: int|
        0 <= j < n && #[trigger] pos[j] >= 0 ==> pos[j] < h.len() && h[pos[j]] == j
}

spec fn same_members(pos1: Seq<int>, pos2: Seq<int>, n: int) -> bool {
    forall|j: int| 0 <= j < n ==> (#[trigger] pos1[j] >= 0) == (pos2[j] >= 0)
}

proof fn lemma_swap_tracks(h: Seq<usize>, pos: Seq<int>, n: int, a: int, b: int)
    requires
        tracks(h, pos, n),
        0 <= a < h.len(),
        0 <= b < h.len(),
    ensures
        tracks(
            h.update(a, h[b]).update(b, h[a]),
            pos.update(h[a] as int, b).update(h[b] as int, a),
            n,
        ),
        same_members(pos, pos.update(h[a] as int, b).update(h[b] as int, a), n),
{
    let h2 = h.update(a, h[b]).update(b, h[a]);
    let p2 = pos.update(h[a] as int, b).update(h[b] as int, a);
    assert forall|p: int| 0 <= p < h2.len() implies (#[trigger] h2[p]) < n && p2[h2[p] as int]
        == p by {
        if p != a && p != b {
            assert(h[p] != h[a]);
            assert(h[p] != h[b]);
        }
    }
    assert forall|j: int| 0 <= j < n && #[trigger] p2[j] >= 0 implies p2[j] < h2.len() && h2[p2[j]]
        == j by {
        if j != h[a] && j != h[b] {
            assert(pos[j] != a && pos[j] != b);
        }
    }
    assert forall|j: int| 0 <= j < n implies (#[trigger] pos[j] >= 0) == (p2[j] >= 0) by {}
}

proof fn lemma_root_dominates(d: Seq<u32>, s: Seq<u64>, h: Seq<usize>, p: int)
    requires
        heap_ordered(d, s, h),
        0 <= p < h.len(),
    ensures
        !precedes(d, s, h[0] as int, h[p] as int),
    decreases p,
{
    if p > 0 {
        let par = (p - 1) / 2;
        lemma_root_dominates(d, s, h, par);
        assert(ordered_at(d, s, h, p));
    }
}

proof fn lemma_root_is_worst(d: Seq<u32>, s: Seq<u64>, h: Seq<usize>)
    requires
        heap_ordered(d, s, h),
        h.len() > 0,
    ensures
        forall|p: int| 0 <= p < h.len() ==> !precedes(d, s, h[0] as int, #[trigger] h[p] as int),
{
    assert forall|p: int| 0 <= p < h.len() implies !precedes(
        d,
        s,
        h[0] as int,
        #[trigger] h[p] as int,
    ) by {
        lemma_root_dominates(d, s, h, p);
    }
}

fn candidate_before(d: &Vec<u32>, s: &Vec<u64>, a: usize, b: usize) -> (r: bool)
    requires
        d.len() == s.len(),
        a < d.len(),
        b < d.len(),
    ensures
        r == precedes(d@, s@, a as int, b as int),
{
    rank_before(d[a], s[a], d[b], s[b])
}

fn swap_slots(h: &mut Vec<usize>, a: usize, b: usize)
    requires
        a < old(h).len(),
        b < old(h).len(),
    ensures
        final(h)@ == old(h)@.update(a as int, old(h)@[b as int]).update(b as int, old(h)@[a as int]),
{
    let ha = h[a];
    let hb = h[b];
    h.set(a, hb);
    h.set(b, ha);
}

/// Moves the candidate at `start` towards the root until the heap order
/// holds everywhere.
fn sift_up(h: &mut Vec<usize>, d: &Vec<u32>, s: &Vec<u64>, start: usize, Ghost(pos): Ghost<
    Seq<int>,
>) -> (new_pos: Ghost<Seq<int>>)
    requires
        d.len() == s.len(),
        start < old(h).len(),
        tracks(old(h)@, pos, d.len() as int),
        forall|x: int|
            0 < x < old(h).len() && x != start ==> #[trigger] ordered_at(d@, s@, old(h)@, x),
        forall|x: int|
            0 < x < old(h).len() && (x - 1) / 2 == start && start > 0 ==> !precedes(
                d@,
                s@,
                old(h)@[(start - 1) / 2] as int,
                #[trigger] old(h)@[x] as int,
            ),
    ensures
        final(h)@.len() == old(h)@.len(),
        heap_ordered(d@, s@, final(h)@),
        tracks(final(h)@, new_pos@, d.len() as int),
        same_members(pos, new_pos@, d.len() as int),
{
    let ghost n = d.len() as int;
    let ghost mut gp = pos;
    let mut c = start;
    while c > 0 && candidate_before(d, s, h[(c - 1) / 2], h[c])
        invariant
            d.len() == s.len(),
            n == d.len(),
            h@.len() == old(h)@.len(),
            c < h@.len(),
            tracks(h@, gp, n),
            same_members(pos, gp, n),
            forall|x: int| 0 < x < h@.len() && x != c ==> #[trigger] ordered_at(d@, s@, h@, x),
            forall|x: int|
                0 < x < h@.len() && (x - 1) / 2 == c && c > 0 ==> !precedes(
                    d@,
                    s@,
                    h@[(c - 1) / 2] as int,
                    #[trigger] h@[x] as int,
                ),
        decreases c,
    {
        let p = (c - 1) / 2;
        let ghost h0 = h@;
        proof {
            lemma_swap_tracks(h0, gp, n, p as int, c as int);
            gp = gp.update(h0[p as int] as int, c as int).update(h0[c as int] as int, p as int);
        }
        swap_slots(h, p, c);
        proof {
            let h1 = h@;
            assert forall|x: int| 0 < x < h1.len() && x != p implies #[trigger] ordered_at(
                d@,
                s@,
                h1,
                x,
            ) by {
                let px = (x - 1) / 2;
                if x == c {
                } else if px == c {
                    assert(!precedes(d@, s@, h0[p as int] as int, h0[x] as int));
                } else if px == p {
                    assert(ordered_at(d@, s@, h0, x));
                } else {
                    assert(ordered_at(d@, s@, h0, x));
                }
            }
            assert forall|x: int|
                0 < x < h1.len() && (x - 1) / 2 == p && p > 0 implies !precedes(
                d@,
                s@,
                h1[(p - 1) / 2] as int,
                #[trigger] h1[x] as int,
            ) by {
                let pp = (p - 1) / 2;
                assert(ordered_at(d@, s@, h0, p as int));
                if x != c {
                    assert(ordered_at(d@, s@, h0, x));
                }
            }
        }
        c = p;
    }
    proof {
        assert forall|x: int| 0 < x < h@.len() implies #[trigger] ordered_at(d@, s@, h@, x) by {
            if x == c {
            }
        }
    }
    Ghost(gp)
}

/// Moves the candidate at `start` away from the root until the heap order
/// holds everywhere.
fn sift_down(h: &mut Vec<usize>, d: &Vec<u32>, s: &Vec<u64>, start: usize, Ghost(pos): Ghost<
    Seq<int>,
>) -> (new_pos: Ghost<Seq<int>>)
    requires
        d.len() == s.len(),
        start < old(h).len(),
        tracks(old(h)@, pos, d.len() as int),
        forall|x: int|
            0 < x < old(h).len() && (x - 1) / 2 != start ==> #[trigger] ordered_at(
                d@,
                s@,
                old(h)@,
                x,
            ),
        forall|x: int|
            0 < x < old(h).len() && (x - 1) / 2 == start && start > 0 ==> !precedes(
                d@,
                s@,
                old(h)@[(start - 1) / 2] as int,
                #[trigger] old(h)@[x] as int,
            ),
    ensures
        final(h)@.len() == old(h)@.len(),
        heap_ordered(d@, s@, final(h)@),
        tracks(final(h)@, new_pos@, d.len() as int),
        same_members(pos, new_pos@, d.len() as int),
{
    let ghost n = d.len() as int;
    let ghost mut gp = pos;
    let mut c = start;
    let len = h.len();
    loop
        invariant
            d.len() == s.len(),
            n == d.len(),
            h@.len() == old(h)@.len(),
            len == h@.len(),
            c < len,
            tracks(h@, gp, n),
            same_members(pos, gp, n),
            forall|x: int|
                0 < x < len && (x - 1) / 2 != c ==> #[trigger] ordered_at(d@, s@, h@, x),
            forall|x: int|
                0 < x < len && (x - 1) / 2 == c && c > 0 ==> !precedes(
                    d@,
                    s@,
                    h@[(c - 1) / 2] as int,
                    #[trigger] h@[x] as int,
                ),
        ensures
            h@.len() == old(h)@.len(),
            heap_ordered(d@, s@, h@),
            tracks(h@, gp, n),
            same_members(pos, gp, n),
        decreases len - c,
    {
        if c >= len / 2 {
            proof {
                assert forall|x: int| 0 < x < len implies #[trigger] ordered_at(d@, s@, h@, x) by {
                    if (x - 1) / 2 == c {
                        assert(false);
                    }
                }
            }
            break ;
        }
        let l = 2 * c + 1;
        let mut w = l;
        if l + 1 < len && candidate_before(d, s, h[l], h[l + 1]) {
            w = l + 1;
        }
        assert(w == l || w == l + 1);
        assert(!precedes(d@, s@, h@[w as int] as int, h@[l as int] as int));
        assert(l + 1 < len ==> !precedes(d@, s@, h@[w as int] as int, h@[(l + 1) as int] as int));
        if candidate_before(d, s, h[c], h[w]) {
            let ghost h0 = h@;
            proof {
                lemma_swap_tracks(h0, gp, n, c as int, w as int);
                gp = gp.update(h0[c as int] as int, w as int).update(
                    h0[w as int] as int,
                    c as int,
                );
            }
            swap_slots(h, c, w);
            proof {
                let h1 = h@;
                assert forall|x: int| 0 < x < len && (x - 1) / 2 != w implies #[trigger] ordered_at(
                    d@,
                    s@,
                    h1,
                    x,
                ) by {
                    let px = (x - 1) / 2;
                    if x == w {
                    } else if px == c {
                        assert(x == l || x == l + 1);
                    } else if x == c {
                        if c > 0 {
                            assert(!precedes(
                                d@,
                                s@,
                                h0[(c - 1) / 2] as int,
                                h0[w as int] as int,
                            ));
                        }
                    } else {
                        assert(ordered_at(d@, s@, h0, x));
                    }
                }
                assert forall|x: int|
                    0 < x < len && (x - 1) / 2 == w && w > 0 implies !precedes(
                    d@,
                    s@,
                    h1[(w - 1) / 2] as int,
                    #[trigger] h1[x] as int,
                ) by {
                    assert(ordered_at(d@, s@, h0, x));
                }
            }
            c = w;
        } else {
            proof {
                assert forall|x: int| 0 < x < len implies #[trigger] ordered_at(d@, s@, h@, x) by {
                    if (x - 1) / 2 == c {
                        assert(x == l || x == l + 1);
                    }
                }
            }
            break ;
        }
    }
    Ghost(gp)
}

/// Selects the exact top-`k` candidates, best first, with a bounded
/// max-heap of at most `k` entries: `O(n log k)` comparisons.
///
/// Candidate `i` has distance bits `distances[i]` and insertion stamp
/// `stamps[i]`; candidates are compared by the total order of their
/// distances, then by stamp, so ties go to the earlier insertion. The
/// returned values are candidate indices.
pub fn select_topk_indices(distances: &Vec<u32>, stamps: &Vec<u64>, k: usize) -> (chosen: Vec<
    usize,
>)
    requires
        distances.len() == stamps.len(),
        distinct_stamps(stamps@),
    ensures
        is_top_k(distances@, stamps@, k as nat, chosen@),
{
    let d = distances;
    let s = stamps;
    let n = d.len();
    let ghost ni = n as int;
    let mut heap: Vec<usize> = Vec::new();
    let ghost mut pos: Seq<int> = Seq::new(n as nat, |j: int| -1int);
    let mut i: usize = 0;
    while i < n
        invariant
            n == d.len(),
            n == s.len(),
            ni == n,
            distinct_stamps(s@),
            i <= n,
            heap@.len() == clamp(k as nat, i as nat),
            tracks(heap@, pos, ni),
            heap_ordered(d@, s@, heap@),
            forall|j: int| 0 <= j < ni && #[trigger] pos[j] >= 0 ==> j < i,
            i <= k ==> forall|j: int| 0 <= j < i ==> #[trigger] pos[j] >= 0,
            forall|p: int, j: int|
                #![trigger heap@[p], pos[j]]
                0 <= p < heap@.len() && 0 <= j < i && pos[j] < 0 ==> precedes(
                    d@,
                    s@,
                    heap@[p] as int,
                    j,
                ),
        decreases n - i,
    {
        if heap.len() < k {
            let ghost h0 = heap@;
            let ghost p0 = pos;
            assert(p0[i as int] < 0);
            heap.push(i);
            proof {
                pos = pos.update(i as int, h0.len() as int);
                assert(tracks(heap@, pos, ni)) by {
                    assert forall|p: int| 0 <= p < heap@.len() implies (#[trigger] heap@[p]) < ni
                        && pos[heap@[p] as int] == p by {
                        if p < h0.len() {
                            assert(h0[p] != i);
                        }
                    }
                }
                assert forall|x: int|
                    0 < x < heap@.len() && x != h0.len() implies #[trigger] ordered_at(
                    d@,
                    s@,
                    heap@,
                    x,
                ) by {
                    assert(ordered_at(d@, s@, h0, x));
                }
            }
            let last_slot = heap.len() - 1;
            let ghost pm = pos;
            let Ghost(np) = sift_up(&mut heap, d, s, last_slot, Ghost(pos));
            proof {
                pos = np;
                if i + 1 <= k {
                    assert forall|j: int| 0 <= j < i + 1 implies #[trigger] pos[j] >= 0 by {
                        if j < i {
                            assert(p0[j] >= 0);
                        }
                        assert(pm[j] >= 0);
                    }
                }
                assert forall|j: int| 0 <= j < ni && #[trigger] pos[j] >= 0 implies j < i + 1 by {
                    assert(pm[j] >= 0);
                }
                assert forall|p: int, j: int|
                    #![trigger heap@[p], pos[j]]
                    0 <= p < heap@.len() && 0 <= j < i + 1 && pos[j] < 0 implies precedes(
                    d@,
                    s@,
                    heap@[p] as int,
                    j,
                ) by {
                    assert(pm[j] < 0);
                    assert(j < i);
                    assert(p0[j] >= 0);
                }
            }
        } else if k > 0 && candidate_before(d, s, i, heap[0]) {
            let root = heap[0];
            let ghost h0 = heap@;
            let ghost p0 = pos;
            proof {
                lemma_root_is_worst(d@, s@, h0);
                assert(p0[i as int] < 0);
            }
            heap.set(0, i);
            proof {
                pos = pos.update(root as int, -1int).update(i as int, 0int);
                assert(tracks(heap@, pos, ni)) by {
                    assert forall|p: int| 0 <= p < heap@.len() implies (#[trigger] heap@[p]) < ni
                        && pos[heap@[p] as int] == p by {
                        if p > 0 {
                            assert(h0[p] != root);
                            assert(h0[p] != i);
                        }
                    }
                    assert forall|j: int| 0 <= j < ni && #[trigger] pos[j] >= 0 implies pos[j]
                        < heap@.len() && heap@[pos[j]] == j by {
                        if j != i && j != root {
                            assert(p0[j] != 0);
                        }
                    }
                }
                assert forall|x: int|
                    0 < x < heap@.len() && (x - 1) / 2 != 0 implies #[trigger] ordered_at(
                    d@,
                    s@,
                    heap@,
                    x,
                ) by {
                    assert(ordered_at(d@, s@, h0, x));
                }
            }
            let Ghost(np) = sift_down(&mut heap, d, s, 0, Ghost(pos));
            proof {
                let p1 = pos;
                pos = np;
                assert forall|j: int| 0 <= j < ni && #[trigger] pos[j] >= 0 implies j < i + 1 by {
                    assert(p1[j] >= 0);
                    if j != i {
                        assert(p0[j] >= 0);
                    }
                }
                assert forall|p: int, j: int|
                    #![trigger heap@[p], pos[j]]
                    0 <= p < heap@.len() && 0 <= j < i + 1 && pos[j] < 0 implies precedes(
                    d@,
                    s@,
                    heap@[p] as int,
                    j,
                ) by {
                    let e = heap@[p];
                    assert(pos[e as int] == p);
                    assert(p1[e as int] >= 0);
                    assert(p1[j] < 0);
                    assert(j != i);
                    if j != root {
                        assert(p0[j] < 0);
                        assert(h0[0] == root);
                        assert(precedes(d@, s@, h0[0] as int, j));
                    }
                    let q = p1[e as int];
                    if q == 0 {
                        assert(e == i);
                    } else {
                        assert(e != root);
                        assert(p0[e as int] == q);
                        assert(h0[q] == e);
                        assert(!precedes(d@, s@, root as int, e as int));
                        if j != root {
                            assert(precedes(d@, s@, h0[q] as int, j));
                        }
                    }
                }
            }
        } else {
            proof {
                if k > 0 {
                    lemma_root_is_worst(d@, s@, heap@);
                    let root = heap@[0];
                    assert(pos[root as int] == 0);
                    assert(root != i);
                    assert(precedes(d@, s@, root as int, i as int));
                    assert forall|p: int, j: int|
                        #![trigger heap@[p], pos[j]]
                        0 <= p < heap@.len() && 0 <= j < i + 1 && pos[j] < 0 implies precedes(
                        d@,
                        s@,
                        heap@[p] as int,
                        j,
                    ) by {
                        if j == i {
                            assert(!precedes(d@, s@, root as int, heap@[p] as int));
                        }
                    }
                }
            }
        }
        i += 1;
    }
    let ghost sel = heap@;
    let ghost kept = pos;
    let m = heap.len();
    let mut out: Vec<usize> = vec![0usize; m];
    let ghost mut opos: Seq<int> = Seq::new(n as nat, |j: int| -1int);
    let mut t = m;
    while t > 0
        invariant
            n == d.len(),
            n == s.len(),
            ni == n,
            distinct_stamps(s@),
            m == sel.len(),
            m == clamp(k as nat, n as nat),
            tracks(sel, kept, ni),
            forall|p: int, j: int|
                #![trigger sel[p], kept[j]]
                0 <= p < m && 0 <= j < ni && kept[j] < 0 ==> precedes(d@, s@, sel[p] as int, j),
            t <= m,
            heap@.len() == t,
            out@.len() == m,
            tracks(heap@, pos, ni),
            heap_ordered(d@, s@, heap@),
            opos.len() == ni,
            forall|q: int| t <= q < m ==> (#[trigger] out@[q]) < ni && opos[out@[q] as int] == q,
            forall|j: int|
                0 <= j < ni && #[trigger] opos[j] >= 0 ==> t <= opos[j] < m && out@[opos[j]] == j,
            forall|j: int|
                0 <= j < ni ==> (#[trigger] kept[j] >= 0 <==> (pos[j] >= 0 || opos[j] >= 0)),
            forall|j: int| 0 <= j < ni && #[trigger] pos[j] >= 0 ==> opos[j] < 0,
            forall|p: int, q: int|
                #![trigger heap@[p], out@[q]]
                0 <= p < t && t <= q < m ==> precedes(d@, s@, heap@[p] as int, out@[q] as int),
            forall|q1: int, q2: int|
                #![trigger out@[q1], out@[q2]]
                t <= q1 < q2 < m ==> precedes(d@, s@, out@[q1] as int, out@[q2] as int),
        decreases t,
    {
        let top = heap[0];
        let ghost h0 = heap@;
        let ghost p0 = pos;
        let ghost o0 = out@;
        proof {
            lemma_root_is_worst(d@, s@, h0);
        }
        let last = heap.pop().unwrap();
        t = t - 1;
        out.set(t, top);
        let ghost opos0 = opos;
        proof {
            opos = opos.update(top as int, t as int);
            assert(p0[top as int] == 0);
            assert(opos0[top as int] < 0);
        }
        if t > 0 {
            heap.set(0, last);
            proof {
                assert(p0[last as int] == t);
                assert(last != top);
                pos = pos.update(top as int, -1int).update(last as int, 0int);
                assert(tracks(heap@, pos, ni)) by {
                    assert forall|p: int| 0 <= p < heap@.len() implies (#[trigger] heap@[p]) < ni
                        && pos[heap@[p] as int] == p by {
                        if p > 0 {
                            assert(h0[p] != top);
                            assert(h0[p] != last);
                        }
                    }
                    assert forall|j: int| 0 <= j < ni && #[trigger] pos[j] >= 0 implies pos[j]
                        < heap@.len() && heap@[pos[j]] == j by {
                        if j != top && j != last {
                            assert(p0[j] != 0 && p0[j] != t);
                        }
                    }
                }
                assert forall|x: int|
                    0 < x < heap@.len() && (x - 1) / 2 != 0 implies #[trigger] ordered_at(
                    d@,
                    s@,
                    heap@,
                    x,
                ) by {
                    assert(ordered_at(d@, s@, h0, x));
                }
            }
            let Ghost(np) = sift_down(&mut heap, d, s, 0, Ghost(pos));
            proof {
                let p1 = pos;
                pos = np;
                assert forall|p: int, q: int|
                    #![trigger heap@[p], out@[q]]
                    0 <= p < t && t <= q < m implies precedes(
                    d@,
                    s@,
                    heap@[p] as int,
                    out@[q] as int,
                ) by {
                    let e = heap@[p];
                    assert(pos[e as int] == p);
                    assert(p1[e as int] >= 0);
                    assert(e != top);
                    let r = p0[e as int];
                    assert(r >= 0);
                    assert(h0[r] == e);
                    assert(r != 0);
                    assert(s@[e as int] != s@[top as int]);
                    if q == t {
                        assert(!precedes(d@, s@, top as int, e as int));
                    } else {
                        assert(out@[q] == o0[q]);
                    }
                }
                assert forall|j: int| 0 <= j < ni && #[trigger] pos[j] >= 0 implies opos[j] < 0 by {
                    assert(p1[j] >= 0);
                    assert(j != top);
                    if j != last {
                        assert(p0[j] >= 0);
                    }
                    assert(opos0[j] < 0);
                }
                assert forall|j: int|
                    0 <= j < ni implies (#[trigger] kept[j] >= 0 <==> (pos[j] >= 0 || opos[j]
                    >= 0)) by {
                    assert(pos[j] >= 0 <==> p1[j] >= 0);
                    assert(kept[j] >= 0 <==> (p0[j] >= 0 || opos0[j] >= 0));
                }
            }
        } else {
            proof {
                pos = pos.update(top as int, -1int);
                assert forall|j: int|
                    0 <= j < ni implies (#[trigger] kept[j] >= 0 <==> (pos[j] >= 0 || opos[j]
                    >= 0)) by {
                    assert(kept[j] >= 0 <==> (p0[j] >= 0 || opos0[j] >= 0));
                }
                assert forall|j: int| 0 <= j < ni && #[trigger] pos[j] >= 0 implies opos[j] < 0 by {
                    assert(p0[j] >= 0);
                }
            }
        }
        proof {
            assert forall|q1: int, q2: int|
                #![trigger out@[q1], out@[q2]]
                t <= q1 < q2 < m implies precedes(d@, s@, out@[q1] as int, out@[q2] as int) by {
                if q1 == t {
                    assert(out@[q2] == o0[q2]);
                }
            }
            assert forall|q: int| t <= q < m implies (#[trigger] out@[q]) < ni && opos[out@[q] as int]
                == q by {
                if q > t {
                    assert(o0[q] != top);
                }
            }
        }
    }
    proof {
        assert forall|q: int, j: int|
            #![trigger out@[q], out@.contains(j as usize)]
            0 <= q < out@.len() && 0 <= j < ni && !out@.contains(j as usize) implies precedes(
            d@,
            s@,
            out@[q] as int,
            j,
        ) by {
            if kept[j] >= 0 {
                assert(opos[j] >= 0);
                assert(out@[opos[j]] == j);
            }
            let e = out@[q];
            assert(kept[e as int] >= 0);
            assert(sel[kept[e as int]] == e);
        }
    }
    out
}

} // verus!
