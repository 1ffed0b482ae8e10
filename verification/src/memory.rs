use vstd::prelude::*;

verus! {

/// How much a stored payload occupies behind its handle: `component_bytes`
/// per component and a fixed `header_bytes` per row.
#[derive(Debug, Clone, Copy, PartialEq, Eq, Structural)]
pub struct PayloadLayout {
    pub component_bytes: usize,
    pub header_bytes: usize,
}

/// One backing store: how many slots it has room for and the bytes of each.
#[derive(Debug, Clone, Copy, PartialEq, Eq, Structural)]
pub struct StoreUse {
    pub capacity: usize,
    pub slot_bytes: usize,
}

/// The five backing stores of an index: payload handles, ids, metadata,
/// insertion stamps and the id-to-slot map.
#[derive(Debug, Clone, Copy, PartialEq, Eq, Structural)]
pub struct Footprint {
    pub vectors: StoreUse,
    pub ids: StoreUse,
    pub metadata: StoreUse,
    pub stamps: StoreUse,
    pub slot_map: StoreUse,
}

/// The bytes one store occupies.
pub open spec fn store_bytes(s: StoreUse) -> int {
    s.capacity * s.slot_bytes
}

/// The approximate resident footprint of an index of `rows`
/// `dim`-component rows: each payload counted once (its components and its
/// header), plus every store's capacity times its slot size.
pub open spec fn footprint_bytes(rows: usize, dim: usize, payload: PayloadLayout, f: Footprint) -> int {
    rows * (dim * payload.component_bytes + payload.header_bytes) + store_bytes(f.vectors)
        + store_bytes(f.ids) + store_bytes(f.metadata) + store_bytes(f.stamps) + store_bytes(
        f.slot_map,
    )
}

/// `x`, or `usize::MAX` when `x` does not fit.
pub open spec fn saturated(x: int) -> usize {
    if x > usize::MAX {
        usize::MAX
    } else {
        x as usize
    }
}

/// A footprint with at least one row whose payload occupies any bytes is
/// positive.
pub(crate) proof fn lemma_footprint_positive(rows: usize, dim: usize, payload: PayloadLayout, f: Footprint)
    requires
        rows > 0,
        dim > 0,
        payload.component_bytes > 0 || payload.header_bytes > 0,
    ensures
        footprint_bytes(rows, dim, payload, f) > 0,
{
    let per_row = dim * payload.component_bytes + payload.header_bytes;
    assert(dim * payload.component_bytes >= 0) by (nonlinear_arith);
    if payload.component_bytes > 0 {
        assert(dim * payload.component_bytes >= 1) by (nonlinear_arith)
            requires
                dim >= 1,
                payload.component_bytes >= 1,
        ;
    }
    assert(per_row >= 1);
    assert(rows * per_row >= 1) by (nonlinear_arith)
        requires
            rows >= 1,
            per_row >= 1,
    ;
    assert(store_bytes(f.vectors) >= 0) by (nonlinear_arith);
    assert(store_bytes(f.ids) >= 0) by (nonlinear_arith);
    assert(store_bytes(f.metadata) >= 0) by (nonlinear_arith);
    assert(store_bytes(f.stamps) >= 0) by (nonlinear_arith);
    assert(store_bytes(f.slot_map) >= 0) by (nonlinear_arith);
}

fn saturating_mul(a: usize, b: usize) -> (r: usize)
    ensures
        r == saturated(a * b),
{
    match a.checked_mul(b) {
        Some(p) => p,
        None => usize::MAX,
    }
}

proof fn lemma_saturated_mul(a: int, x: int)
    requires
        a >= 0,
        x >= 0,
    ensures
        saturated(a * saturated(x)) == saturated(a * x),
{
    if x > usize::MAX && a >= 1 {
        assert(a * x >= x) by (nonlinear_arith)
            requires
                a >= 1,
                x >= 0,
        ;
        assert(a * usize::MAX >= usize::MAX) by (nonlinear_arith)
            requires
                a >= 1,
        ;
    }
}

/// Computes [`footprint_bytes`], saturating at `usize::MAX`: the estimate
/// is best-effort, for capacity dashboards, and never overflows.
pub fn memory_bytes(rows: usize, dim: usize, payload: PayloadLayout, f: Footprint) -> (bytes: usize)
    ensures
        bytes == saturated(footprint_bytes(rows, dim, payload, f)),
{
    let per_row = saturating_mul(dim, payload.component_bytes).saturating_add(payload.header_bytes);
    let payloads = saturating_mul(rows, per_row);
    let v = saturating_mul(f.vectors.capacity, f.vectors.slot_bytes);
    let i = saturating_mul(f.ids.capacity, f.ids.slot_bytes);
    let m = saturating_mul(f.metadata.capacity, f.metadata.slot_bytes);
    let s = saturating_mul(f.stamps.capacity, f.stamps.slot_bytes);
    let p = saturating_mul(f.slot_map.capacity, f.slot_map.slot_bytes);
    proof {
        let x = dim * payload.component_bytes + payload.header_bytes;
        assert(dim * payload.component_bytes >= 0) by (nonlinear_arith);
        assert(per_row == saturated(x));
        lemma_saturated_mul(rows as int, x);
        assert(rows * x >= 0) by (nonlinear_arith)
            requires
                x >= 0,
        ;
        assert(store_bytes(f.vectors) >= 0) by (nonlinear_arith);
        assert(store_bytes(f.ids) >= 0) by (nonlinear_arith);
        assert(store_bytes(f.metadata) >= 0) by (nonlinear_arith);
        assert(store_bytes(f.stamps) >= 0) by (nonlinear_arith);
        assert(store_bytes(f.slot_map) >= 0) by (nonlinear_arith);
    }
    payloads.saturating_add(v).saturating_add(i).saturating_add(m).saturating_add(s).saturating_add(p)
}

/// `Vec::capacity`: the number of elements `v` holds without
/// reallocating. It depends on the allocator; only that it is at least the
/// length is stated.
#[verifier::external_body]
pub(crate) fn vec_capacity<T>(v: &Vec<T>) -> (cap: usize)
    ensures
        cap >= v.len(),
{
    v.capacity()
}

} // verus!
