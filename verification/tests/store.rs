//! The verified store used directly: distance bit patterns in, ranked
//! slots out, and the order, selection and footprint helpers on concrete
//! values.

use std::cmp::Ordering;

use iqdb_flat::memory::memory_bytes;
use iqdb_flat::order::{negate_bits, rank_before, total_order_key};
use iqdb_flat::topk::select_topk_indices;
use iqdb_flat::{
    ConfigIssue, FlatConfig, FlatError, FlatIndex, Footprint, Metric, PayloadLayout, Scored,
    StoreUse, VectorKey,
};

type Store = FlatIndex<Vec<f32>, u32>;

fn bits(values: &[f32]) -> Vec<u32> {
    values.iter().map(|v| v.to_bits()).collect()
}

fn store(dim: usize, metric: Metric) -> Store {
    Store::new(dim, metric, FlatConfig).unwrap()
}

fn add(idx: &mut Store, id: u64, row: &[f32]) {
    idx.insert(VectorKey::U64(id), row.to_vec(), row.len(), id as u32)
        .unwrap();
}

fn ids_of(idx: &Store, hits: &[Scored]) -> Vec<VectorKey> {
    hits.iter().map(|h| idx.id_at(h.slot).clone()).collect()
}

const SAMPLES: [f32; 14] = [
    f32::NEG_INFINITY,
    -1.0e30,
    -2.5,
    -1.0,
    -f32::MIN_POSITIVE,
    -0.0,
    0.0,
    f32::MIN_POSITIVE,
    1.0,
    2.5,
    1.0e30,
    f32::INFINITY,
    f32::NAN,
    f32::MAX,
];

#[test]
fn order_key_agrees_with_total_cmp() {
    let mut all: Vec<f32> = SAMPLES.to_vec();
    all.push(-f32::NAN);
    for a in &all {
        for b in &all {
            let by_key = total_order_key(a.to_bits()).cmp(&total_order_key(b.to_bits()));
            if a.is_nan() == b.is_nan() && !a.is_nan() {
                assert_eq!(by_key, a.total_cmp(b), "{a:?} vs {b:?}");
            } else if a.is_nan() && !b.is_nan() {
                assert_eq!(by_key, Ordering::Greater, "{a:?} vs {b:?}");
            } else if !a.is_nan() && b.is_nan() {
                assert_eq!(by_key, Ordering::Less, "{a:?} vs {b:?}");
            }
        }
    }
}

#[test]
fn order_key_exact_values() {
    assert_eq!(total_order_key(0.0_f32.to_bits()), 0x8000_0000);
    assert_eq!(total_order_key((-0.0_f32).to_bits()), 0x7FFF_FFFF);
    assert_eq!(total_order_key(1.0_f32.to_bits()), 0x8000_0000 + 0x3F80_0000);
    assert_eq!(total_order_key((-1.0_f32).to_bits()), 0xFFFF_FFFF - 0xBF80_0000);
    assert_eq!(total_order_key(0x7FC0_0000), 0x1_0000_0000 + 0x7FC0_0000);
    assert_eq!(total_order_key(0xFFC0_0000), 0x1_0000_0000 + 0xFFC0_0000);
}

#[test]
fn negate_bits_is_float_negation() {
    for v in SAMPLES {
        assert_eq!(negate_bits(v.to_bits()), (-v).to_bits(), "{v:?}");
    }
    assert_eq!(negate_bits(0x0000_0000), 0x8000_0000);
    assert_eq!(negate_bits(0x8000_0001), 0x0000_0001);
}

#[test]
fn negation_reverses_the_order_of_distinct_values() {
    for a in SAMPLES {
        for b in SAMPLES {
            if a.to_bits() != b.to_bits() && !a.is_nan() && !b.is_nan() {
                let before = total_order_key(a.to_bits()) < total_order_key(b.to_bits());
                let after = total_order_key(negate_bits(a.to_bits()))
                    < total_order_key(negate_bits(b.to_bits()));
                assert_eq!(before, !after, "{a:?} vs {b:?}");
            }
        }
    }
}

#[test]
fn nan_of_either_sign_ranks_after_every_number() {
    for v in SAMPLES {
        if !v.is_nan() {
            assert!(rank_before(v.to_bits(), 9, f32::NAN.to_bits(), 0));
            assert!(rank_before(v.to_bits(), 9, (-f32::NAN).to_bits(), 0));
            assert!(!rank_before((-f32::NAN).to_bits(), 0, v.to_bits(), 9));
        }
    }
    assert_eq!(negate_bits(f32::NAN.to_bits()), (-f32::NAN).to_bits());
}

#[test]
fn equal_distances_rank_by_stamp() {
    let d = 1.5_f32.to_bits();
    assert!(rank_before(d, 3, d, 4));
    assert!(!rank_before(d, 4, d, 3));
    assert!(rank_before(1.0_f32.to_bits(), 7, 2.0_f32.to_bits(), 1));
    assert!(!rank_before(2.0_f32.to_bits(), 1, 1.0_f32.to_bits(), 7));
}

#[test]
fn select_topk_picks_smallest_best_first() {
    let d = bits(&[3.0, 1.0, 2.0, 0.5, 4.0]);
    let s = vec![0, 1, 2, 3, 4];
    assert_eq!(select_topk_indices(&d, &s, 3), vec![3, 1, 2]);
    assert_eq!(select_topk_indices(&d, &s, 0), Vec::<usize>::new());
    assert_eq!(select_topk_indices(&d, &s, 99), vec![3, 1, 2, 0, 4]);
}

#[test]
fn select_topk_breaks_ties_by_stamp_not_position() {
    let d = bits(&[1.0, 1.0, 1.0, 0.0]);
    let s = vec![40, 10, 30, 99];
    assert_eq!(select_topk_indices(&d, &s, 4), vec![3, 1, 2, 0]);
    assert_eq!(select_topk_indices(&d, &s, 2), vec![3, 1]);
}

#[test]
fn select_topk_orders_signed_zero_and_nan() {
    let d = bits(&[f32::NAN, 0.0, -0.0, -f32::NAN, f32::NEG_INFINITY]);
    let s = vec![0, 1, 2, 3, 4];
    assert_eq!(select_topk_indices(&d, &s, 5), vec![4, 2, 1, 0, 3]);
}

#[test]
fn select_topk_matches_sorting_on_a_larger_input() {
    let values: Vec<f32> = (0..500).map(|i| ((i * 37 % 101) as f32) - 50.0).collect();
    let d = bits(&values);
    let s: Vec<u64> = (0..500).map(|i| 1000 - i as u64).collect();
    let mut expected: Vec<usize> = (0..500).collect();
    expected.sort_by(|&a, &b| values[a].total_cmp(&values[b]).then(s[a].cmp(&s[b])));
    expected.truncate(40);
    assert_eq!(select_topk_indices(&d, &s, 40), expected);
}

#[test]
fn memory_bytes_exact_value() {
    let f = Footprint {
        vectors: StoreUse { capacity: 4, slot_bytes: 16 },
        ids: StoreUse { capacity: 4, slot_bytes: 24 },
        metadata: StoreUse { capacity: 5, slot_bytes: 8 },
        stamps: StoreUse { capacity: 6, slot_bytes: 8 },
        slot_map: StoreUse { capacity: 3, slot_bytes: 32 },
    };
    let payload = PayloadLayout { component_bytes: 4, header_bytes: 16 };
    // 3 rows * (2 * 4 + 16) + 64 + 96 + 40 + 48 + 96
    assert_eq!(memory_bytes(3, 2, payload, f), 72 + 64 + 96 + 40 + 48 + 96);
}

#[test]
fn memory_bytes_saturates() {
    let f = Footprint {
        vectors: StoreUse { capacity: usize::MAX, slot_bytes: 2 },
        ids: StoreUse { capacity: 0, slot_bytes: 0 },
        metadata: StoreUse { capacity: 0, slot_bytes: 0 },
        stamps: StoreUse { capacity: 0, slot_bytes: 0 },
        slot_map: StoreUse { capacity: 0, slot_bytes: 0 },
    };
    let payload = PayloadLayout { component_bytes: 4, header_bytes: 16 };
    assert_eq!(memory_bytes(1, 1, payload, f), usize::MAX);
}

#[test]
fn approximate_memory_counts_payloads_and_stores() {
    let mut idx = store(3, Metric::Euclidean);
    for id in 0..10 {
        add(&mut idx, id, &[1.0, 2.0, 3.0]);
    }
    let payload = PayloadLayout { component_bytes: 4, header_bytes: 16 };
    let payload_bytes = 10 * (3 * 4 + 16);
    let stores = 10
        * (std::mem::size_of::<Vec<f32>>()
            + std::mem::size_of::<VectorKey>()
            + std::mem::size_of::<u32>()
            + std::mem::size_of::<u64>());
    assert!(idx.approximate_memory_bytes(payload) >= payload_bytes + stores);
}

#[test]
fn every_error_variant_has_an_input() {
    assert_eq!(
        Store::new_unconfigured(0, Metric::Cosine).err(),
        Some(FlatError::InvalidConfig(ConfigIssue::ZeroDimension))
    );
    let mut idx = store(2, Metric::Cosine);
    assert_eq!(
        idx.insert(VectorKey::U64(1), vec![1.0], 1, 0),
        Err(FlatError::DimensionMismatch { expected: 2, found: 1 })
    );
    add(&mut idx, 1, &[1.0, 0.0]);
    assert_eq!(
        idx.insert(VectorKey::U64(1), vec![0.0, 1.0], 2, 0),
        Err(FlatError::Duplicate)
    );
    assert_eq!(idx.delete(&VectorKey::U64(2)), Err(FlatError::NotFound));
    assert_eq!(
        idx.check_search(2, Metric::Euclidean, 1),
        Err(FlatError::InvalidMetric)
    );
    assert_eq!(
        idx.check_search(3, Metric::Euclidean, 1),
        Err(FlatError::DimensionMismatch { expected: 2, found: 3 })
    );
}

#[test]
fn check_search_reports_whether_there_is_anything_to_rank() {
    let mut idx = store(1, Metric::Manhattan);
    assert_eq!(idx.check_search(1, Metric::Manhattan, 5), Ok(false));
    add(&mut idx, 1, &[0.0]);
    assert_eq!(idx.check_search(1, Metric::Manhattan, 0), Ok(false));
    assert_eq!(idx.check_search(1, Metric::Manhattan, 5), Ok(true));
}

#[test]
fn refused_insert_leaves_the_store_unchanged() {
    let mut idx = store(1, Metric::Euclidean);
    add(&mut idx, 1, &[0.0]);
    assert!(idx.insert(VectorKey::U64(1), vec![5.0], 1, 7).is_err());
    assert_eq!(idx.len(), 1);
    assert_eq!(idx.rows()[0], vec![0.0]);
    assert_eq!(*idx.metadata_at(0), 1);
}

#[test]
fn byte_and_integer_ids_live_side_by_side() {
    let mut idx = store(1, Metric::Euclidean);
    for i in 0..200u64 {
        idx.insert(VectorKey::Bytes(i.to_le_bytes().to_vec()), vec![i as f32], 1, 0)
            .unwrap();
        idx.insert(VectorKey::U64(i), vec![i as f32], 1, 1).unwrap();
    }
    assert_eq!(idx.len(), 400);
    assert_eq!(
        idx.insert(VectorKey::Bytes(7u64.to_le_bytes().to_vec()), vec![0.0], 1, 0),
        Err(FlatError::Duplicate)
    );
    for i in (0..200u64).step_by(3) {
        idx.delete(&VectorKey::Bytes(i.to_le_bytes().to_vec())).unwrap();
    }
    assert_eq!(
        idx.delete(&VectorKey::Bytes(3u64.to_le_bytes().to_vec())),
        Err(FlatError::NotFound)
    );
    assert_eq!(idx.delete(&VectorKey::U64(3)), Ok(()));
    assert_eq!(idx.len(), 400 - 67 - 1);
    assert_eq!(idx.delete(&VectorKey::Bytes(vec![])), Err(FlatError::NotFound));
}

#[test]
fn key_matches_compares_variant_and_contents() {
    assert!(VectorKey::U64(5).matches(&VectorKey::U64(5)));
    assert!(!VectorKey::U64(5).matches(&VectorKey::U64(6)));
    assert!(VectorKey::Bytes(vec![1, 2]).matches(&VectorKey::Bytes(vec![1, 2])));
    assert!(!VectorKey::Bytes(vec![1, 2]).matches(&VectorKey::Bytes(vec![1, 3])));
    assert!(!VectorKey::Bytes(vec![1]).matches(&VectorKey::Bytes(vec![1, 0])));
    assert!(!VectorKey::U64(0).matches(&VectorKey::Bytes(vec![0; 8])));
    assert_eq!(VectorKey::Bytes(vec![9]).duplicate(), VectorKey::Bytes(vec![9]));
}

#[test]
fn search_unfiltered_ranks_raw_bits() {
    let mut idx = store(1, Metric::Euclidean);
    add(&mut idx, 10, &[0.0]);
    add(&mut idx, 20, &[0.0]);
    add(&mut idx, 30, &[0.0]);
    let hits = idx.search_unfiltered(bits(&[2.0, 1.0, 1.0]), 2);
    assert_eq!(
        hits,
        vec![
            Scored { slot: 1, distance: 1.0_f32.to_bits() },
            Scored { slot: 2, distance: 1.0_f32.to_bits() },
        ]
    );
}

#[test]
fn dot_product_distances_are_negated() {
    let mut idx = store(1, Metric::DotProduct);
    add(&mut idx, 1, &[0.0]);
    add(&mut idx, 2, &[0.0]);
    let hits = idx.search_unfiltered(bits(&[1.0, 10.0]), 2);
    assert_eq!(hits[0], Scored { slot: 1, distance: (-10.0_f32).to_bits() });
    assert_eq!(hits[1], Scored { slot: 0, distance: (-1.0_f32).to_bits() });
}

#[test]
fn nan_inner_product_ranks_last() {
    let mut idx = store(1, Metric::DotProduct);
    add(&mut idx, 1, &[0.0]);
    add(&mut idx, 2, &[0.0]);
    let hits = idx.search_unfiltered(vec![0x7FC0_0000, 1.0_f32.to_bits()], 2);
    assert_eq!(hits[0], Scored { slot: 1, distance: (-1.0_f32).to_bits() });
    assert_eq!(hits[1], Scored { slot: 0, distance: 0xFFC0_0000 });
    let hits = idx.search_unfiltered(vec![0xFFC0_0000, f32::NEG_INFINITY.to_bits()], 2);
    assert_eq!(hits[0].slot, 1);
    assert_eq!(hits[1].slot, 0);
}

#[test]
fn search_excludes_deleted_and_reinsert_ranks_last() {
    let mut idx = store(1, Metric::Euclidean);
    for id in [1, 2, 3, 4] {
        add(&mut idx, id, &[0.0]);
    }
    idx.delete(&VectorKey::U64(2)).unwrap();
    let hits = idx.search_unfiltered(bits(&[1.0, 1.0, 1.0]), 10);
    assert_eq!(
        ids_of(&idx, &hits),
        vec![VectorKey::U64(1), VectorKey::U64(3), VectorKey::U64(4)]
    );
    add(&mut idx, 2, &[0.0]);
    let hits = idx.search_unfiltered(bits(&[1.0, 1.0, 1.0, 1.0]), 10);
    assert_eq!(
        ids_of(&idx, &hits),
        vec![VectorKey::U64(1), VectorKey::U64(3), VectorKey::U64(4), VectorKey::U64(2)]
    );
}

#[test]
fn delete_moves_only_the_last_row() {
    let mut idx = store(1, Metric::Euclidean);
    for id in [1, 2, 3, 4] {
        add(&mut idx, id, &[id as f32]);
    }
    idx.delete(&VectorKey::U64(2)).unwrap();
    assert_eq!(*idx.id_at(0), VectorKey::U64(1));
    assert_eq!(*idx.id_at(1), VectorKey::U64(4));
    assert_eq!(*idx.id_at(2), VectorKey::U64(3));
    assert_eq!(idx.rows()[1], vec![4.0]);
    assert_eq!(*idx.metadata_at(1), 4);
}

#[test]
fn accepted_slots_lists_the_mask_in_order() {
    let mut idx = store(1, Metric::Euclidean);
    for id in 0..5 {
        add(&mut idx, id, &[0.0]);
    }
    assert_eq!(
        idx.accepted_slots(&vec![true, false, true, true, false]),
        vec![0, 2, 3]
    );
    assert_eq!(idx.accepted_slots(&vec![false; 5]), Vec::<usize>::new());
}

#[test]
fn filtered_hits_come_from_accepted_slots_in_full_scan_order() {
    let mut idx = store(1, Metric::Euclidean);
    for id in 0..6 {
        add(&mut idx, id, &[0.0]);
    }
    let raw_all = bits(&[5.0, 4.0, 3.0, 2.0, 1.0, 0.0]);
    let full = idx.search_unfiltered(raw_all.clone(), 6);
    let accepted = idx.accepted_slots(&vec![true, false, true, false, true, false]);
    let raw: Vec<u32> = accepted.iter().map(|&s| raw_all[s]).collect();
    let filtered = idx.search_filtered(&accepted, raw, 2);
    assert_eq!(
        filtered,
        vec![
            Scored { slot: 4, distance: 1.0_f32.to_bits() },
            Scored { slot: 2, distance: 3.0_f32.to_bits() },
        ]
    );
    let order: Vec<usize> = full
        .iter()
        .map(|h| h.slot)
        .filter(|s| accepted.contains(s))
        .take(2)
        .collect();
    assert_eq!(order, vec![4, 2]);
}

#[test]
fn insert_batch_stops_at_the_first_refusal() {
    let mut idx = store(1, Metric::Euclidean);
    let items = vec![
        (VectorKey::U64(1), vec![0.0], 1, 0),
        (VectorKey::U64(1), vec![1.0], 1, 0),
        (VectorKey::U64(2), vec![2.0], 1, 0),
    ];
    assert_eq!(idx.insert_batch(items), Err(FlatError::Duplicate));
    assert_eq!(idx.len(), 1);
    let ok = vec![
        (VectorKey::U64(2), vec![2.0], 1, 0),
        (VectorKey::U64(3), vec![3.0], 1, 0),
    ];
    assert_eq!(idx.insert_batch(ok), Ok(()));
    assert_eq!(idx.len(), 3);
}

#[test]
fn flush_changes_nothing() {
    let mut idx = store(2, Metric::Hamming);
    add(&mut idx, 1, &[1.0, 1.0]);
    assert_eq!(idx.flush(), Ok(()));
    assert_eq!(idx.len(), 1);
    assert_eq!(idx.dim(), 2);
    assert_eq!(idx.metric(), Metric::Hamming);
    assert!(!idx.is_empty());
}

#[test]
fn total_order_key_sorts_like_total_cmp() {
    let mut by_key = SAMPLES.to_vec();
    by_key.sort_by_key(|v| total_order_key(v.to_bits()));
    let mut by_cmp = SAMPLES.to_vec();
    by_cmp.sort_by(|a, b| a.total_cmp(b));
    assert_eq!(bits(&by_key), bits(&by_cmp));
    assert_eq!(
        total_order_key(1.0_f32.to_bits()).cmp(&total_order_key(2.0_f32.to_bits())),
        Ordering::Less
    );
}

#[test]
fn insert_then_delete_restores_rows_and_ranking() {
    let mut idx = store(1, Metric::Euclidean);
    for id in [1, 2, 3] {
        add(&mut idx, id, &[id as f32]);
    }
    let before = ids_of(&idx, &idx.search_unfiltered(bits(&[1.0, 1.0, 1.0]), 3));
    add(&mut idx, 9, &[9.0]);
    idx.delete(&VectorKey::U64(9)).unwrap();
    assert_eq!(idx.len(), 3);
    for slot in 0..3 {
        assert_eq!(*idx.id_at(slot), VectorKey::U64(slot as u64 + 1));
        assert_eq!(idx.rows()[slot], vec![slot as f32 + 1.0]);
    }
    let after = ids_of(&idx, &idx.search_unfiltered(bits(&[1.0, 1.0, 1.0]), 3));
    assert_eq!(before, after);
}

#[test]
fn same_rows_by_different_histories_rank_alike() {
    let mut a = store(1, Metric::Euclidean);
    for id in [1, 2, 3] {
        add(&mut a, id, &[0.0]);
    }
    let mut b = store(1, Metric::Euclidean);
    add(&mut b, 7, &[0.0]);
    for id in [1, 2] {
        add(&mut b, id, &[0.0]);
    }
    b.delete(&VectorKey::U64(7)).unwrap();
    add(&mut b, 3, &[0.0]);
    let ha = a.search_unfiltered(vec![1.0_f32.to_bits(); 3], 3);
    let hb = b.search_unfiltered(vec![1.0_f32.to_bits(); 3], 3);
    assert_eq!(ids_of(&a, &ha), ids_of(&b, &hb));
    assert_eq!(
        ids_of(&a, &ha),
        vec![VectorKey::U64(1), VectorKey::U64(2), VectorKey::U64(3)]
    );
}

#[test]
fn accepted_batch_appends_every_item() {
    let mut idx = store(1, Metric::Euclidean);
    add(&mut idx, 1, &[1.0]);
    let items = vec![
        (VectorKey::U64(5), vec![5.0], 1, 50),
        (VectorKey::U64(6), vec![6.0], 1, 60),
    ];
    assert_eq!(idx.insert_batch(items), Ok(()));
    assert_eq!(idx.len(), 3);
    assert_eq!(*idx.id_at(1), VectorKey::U64(5));
    assert_eq!(*idx.id_at(2), VectorKey::U64(6));
    assert_eq!(*idx.metadata_at(2), 60);
}

#[test]
fn hits_never_repeat_an_id() {
    let mut idx = store(1, Metric::Euclidean);
    for id in 0..20 {
        add(&mut idx, id, &[0.0]);
    }
    let hits = idx.search_unfiltered(vec![0; 20], 20);
    let seen: Vec<VectorKey> = ids_of(&idx, &hits);
    assert_eq!(seen.len(), 20);
    for i in 0..seen.len() {
        for j in 0..i {
            assert_ne!(seen[i], seen[j]);
        }
    }
}

#[test]
fn len_counts_accepted_calls_over_a_history() {
    let mut idx = store(1, Metric::Euclidean);
    add(&mut idx, 1, &[0.0]);
    add(&mut idx, 2, &[0.0]);
    assert!(idx.insert(VectorKey::U64(2), vec![0.0], 1, 0).is_err());
    assert!(idx.delete(&VectorKey::U64(9)).is_err());
    idx.delete(&VectorKey::U64(1)).unwrap();
    let batch = vec![
        (VectorKey::U64(3), vec![0.0], 1, 0),
        (VectorKey::U64(4), vec![0.0], 1, 0),
        (VectorKey::U64(5), vec![0.0, 1.0], 2, 0),
        (VectorKey::U64(6), vec![0.0], 1, 0),
    ];
    assert_eq!(
        idx.insert_batch(batch),
        Err(FlatError::DimensionMismatch { expected: 1, found: 2 })
    );
    // 2 inserts - 1 delete + 2 batch items before the refusal.
    assert_eq!(idx.len(), 3);
}
