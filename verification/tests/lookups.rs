use ai_pow_zk::composite_lookups::{
    all_buses, blake3_cv_query_count, blake3_msg_mat_query_count, cv_out_freq,
    matmul_noised_packed_query_count, noised_packed_freq, BUS_CV_ROUTING, BUS_I8U8, BUS_IRANGE7P1,
    BUS_IRANGE8, BUS_NOISED_PACKED, BUS_STARK_ROW_IDX, BUS_URANGE13, BUS_URANGE8,
};

#[test]
fn all_buses_are_pairwise_unique() {
    let mut seen = std::collections::HashSet::new();
    for bus in all_buses() {
        assert!(seen.insert(bus), "duplicate bus name {bus:?}");
    }
    assert_eq!(seen.len(), 8);
}

#[test]
fn noised_packed_freq_pure_function() {
    assert_eq!(noised_packed_freq(0, 0), 0);
    assert_eq!(noised_packed_freq(3, 5), 8);
    assert_eq!(noised_packed_freq(u32::MAX - 1, 1), u32::MAX);
}

#[test]
fn cv_out_freq_pure_function() {
    assert_eq!(cv_out_freq(0), 0);
    assert_eq!(cv_out_freq(42), 42);
}

#[test]
fn blake3_cv_query_count_returns_1_when_either_flag_set() {
    assert_eq!(blake3_cv_query_count(false, false), 0);
    assert_eq!(blake3_cv_query_count(true, false), 1);
    assert_eq!(blake3_cv_query_count(false, true), 1);
    assert_eq!(blake3_cv_query_count(true, true), 1);
}

#[test]
fn matmul_noised_packed_query_count_fn() {
    assert_eq!(matmul_noised_packed_query_count(false), 0);
    assert_eq!(matmul_noised_packed_query_count(true), 2);
}

#[test]
fn blake3_msg_mat_query_count_fn() {
    assert_eq!(blake3_msg_mat_query_count(false), 0);
    assert_eq!(blake3_msg_mat_query_count(true), 1);
}
#[test]
fn all_buses_count_matches_design() {
    assert_eq!(all_buses().len(), 8);
}
#[test]
fn cv_routing_multi_hash_balance_simulation() {
    assert_eq!(cv_out_freq(1), 1);
    let q_b = blake3_cv_query_count(true, false);
    assert_eq!(q_b, 1);
    let table = cv_out_freq(1) as i32;
    let queries = q_b as i32;
    assert_eq!(table - queries, 0);
}
#[test]
fn noised_packed_multi_querier_balance() {
    let n_matmul = 3;
    let n_msg = 5;
    let table = noised_packed_freq(n_matmul, n_msg);
    let queries = n_matmul + n_msg;
    assert_eq!(table, queries);
}

#[test]
fn bus_name_strings_match_documentation() {
    assert_eq!(BUS_URANGE8, "urange8");
    assert_eq!(BUS_URANGE13, "urange13");
    assert_eq!(BUS_IRANGE7P1, "irange7p1");
    assert_eq!(BUS_IRANGE8, "irange8");
    assert_eq!(BUS_I8U8, "i8u8");
    assert_eq!(BUS_NOISED_PACKED, "noised_packed");
    assert_eq!(BUS_CV_ROUTING, "cv_routing");
    assert_eq!(BUS_STARK_ROW_IDX, "stark_row_idx");
}
