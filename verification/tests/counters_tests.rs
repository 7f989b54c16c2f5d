use dagviz::counters::{
    get_all_counts, get_bk_count, get_cross_count, get_init_order_count, get_order_count, get_position_count,
    get_rank_count, increment_bk, increment_cross_count, increment_init_order, increment_order, increment_position,
    increment_rank, reset_counters, Counters,
};

#[test]
fn counters_count_each_phase() {
    let mut c = Counters::new();
    assert_eq!(get_all_counts(&c), (0, 0, 0, 0, 0, 0));
    increment_rank(&mut c);
    increment_rank(&mut c);
    increment_order(&mut c);
    increment_position(&mut c);
    increment_cross_count(&mut c);
    increment_cross_count(&mut c);
    increment_cross_count(&mut c);
    increment_init_order(&mut c);
    increment_bk(&mut c);
    assert_eq!(get_rank_count(&c), 2);
    assert_eq!(get_order_count(&c), 1);
    assert_eq!(get_position_count(&c), 1);
    assert_eq!(get_cross_count(&c), 3);
    assert_eq!(get_init_order_count(&c), 1);
    assert_eq!(get_bk_count(&c), 1);
    assert_eq!(get_all_counts(&c), (2, 1, 1, 3, 1, 1));
    reset_counters(&mut c);
    assert_eq!(get_all_counts(&c), (0, 0, 0, 0, 0, 0));
}
