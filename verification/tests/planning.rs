use goo::planning::{
    cap_goo_encode_workers_for_mask_bytes, choose_goo_encode_queue_depth,
    choose_goo_encode_threads, parse_usize,
};

const MIB: usize = 1024 * 1024;

#[test]
fn numbers_parse_as_std_does() {
    for s in [
        "", "+", "-", "0", "7", "+7", "-7", "007", "12a", " 12", "12 ", "1_000", "++1", "٣",
        "4294967296", "18446744073709551615", "18446744073709551616", "99999999999999999999999",
    ] {
        assert_eq!(parse_usize(s), s.parse::<usize>().ok(), "{s}");
    }
}

#[test]
fn threads_stay_within_the_machine() {
    assert_eq!(choose_goo_encode_threads(8, None), 8);
    assert_eq!(choose_goo_encode_threads(8, Some("3")), 3);
    assert_eq!(choose_goo_encode_threads(8, Some("30")), 8);
    assert_eq!(choose_goo_encode_threads(8, Some("0")), 8);
    assert_eq!(choose_goo_encode_threads(8, Some("many")), 8);
    assert_eq!(choose_goo_encode_threads(1, Some("5")), 1);
}

#[test]
fn workers_are_capped_by_mask_size() {
    let cap = |requested, pixels| cap_goo_encode_workers_for_mask_bytes(requested, pixels, None);
    assert_eq!(cap(16, 12 * MIB - 1), 16);
    assert_eq!(cap(16, 12 * MIB), 8);
    assert_eq!(cap(16, 24 * MIB), 4);
    assert_eq!(cap(16, 48 * MIB), 2);
    assert_eq!(cap(1, 48 * MIB), 1);
    assert_eq!(cap(0, 10), 1);
}

#[test]
fn workers_are_capped_by_the_budget() {
    let cap = |requested, pixels, budget| {
        cap_goo_encode_workers_for_mask_bytes(requested, pixels, Some(budget))
    };
    assert_eq!(cap(16, 32 * MIB, "128"), 4);
    assert_eq!(cap(3, 32 * MIB, "128"), 3);
    // A single mask that is more than the budget still gets a worker.
    assert_eq!(cap(16, 100 * MIB, "64"), 1);
    // Less than 64 megabytes, or no number, is no budget.
    assert_eq!(cap(16, 48 * MIB, "63"), 2);
    assert_eq!(cap(16, 48 * MIB, "lots"), 2);
    assert_eq!(cap(16, 0, "64"), 16);
    assert_eq!(cap(16, 48 * MIB, "18446744073709551615"), 16);
}

#[test]
fn waiting_masks_are_limited() {
    let depth = |workers, pixels| choose_goo_encode_queue_depth(workers, pixels, None);
    assert_eq!(depth(4, 10), 12);
    assert_eq!(depth(0, 10), 3);
    assert_eq!(depth(100, 10), 24);
    assert_eq!(depth(4, 12 * MIB), 3);
    assert_eq!(depth(4, 24 * MIB), 2);
    assert_eq!(depth(4, 48 * MIB), 1);
    let within = |workers, pixels| choose_goo_encode_queue_depth(workers, pixels, Some("128"));
    assert_eq!(within(8, 32 * MIB), 4);
    assert_eq!(within(1, 32 * MIB), 2);
    assert_eq!(within(0, 32 * MIB), 1);
    assert_eq!(within(8, 500 * MIB), 1);
}
