use ptkgenerator::post_proc::{can_merge_pages, can_merge_sparse_pages, empty_page, exec_count_at, executed_addresses, merge_pages, merge_sparse_pages, page_base, page_offset, record_exec, record_execs, to_sparse_pages, InsInfo, PageCounts};
use std::collections::HashMap;

fn count(m: &HashMap<usize, PageCounts>, a: usize) -> usize {
    exec_count_at(m, a)
}

#[test]
fn page_arithmetic() {
    assert_eq!(page_base(0x401234), 0x401000);
    assert_eq!(page_offset(0x401234), 0x234);
    assert_eq!(page_base(0xfff), 0);
    assert_eq!(page_offset(0x1000), 0);
}

#[test]
fn record_counts_one_address() {
    let mut m = HashMap::new();
    record_exec(&mut m, 0x401234);
    record_exec(&mut m, 0x401234);
    record_exec(&mut m, 0x401235);
    assert_eq!(count(&m, 0x401234), 2);
    assert_eq!(count(&m, 0x401235), 1);
    assert_eq!(count(&m, 0x401236), 0);
    assert_eq!(m.len(), 1);
}

#[test]
fn record_batch_counts_occurrences() {
    let mut m = HashMap::new();
    record_execs(&mut m, &vec![0x10, 0x2000, 0x10, 0x10]);
    assert_eq!(count(&m, 0x10), 3);
    assert_eq!(count(&m, 0x2000), 1);
    assert_eq!(m.len(), 2);
}

#[test]
fn merge_adds_counts() {
    let mut a = HashMap::new();
    record_execs(&mut a, &vec![0x10, 0x10, 0x3000]);
    let mut b = HashMap::new();
    record_execs(&mut b, &vec![0x10, 0x5000]);
    assert!(can_merge_pages(&a, &b));
    merge_pages(&mut a, &b);
    assert_eq!(count(&a, 0x10), 3);
    assert_eq!(count(&a, 0x3000), 1);
    assert_eq!(count(&a, 0x5000), 1);
}

#[test]
fn merge_order_does_not_matter() {
    let mut x = HashMap::new();
    record_execs(&mut x, &vec![1, 2, 3]);
    let mut y = HashMap::new();
    record_execs(&mut y, &vec![3, 0x9000]);
    let mut d1 = HashMap::new();
    merge_pages(&mut d1, &x);
    merge_pages(&mut d1, &y);
    let mut d2 = HashMap::new();
    merge_pages(&mut d2, &y);
    merge_pages(&mut d2, &x);
    for a in [1usize, 2, 3, 4, 0x9000] {
        assert_eq!(count(&d1, a), count(&d2, a));
    }
    assert_eq!(count(&d1, 3), 2);
}

#[test]
fn merge_overflow_is_detected() {
    let mut a = HashMap::new();
    let mut page = empty_page();
    page[5].exec_cnt = usize::MAX;
    a.insert(0x1000usize, page);
    let mut b = HashMap::new();
    record_exec(&mut b, 0x1005);
    assert!(!can_merge_pages(&a, &b));
    let mut c = HashMap::new();
    record_exec(&mut c, 0x1006);
    assert!(can_merge_pages(&a, &c));
}

#[test]
fn sparse_round_trip_merges_like_dense() {
    let mut x = HashMap::new();
    record_execs(&mut x, &vec![0x10, 0x10, 0x7ff, 0x4000]);
    let sparse = to_sparse_pages(&x);
    assert_eq!(sparse.len(), 2);
    assert_eq!(sparse[&0].len(), 2);
    assert_eq!(sparse[&0][&0x10].exec_cnt, 2);
    let mut d1 = HashMap::new();
    record_exec(&mut d1, 0x10);
    let mut d2 = d1.clone();
    assert!(can_merge_sparse_pages(&d1, &sparse));
    merge_sparse_pages(&mut d1, &sparse);
    merge_pages(&mut d2, &x);
    for a in [0x10usize, 0x7ff, 0x4000, 0x11] {
        assert_eq!(count(&d1, a), count(&d2, a));
    }
    assert_eq!(count(&d1, 0x10), 3);
}

#[test]
fn sparse_merge_creates_missing_pages() {
    let mut inner = HashMap::new();
    inner.insert(8u16, InsInfo { exec_cnt: 10 });
    let mut rsp = HashMap::new();
    rsp.insert(0x400000usize, inner);
    let mut d = HashMap::new();
    merge_sparse_pages(&mut d, &rsp);
    assert_eq!(count(&d, 0x400008), 10);
    merge_sparse_pages(&mut d, &rsp);
    assert_eq!(count(&d, 0x400008), 20);
}

#[test]
fn sparse_offset_outside_page_is_refused() {
    let mut inner = HashMap::new();
    inner.insert(4096u16, InsInfo { exec_cnt: 1 });
    let mut rsp = HashMap::new();
    rsp.insert(0usize, inner);
    let d = HashMap::new();
    assert!(!can_merge_sparse_pages(&d, &rsp));
}

#[test]
fn executed_addresses_lists_each_once() {
    let mut m = HashMap::new();
    record_execs(&mut m, &vec![0x10, 0x10, 0x2fff, 0x9000]);
    let mut r = executed_addresses(&m);
    r.sort();
    assert_eq!(r, vec![(0x10, 2), (0x2fff, 1), (0x9000, 1)]);
}

#[test]
fn default_ins_info_is_zero() {
    let i = InsInfo::default();
    assert_eq!(i.exec_cnt, 0);
}
