use ptkgenerator::mem_cacher::{MemCacher, MemReader};

/// Memory whose byte at `a` is `a % 251`, readable in `[lo, hi)`; counts reads.
struct FakeMemory {
    lo: u64,
    hi: u64,
    reads: usize,
    calls: Vec<(u64, usize)>,
}

impl MemReader for FakeMemory {
    fn read_memory(&mut self, buf: &mut [u8], addr: u64) -> usize {
        self.reads += 1;
        self.calls.push((addr, buf.len()));
        if addr < self.lo || addr + buf.len() as u64 > self.hi {
            return 0;
        }
        for (i, b) in buf.iter_mut().enumerate() {
            *b = ((addr + i as u64) % 251) as u8;
        }
        buf.len()
    }
}

fn expected(addr: u64, len: usize) -> Vec<u8> {
    (0..len).map(|i| ((addr + i as u64) % 251) as u8).collect()
}

fn cacher(lo: u64, hi: u64) -> MemCacher<FakeMemory> {
    let mut c = MemCacher::new();
    c.set_reader(FakeMemory { lo, hi, reads: 0, calls: Vec::new() });
    c
}

#[test]
fn read_in_one_page_is_cached() {
    let mut c = cacher(0, u64::MAX);
    let mut buf = vec![0u8; 16];
    assert_eq!(c.get_content(&mut buf, 0x401010), 16);
    assert_eq!(buf, expected(0x401010, 16));
    assert_eq!(c.reader().unwrap().reads, 1);
    let mut again = vec![0u8; 8];
    assert_eq!(c.get_content(&mut again, 0x401ff0), 8);
    assert_eq!(again, expected(0x401ff0, 8));
    assert_eq!(c.reader().unwrap().reads, 1);
}

#[test]
fn read_across_two_pages() {
    let mut c = cacher(0, u64::MAX);
    let mut buf = vec![0u8; 32];
    assert_eq!(c.get_content(&mut buf, 0x401ff0), 32);
    assert_eq!(buf, expected(0x401ff0, 32));
}

#[test]
fn read_ending_at_page_boundary() {
    let mut c = cacher(0, u64::MAX);
    let mut buf = vec![0u8; 16];
    assert_eq!(c.get_content(&mut buf, 0x1ff0), 16);
    assert_eq!(buf, expected(0x1ff0, 16));
}

#[test]
fn read_without_reader_gives_nothing() {
    let mut c: MemCacher<FakeMemory> = MemCacher::new();
    let mut buf = vec![7u8; 4];
    assert_eq!(c.get_content(&mut buf, 0x1000), 0);
    assert_eq!(buf, vec![7u8; 4]);
}

#[test]
fn failed_page_read_falls_back_to_direct_read() {
    let mut c = cacher(0x1200, 0x1300);
    let mut buf = vec![0u8; 4];
    assert_eq!(c.get_content(&mut buf, 0x1234), 4);
    assert_eq!(buf, expected(0x1234, 4));
    assert_eq!(c.get_content(&mut buf, 0x1234), 4);
    assert_eq!(c.reader().unwrap().reads, 4);
}

#[test]
fn failed_reads_give_zero() {
    let mut c = cacher(0, 0);
    let mut buf = vec![0u8; 4];
    assert_eq!(c.get_content(&mut buf, 0x1234), 0);
}

#[test]
fn page_zero_is_served_from_last_fetched_page() {
    let mut c = cacher(0, u64::MAX);
    assert!(!c.has_fetched_page());
    let mut other = vec![0u8; 4];
    assert_eq!(c.get_content(&mut other, 0x5000), 4);
    assert!(c.has_fetched_page());
    let mut buf = vec![0u8; 4];
    assert_eq!(c.get_content(&mut buf, 0x10), 4);
    assert_eq!(buf, expected(0x5010, 4));
    assert_eq!(c.reader().unwrap().calls, vec![(0x5000, 4096)]);
    let mut next = vec![0u8; 4];
    assert_eq!(c.get_content(&mut next, 0x7000), 4);
    assert_eq!(c.get_content(&mut buf, 0x10), 4);
    assert_eq!(buf, expected(0x7010, 4));
}

#[test]
fn two_page_read_gives_both_halves() {
    let mut c = cacher(0, u64::MAX);
    let mut buf = vec![0u8; 8];
    assert_eq!(c.get_content(&mut buf, 0x1ffc), 8);
    assert_eq!(buf, expected(0x1ffc, 8));
    assert_eq!(c.reader().unwrap().calls, vec![(0x1000, 4096), (0x2000, 4096)]);
}

#[test]
fn page_is_fetched_once_then_served_from_cache() {
    let mut c = cacher(0, u64::MAX);
    let mut a = vec![0u8; 4];
    let mut b = vec![0u8; 6];
    assert_eq!(c.get_content(&mut a, 0x3010), 4);
    assert_eq!(c.get_content(&mut b, 0x3800), 6);
    assert_eq!(b, expected(0x3800, 6));
    assert_eq!(c.reader().unwrap().calls, vec![(0x3000, 4096)]);
}

#[test]
fn unreadable_page_is_read_directly_and_not_cached() {
    let mut c = cacher(0x1200, 0x1300);
    let mut buf = vec![0u8; 4];
    assert_eq!(c.get_content(&mut buf, 0x1234), 4);
    assert_eq!(c.reader().unwrap().calls, vec![(0x1000, 4096), (0x1234, 4)]);
    let mut outside = vec![9u8; 4];
    assert_eq!(c.get_content(&mut outside, 0x1400), 0);
}
