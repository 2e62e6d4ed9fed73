//! A read-through cache of the traced process's memory, one page at a time.
use std::collections::HashMap;
use vstd::prelude::*;

verus! {

broadcast use vstd::std_specs::hash::group_hash_axioms;

/// Bytes in one page of the traced process.
pub const PAGE_SIZE: usize = 4096;

/// The start of the page that holds address `a`.
pub open spec fn page_of(a: int) -> int {
    a - a % 4096
}

/// The position of address `a` inside its page.
pub open spec fn offset_of(a: int) -> int {
    a % 4096
}

/// The bytes `[addr, addr + len)` as the cached pages hold them.
pub open spec fn span_bytes(pages: Map<usize, Seq<u8>>, addr: int, len: nat) -> Seq<u8> {
    Seq::new(len, |i: int| pages[page_of(addr + i) as usize][offset_of(addr + i)])
}

/// Every page that holds a byte of `[addr, addr + len)` is cached.
pub open spec fn span_cached(pages: Map<usize, Seq<u8>>, addr: int, len: nat) -> bool {
    forall|i: int| 0 <= i < len ==> #[trigger] pages.contains_key(page_of(addr + i) as usize)
}

/// Every page that a read of `[addr, addr + len)` looks up is cached: the page
/// of `addr` and, where `addr + len` lies in a later page, that page too.
pub open spec fn touched_cached(pages: Map<usize, Seq<u8>>, addr: int, len: int) -> bool {
    &&& pages.contains_key(page_of(addr) as usize)
    &&& (page_of(addr + len) != page_of(addr) ==> pages.contains_key((page_of(addr) + 4096) as usize))
}

/// `addr + len` stays within the page after the one that holds `addr`,
/// so the span touches at most two pages.
pub open spec fn within_two_pages(addr: int, len: int) -> bool {
    addr + len < page_of(addr) + 2 * 4096
}

/// What every cached page is: page aligned and a whole page long.
pub open spec fn pages_wf(pages: Map<usize, Seq<u8>>) -> bool {
    forall|k: usize| #[trigger] pages.contains_key(k) ==> k % 4096 == 0 && pages[k].len() == 4096
}

/// `new` keeps every page of `old` unchanged.
pub open spec fn extends(old: Map<usize, Seq<u8>>, new: Map<usize, Seq<u8>>) -> bool {
    forall|k: usize| #[trigger] old.contains_key(k) ==> new.contains_key(k) && new[k] == old[k]
}

/// Where a read of `len` bytes from `a` is cut in two: at the start of the
/// next page where the read reaches it, else at its end.
pub open spec fn first_part(a: int, len: int) -> int {
    if page_of(a + len) != page_of(a) {
        page_of(a) + 4096 - a
    } else {
        len
    }
}

/// Every one of the `n` addresses from `a` on is readable.
pub open spec fn range_readable(readable: spec_fn(int) -> bool, a: int, n: int) -> bool {
    forall|i: int| 0 <= i < n ==> #[trigger] readable(a + i)
}

/// The `n` bytes of `memory` from address `a` on.
pub open spec fn memory_bytes(memory: spec_fn(int) -> u8, a: int, n: nat) -> Seq<u8> {
    Seq::new(n, |i: int| memory(a + i))
}

/// Reads memory of the traced process.
pub trait MemReader {
    /// The traced process's memory as this reader sees it: the byte at each
    /// address. A reader that does not give it reads some memory left unnamed.
    closed spec fn memory(&self) -> spec_fn(int) -> u8 {
        vstd::pervasive::arbitrary()
    }

    /// The addresses that this reader can read. A reader that does not give
    /// them can read some addresses left unnamed.
    closed spec fn readable(&self) -> spec_fn(int) -> bool {
        vstd::pervasive::arbitrary()
    }

    /// The reads asked of this reader so far, in order: their addresses and
    /// lengths. A reader that does not give them keeps a log left unnamed.
    closed spec fn requests(&self) -> Seq<(int, nat)> {
        vstd::pervasive::arbitrary()
    }

    /// Fills `buf` with the bytes from `addr` on and returns how many it read.
    /// It reads them all exactly when every one of them is readable, and then
    /// `buf` holds them. Reading changes neither the memory nor what is
    /// readable, and adds this read to the requests.
    fn read_memory(&mut self, buf: &mut [u8], addr: u64) -> (r: usize)
        ensures
            final(buf)@.len() == old(buf)@.len(),
            final(self).memory() == old(self).memory(),
            final(self).readable() == old(self).readable(),
            final(self).requests() == old(self).requests().push((addr as int, old(buf)@.len())),
            (r == old(buf)@.len()) == range_readable(old(self).readable(), addr as int, old(buf)@.len() as int),
            r == old(buf)@.len() ==> final(buf)@ == memory_bytes(old(self).memory(), addr as int, old(buf)@.len()),
    ;
}

/// Caches whole pages of the traced process, read through a [`MemReader`].
/// Reads in the page `last_page` (page 0, which nothing changes) are served
/// from `last_content`, a copy of the page that was last read whole.
pub struct MemCacher<R: MemReader> {
    cache_lst: HashMap<usize, Vec<u8>>,
    last_page: usize,
    last_content: Option<Vec<u8>>,
    f: Option<R>,
}

pub proof fn lemma_mask_u64(x: u64)
    ensures
        x & !0xfffu64 == x - x % 4096,
        x & 0xfffu64 == x % 4096,
{
    assert(x & !0xfffu64 == x - x % 4096) by (bit_vector);
    assert(x & 0xfffu64 == x % 4096) by (bit_vector);
}

pub proof fn lemma_mask_usize(x: usize)
    ensures
        x & !0xfffusize == x - x % 4096,
        x & 0xfffusize == x % 4096,
{
    assert(x & !0xfffusize == x - x % 4096) by (bit_vector);
    assert(x & 0xfffusize == x % 4096) by (bit_vector);
}

impl<R: MemReader> MemCacher<R> {
    /// The cached pages, by page start address.
    pub closed spec fn pages(&self) -> Map<usize, Seq<u8>> {
        Map::new(|k: usize| self.cache_lst@.contains_key(k), |k: usize| self.cache_lst@[k]@)
    }

    /// Whether a reader is installed.
    pub closed spec fn has_reader(&self) -> bool {
        self.f is Some
    }

    /// The page that was last read whole through the reader, if any.
    pub closed spec fn last_fetched(&self) -> Option<Seq<u8>> {
        match self.last_content {
            Some(v) => Some(v@),
            None => None,
        }
    }

    /// The cache's internal invariant.
    pub closed spec fn wf(&self) -> bool {
        &&& pages_wf(self.pages())
        &&& !self.pages().contains_key(0)
        &&& self.last_page == 0
        &&& (self.last_content matches Some(v) ==> v@.len() == 4096)
    }

    /// The reads asked of the installed reader so far.
    pub closed spec fn requests(&self) -> Seq<(int, nat)> {
        self.f->0.requests()
    }

    /// The memory that the installed reader sees.
    pub closed spec fn memory(&self) -> spec_fn(int) -> u8 {
        self.f->0.memory()
    }

    /// The addresses that the installed reader can read.
    pub closed spec fn readable(&self) -> spec_fn(int) -> bool {
        self.f->0.readable()
    }

    /// Every cached page holds what the reader sees at its addresses.
    pub open spec fn faithful(&self) -> bool {
        &&& self.has_reader()
        &&& forall|k: usize, i: int|
            #![trigger self.pages()[k][i]]
            self.pages().contains_key(k) && 0 <= i < 4096 ==> self.pages()[k][i] == (self.memory())(k + i)
    }

    /// Whether a read in the page of `a`, with the pages `pages` cached, fetches
    /// that page and caches it: it is not cached and the reader can read all of it.
    pub open spec fn page_fetched(&self, pages: Map<usize, Seq<u8>>, a: int) -> bool {
        &&& page_of(a) != 0
        &&& !pages.contains_key(page_of(a) as usize)
        &&& self.has_reader()
        &&& range_readable(self.readable(), page_of(a), 4096)
    }

    /// The pages cached after a read in the page of `a`, from `pages`.
    pub open spec fn pages_after(&self, pages: Map<usize, Seq<u8>>, a: int) -> Map<usize, Seq<u8>> {
        if self.page_fetched(pages, a) {
            pages.insert(page_of(a) as usize, memory_bytes(self.memory(), page_of(a), 4096))
        } else {
            pages
        }
    }

    /// The last page read whole after a read in the page of `a` from `pages`,
    /// where `prev` was that page before.
    pub open spec fn last_after(&self, pages: Map<usize, Seq<u8>>, a: int, prev: Option<Seq<u8>>) -> Option<
        Seq<u8>,
    > {
        if self.page_fetched(pages, a) {
            Some(memory_bytes(self.memory(), page_of(a), 4096))
        } else {
            prev
        }
    }

    /// The reads asked of the reader by a read of the `n` bytes from `a`, all in
    /// the page of `a`, with the pages `pages` cached: none in page 0, in a
    /// cached page or without a reader; otherwise the whole page, and where the
    /// reader cannot read all of it, then those bytes.
    pub open spec fn part_requests(&self, pages: Map<usize, Seq<u8>>, a: int, n: int) -> Seq<(int, nat)> {
        if page_of(a) == 0 || pages.contains_key(page_of(a) as usize) || !self.has_reader() {
            Seq::empty()
        } else if range_readable(self.readable(), page_of(a), 4096) {
            seq![(page_of(a), 4096nat)]
        } else {
            seq![(page_of(a), 4096nat), (a, n as nat)]
        }
    }

    /// Whether a read of the `n` bytes from `a`, all in the page of `a`, with the
    /// pages `pages` cached, gives them: page 0 always does (from the last page
    /// read whole); another page does where it is cached, or the reader can
    /// read the whole page or at least those bytes.
    pub open spec fn part_served(&self, pages: Map<usize, Seq<u8>>, a: int, n: int) -> bool {
        page_of(a) == 0 || pages.contains_key(page_of(a) as usize) || (self.has_reader() && (
        range_readable(self.readable(), page_of(a), 4096) || range_readable(self.readable(), a, n)))
    }

    /// The byte at `a` as a read finds it, with the pages `pages` cached: in
    /// page 0, the byte at the same offset of the last page read whole; else
    /// from the cached page, or else from the reader's memory.
    pub open spec fn byte_seen(&self, pages: Map<usize, Seq<u8>>, a: int) -> u8 {
        if page_of(a) == 0 {
            self.last_fetched()->0[offset_of(a)]
        } else if pages.contains_key(page_of(a) as usize) {
            pages[page_of(a) as usize][offset_of(a)]
        } else {
            (self.memory())(a)
        }
    }

    /// The pages cached after a read of `len` bytes from `a`: the page of `a`
    /// is fetched where it needs to be, and then, where the read reaches the
    /// next page, that page too.
    pub open spec fn pages_after_read(&self, a: int, len: int) -> Map<usize, Seq<u8>> {
        let p1 = self.pages_after(self.pages(), a);
        if page_of(a + len) != page_of(a) {
            self.pages_after(p1, a + first_part(a, len))
        } else {
            p1
        }
    }

    /// The last page read whole after a read of `len` bytes from `a`.
    pub open spec fn last_after_read(&self, a: int, len: int) -> Option<Seq<u8>> {
        let l1 = self.last_after(self.pages(), a, self.last_fetched());
        if page_of(a + len) != page_of(a) {
            self.last_after(self.pages_after(self.pages(), a), a + first_part(a, len), l1)
        } else {
            l1
        }
    }

    /// The reads asked of the reader by a read of `len` bytes from `a`: those
    /// of the part in the page of `a`, then those of the part in the next page.
    pub open spec fn read_requests(&self, a: int, len: int) -> Seq<(int, nat)> {
        let first = first_part(a, len);
        let q1 = self.part_requests(self.pages(), a, first);
        if page_of(a + len) != page_of(a) {
            q1 + self.part_requests(self.pages_after(self.pages(), a), a + first, len - first)
        } else {
            q1
        }
    }

    /// Whether byte `i` of a read of `len` bytes from `a` is given: the part of
    /// the read in its page is served.
    pub open spec fn served_at(&self, a: int, len: int, i: int) -> bool {
        if i < first_part(a, len) {
            self.part_served(self.pages(), a, first_part(a, len))
        } else {
            self.part_served(self.pages(), a + first_part(a, len), len - first_part(a, len))
        }
    }

    /// How many bytes a read of `len` bytes from `a` gives: those of each part
    /// of the read (in the page of `a`, and in the next page) that is served.
    pub open spec fn read_count(&self, a: int, len: int) -> int {
        let first = first_part(a, len);
        (if self.part_served(self.pages(), a, first) {
            first
        } else {
            0
        }) + (if page_of(a + len) != page_of(a) && self.part_served(self.pages(), a + first, len - first) {
            len - first
        } else {
            0
        })
    }

    /// An empty cache with no reader.
    pub fn new() -> (c: Self)
        ensures
            c.wf(),
            c.pages() == Map::<usize, Seq<u8>>::empty(),
            c.last_fetched() is None,
            !c.has_reader(),
    {
        let c = MemCacher { cache_lst: HashMap::new(), last_page: 0, last_content: None, f: None };
        assert(c.pages() =~= Map::<usize, Seq<u8>>::empty());
        c
    }

    /// Installs the reader that fetches pages that are not cached yet.
    pub fn set_reader(&mut self, reader: R)
        requires
            old(self).wf(),
        ensures
            final(self).wf(),
            final(self).pages() == old(self).pages(),
            final(self).last_fetched() == old(self).last_fetched(),
            final(self).has_reader(),
            final(self).memory() == reader.memory(),
            final(self).readable() == reader.readable(),
            final(self).requests() == reader.requests(),
    {
        self.f = Some(reader);
    }

    /// The installed reader.
    pub fn reader(&self) -> (r: Option<&R>)
        ensures
            r is Some <==> self.has_reader(),
            r matches Some(f) ==> f.memory() == self.memory() && f.readable() == self.readable()
                && f.requests() == self.requests(),
    {
        self.f.as_ref()
    }

    /// Whether a page was read whole yet, from which reads in page 0 are served.
    pub fn has_fetched_page(&self) -> (r: bool)
        ensures
            r == self.last_fetched() is Some,
    {
        self.last_content.is_some()
    }

    /// Copies `rst.len()` bytes of the page `content` from the offset of `addr`.
    fn get_content_in_cache_item(&self, content: &Vec<u8>, addr: u64, rst: &mut [u8]) -> (r: usize)
        requires
            content@.len() == 4096,
            offset_of(addr as int) + old(rst)@.len() <= 4096,
        ensures
            r == old(rst)@.len(),
            final(rst)@ == content@.subrange(offset_of(addr as int), offset_of(addr as int) + r),
    {
        proof {
            lemma_mask_u64(addr);
        }
        let begin: usize = (addr & 0xfff) as usize;
        let n: usize = rst.len();
        let mut i: usize = 0;
        while i < n
            invariant
                n == rst@.len(),
                begin == offset_of(addr as int),
                begin + n <= 4096,
                content@.len() == 4096,
                i <= n,
                forall|j: int| 0 <= j < i ==> rst@[j] == content@[begin + j],
            decreases n - i,
        {
            rst[i] = content[begin + i];
            i = i + 1;
        }
        assert(rst@ =~= content@.subrange(begin as int, begin + n));
        n
    }

    /// Copies into `rst` the bytes from `addr` on, all in the page of `addr`: in
    /// page 0, from the page last read whole; else from the cache where the page
    /// is cached; otherwise the page is read whole and cached, and where that
    /// fails, the bytes are read directly.
    fn get_content_in_one_page(&mut self, rst: &mut [u8], addr: u64) -> (r: usize)
        requires
            old(self).wf(),
            offset_of(addr as int) + old(rst)@.len() <= 4096,
            addr <= usize::MAX,
            page_of(addr as int) == 0 ==> old(self).last_fetched() is Some,
        ensures
            final(self).wf(),
            final(self).has_reader() == old(self).has_reader(),
            final(self).memory() == old(self).memory(),
            final(self).readable() == old(self).readable(),
            final(self).pages() == old(self).pages_after(old(self).pages(), addr as int),
            final(self).last_fetched() == old(self).last_after(old(self).pages(), addr as int, old(self).last_fetched()),
            final(self).requests() == old(self).requests() + old(self).part_requests(
                old(self).pages(),
                addr as int,
                old(rst)@.len() as int,
            ),
            page_of(addr as int) == 0 ==> *final(self) == *old(self),
            extends(old(self).pages(), final(self).pages()),
            forall|k: usize| #[trigger] final(self).pages().contains_key(k) ==>
                old(self).pages().contains_key(k) || k == page_of(addr as int),
            old(self).pages().contains_key(page_of(addr as int) as usize) ==> final(self).pages()
                == old(self).pages() && *final(self) == *old(self),
            !old(self).has_reader() ==> final(self).pages() == old(self).pages(),
            final(self).pages().contains_key(page_of(addr as int) as usize) ==> r == old(rst)@.len()
                && final(rst)@ == final(self).pages()[page_of(addr as int) as usize].subrange(
                offset_of(addr as int),
                offset_of(addr as int) + old(rst)@.len(),
            ),
            r == (if old(self).part_served(old(self).pages(), addr as int, old(rst)@.len() as int) {
                old(rst)@.len()
            } else {
                0
            }),
            old(self).part_served(old(self).pages(), addr as int, old(rst)@.len() as int) ==> forall|i: int|
                0 <= i < old(rst)@.len() ==> #[trigger] final(rst)@[i] == old(self).byte_seen(
                    old(self).pages(),
                    addr + i,
                ),
            final(rst)@.len() == old(rst)@.len(),
            page_of(addr as int) != 0 && !old(self).has_reader() && !old(self).pages().contains_key(
                page_of(addr as int) as usize,
            ) ==> r == 0 && final(rst)@ == old(rst)@,
    {
        proof {
            lemma_mask_u64(addr);
        }
        let p: usize = (addr & !0xfff) as usize;
        assert(p == page_of(addr as int));
        if self.last_page == p {
            if let Some(content) = &self.last_content {
                return self.get_content_in_cache_item(content, addr, rst);
            }
        }
        let hit = match self.cache_lst.get(&p) {
            Some(content) => Some({
                assert(self.pages().contains_key(p));
                self.get_content_in_cache_item(content, addr, rst)
            }),
            None => None,
        };
        if let Some(r) = hit {
            return r;
        }
        let fetched = match &mut self.f {
            Some(f) => {
                let mut tmp_buff: Vec<u8> = vec![0u8; 4096];
                let r: usize = f.read_memory(tmp_buff.as_mut_slice(), p as u64);
                if r != 4096 || tmp_buff.len() != 4096 {
                    let len: usize = rst.len();
                    let r2: usize = f.read_memory(rst, addr);
                    if r2 != len {
                        Err(0usize)
                    } else {
                        Err(r2)
                    }
                } else {
                    Ok(tmp_buff)
                }
            },
            None => Err(0usize),
        };
        match fetched {
            Err(r) => r,
            Ok(page) => {
                let r: usize = self.get_content_in_cache_item(&page, addr, rst);
                let copy = page.clone();
                self.cache_lst.insert(p, page);
                self.last_content = Some(copy);
                assert(self.pages() =~= old(self).pages().insert(p, self.last_fetched()->0));
                r
            },
        }
    }

    /// Copies into `rst` the `rst.len()` bytes of the traced process that start at
    /// `addr`, which may span two pages. Bytes in page 0 come from the same
    /// offsets of the page last read whole (so one must have been read). A page
    /// that is cached is read from the cache; one that is not is read whole
    /// through the reader and cached, and where that fails, the bytes of that
    /// page are read directly (not cached). The reader is asked for exactly
    /// those reads, in that order.
    /// With no reader, a page that is not cached gives nothing and leaves its
    /// part of `rst` as it is. Returns the number of bytes copied. Where every
    /// cached page holds the reader's memory, so does the cache afterwards, and
    /// a read that copies every byte gives that memory.
    pub fn get_content(&mut self, rst: &mut [u8], addr: u64) -> (r: usize)
        requires
            old(self).wf(),
            addr + old(rst)@.len() <= usize::MAX,
            within_two_pages(addr as int, old(rst)@.len() as int),
            page_of(addr as int) == 0 ==> old(self).last_fetched() is Some,
        ensures
            final(self).wf(),
            final(self).has_reader() == old(self).has_reader(),
            r <= old(rst)@.len(),
            extends(old(self).pages(), final(self).pages()),
            forall|k: usize| #[trigger] final(self).pages().contains_key(k) ==>
                old(self).pages().contains_key(k) || k == page_of(addr as int) || k == page_of(
                addr as int,
            ) + 4096,
            touched_cached(old(self).pages(), addr as int, old(rst)@.len() as int) ==> *final(self)
                == *old(self) && r == old(rst)@.len() && final(rst)@ == span_bytes(
                old(self).pages(),
                addr as int,
                old(rst)@.len(),
            ),
            span_cached(final(self).pages(), addr as int, old(rst)@.len()) ==> r == old(rst)@.len()
                && final(rst)@ == span_bytes(final(self).pages(), addr as int, old(rst)@.len()),
            !old(self).has_reader() ==> final(self).pages() == old(self).pages(),
            final(self).memory() == old(self).memory(),
            final(self).readable() == old(self).readable(),
            final(self).pages() == old(self).pages_after_read(addr as int, old(rst)@.len() as int),
            final(self).last_fetched() == old(self).last_after_read(addr as int, old(rst)@.len() as int),
            final(self).requests() == old(self).requests() + old(self).read_requests(
                addr as int,
                old(rst)@.len() as int,
            ),
            r == old(self).read_count(addr as int, old(rst)@.len() as int),
            final(rst)@.len() == old(rst)@.len(),
            forall|i: int|
                0 <= i < old(rst)@.len() && old(self).served_at(addr as int, old(rst)@.len() as int, i)
                    ==> #[trigger] final(rst)@[i] == old(self).byte_seen(old(self).pages(), addr + i),
            !old(self).has_reader() ==> forall|i: int|
                0 <= i < old(rst)@.len() && !old(self).served_at(addr as int, old(rst)@.len() as int, i)
                    ==> #[trigger] final(rst)@[i] == old(rst)@[i],
            old(self).faithful() ==> final(self).faithful(),
            old(self).faithful() && page_of(addr as int) != 0 && r == old(rst)@.len() ==> final(rst)@
                == memory_bytes(
                old(self).memory(),
                addr as int,
                old(rst)@.len(),
            ),
    {
        proof {
            lemma_mask_u64(addr);
            lemma_mask_usize((addr as usize + rst@.len()) as usize);
        }
        let len: usize = rst.len();
        let start_addr: usize = (addr & !0xfff) as usize;
        let end_addr: usize = (addr as usize + len) & !0xfff;
        if start_addr == end_addr {
            let r: usize = self.get_content_in_one_page(rst, addr);
            proof {
                assert forall|i: int| 0 <= i < len implies #[trigger] page_of(addr + i) == start_addr
                    && offset_of(addr + i) == offset_of(addr as int) + i by {
                    lemma_same_page(addr as int, i, len as int);
                }
                if len > 0 && span_cached(final(self).pages(), addr as int, len as nat) {
                    assert(page_of(addr + 0) == start_addr);
                    assert(final(self).pages().contains_key(page_of(addr + 0) as usize));
                }
                if final(self).pages().contains_key(start_addr) {
                    let sb = span_bytes(final(self).pages(), addr as int, len as nat);
                    assert forall|i: int| 0 <= i < len implies final(rst)@[i] == sb[i] by {
                        assert(page_of(addr + i) == start_addr);
                    }
                    assert(final(rst)@ =~= sb);
                }
                if len == 0 {
                    assert(final(rst)@ =~= span_bytes(final(self).pages(), addr as int, len as nat));
                    assert(final(rst)@ =~= span_bytes(old(self).pages(), addr as int, len as nat));
                }
            }
            r
        } else {
            let first_page_size: usize = end_addr - addr as usize;
            proof {
                lemma_two_pages(addr as int, len as int, first_page_size as int);
            }
            let ghost p1: usize = start_addr;
            let ghost p2: usize = (start_addr + 4096) as usize;
            let ghost off: int = offset_of(addr as int);
            let (a, b) = rst.split_at_mut(first_page_size);
            let ghost a0 = a@;
            let ghost b0 = b@;
            let r1: usize = self.get_content_in_one_page(a, addr);
            let ghost mid = self.pages();
            let addr2: u64 = addr + first_page_size as u64;
            assert(page_of(addr2 as int) == p2 && offset_of(addr2 as int) == 0);
            let r2: usize = self.get_content_in_one_page(b, addr2);
            proof {
                let fin = final(self).pages();
                let old_p = old(self).pages();
                assert forall|k: usize| #[trigger] old_p.contains_key(k) implies fin.contains_key(k)
                    && fin[k] == old_p[k] by {
                    assert(mid.contains_key(k));
                }
                assert forall|k: usize| #[trigger] fin.contains_key(k) implies old_p.contains_key(k)
                    || k == page_of(addr as int) || k == page_of(addr as int) + 4096 by {
                    if !mid.contains_key(k) {
                        assert(k == page_of(addr2 as int));
                    }
                }
                if span_cached(fin, addr as int, len as nat) {
                    assert(page_of(addr + 0) == p1);
                    assert(fin.contains_key(page_of(addr + 0) as usize));
                    assert(mid.contains_key(p1));
                    if len > first_page_size {
                        assert(page_of(addr + first_page_size) == p2);
                        assert(fin.contains_key(page_of(addr + first_page_size) as usize));
                    } else {
                        assert(final(b)@ =~= Seq::<u8>::empty());
                    }
                    assert(final(rst)@ =~= span_bytes(fin, addr as int, len as nat));
                }
                if touched_cached(old_p, addr as int, len as int) {
                    assert(old_p.contains_key(p2));
                    assert forall|i: int| 0 <= i < len implies #[trigger] fin.contains_key(
                        page_of(addr + i) as usize,
                    ) by {
                        if i < first_page_size {
                            assert(page_of(addr + i) == p1);
                        } else {
                            assert(page_of(addr + i) == p2);
                        }
                    }
                    assert(fin == old_p);
                }
            }
            r1 + r2
        }
    }
}

/// A page is fetched once: after a read of `n1` bytes from `a1` that fetched
/// the page of `a1`, every later read within that page (with the cache by then
/// holding at least the pages that read left) asks nothing of the reader and
/// is served from the cache.
pub proof fn lemma_page_fetched_once<R: MemReader>(
    c1: MemCacher<R>,
    c2: MemCacher<R>,
    a1: int,
    n1: int,
    a2: int,
    n2: int,
)
    requires
        0 <= a1,
        0 <= n1,
        offset_of(a1) + n1 < 4096,
        0 <= a2,
        0 <= n2,
        offset_of(a2) + n2 < 4096,
        page_of(a2) == page_of(a1),
        c1.page_fetched(c1.pages(), a1),
        extends(c1.pages_after_read(a1, n1), c2.pages()),
    ensures
        c2.read_requests(a2, n2) == Seq::<(int, nat)>::empty(),
        c2.part_served(c2.pages(), a2, n2),
        c2.pages().contains_key(page_of(a2) as usize),
{
    lemma_page_parts(a1);
    lemma_page_parts(a2);
    lemma_in_page(page_of(a1), a1 + n1);
    lemma_in_page(page_of(a2), a2 + n2);
    assert(c1.pages_after_read(a1, n1).contains_key(page_of(a1) as usize));
}

/// Within the page that starts at `p`, page and offset are what they seem.
pub proof fn lemma_in_page(p: int, y: int)
    requires
        p % 4096 == 0,
        p <= y < p + 4096,
    ensures
        page_of(y) == p,
        offset_of(y) == y - p,
{
}

/// An address is its page plus its offset: the page is a multiple of 4096 and
/// the offset lies below 4096, and these are the only such parts.
pub proof fn lemma_page_parts(a: int)
    requires
        0 <= a,
    ensures
        page_of(a) % 4096 == 0,
        0 <= offset_of(a) < 4096,
        page_of(a) + offset_of(a) == a,
        page_of(a) <= a < page_of(a) + 4096,
        page_of(a) >= 0,
        forall|p: int, o: int| #![trigger p + o] p % 4096 == 0 && 0 <= o < 4096 && p + o == a ==> p == page_of(a)
            && o == offset_of(a),
{
    assert forall|p: int, o: int| #![trigger p + o] p % 4096 == 0 && 0 <= o < 4096 && p + o == a implies p
        == page_of(a) && o == offset_of(a) by {
        lemma_in_page(p, a);
    }
}

/// Keeping every page unchanged is transitive.
pub proof fn lemma_extends_trans(a: Map<usize, Seq<u8>>, b: Map<usize, Seq<u8>>, c: Map<usize, Seq<u8>>)
    requires
        extends(a, b),
        extends(b, c),
    ensures
        extends(a, c),
{
}

/// A cached span reads the same for ever: once every page of `[addr, addr +
/// len)` is cached, the cache after any later reads (which keep every cached
/// page unchanged) still holds the span, with the same bytes.
pub proof fn lemma_cached_span_stays(p1: Map<usize, Seq<u8>>, p2: Map<usize, Seq<u8>>, addr: int, len: nat)
    requires
        span_cached(p1, addr, len),
        extends(p1, p2),
    ensures
        span_cached(p2, addr, len),
        span_bytes(p2, addr, len) == span_bytes(p1, addr, len),
{
    assert forall|i: int| 0 <= i < len implies #[trigger] p2.contains_key(page_of(addr + i) as usize) by {
        assert(p1.contains_key(page_of(addr + i) as usize));
    }
    assert forall|i: int| 0 <= i < len implies span_bytes(p2, addr, len)[i] == span_bytes(p1, addr, len)[i] by {
        assert(p1.contains_key(page_of(addr + i) as usize));
    }
    assert(span_bytes(p2, addr, len) =~= span_bytes(p1, addr, len));
}

proof fn lemma_same_page(addr: int, i: int, len: int)
    requires
        0 <= addr,
        0 <= i < len,
        page_of(addr) == page_of(addr + len),
    ensures
        page_of(addr + i) == page_of(addr),
        offset_of(addr + i) == offset_of(addr) + i,
{
    lemma_page_parts(addr);
    lemma_page_parts(addr + len);
    lemma_in_page(page_of(addr), addr + i);
}

proof fn lemma_two_pages(addr: int, len: int, first: int)
    requires
        0 <= addr,
        0 <= len,
        first == page_of(addr + len) - addr,
        page_of(addr) != page_of(addr + len),
        addr + len < page_of(addr) + 2 * 4096,
    ensures
        first == 4096 - offset_of(addr),
        0 < first <= len,
        page_of(addr + first) == page_of(addr) + 4096,
        offset_of(addr + first) == 0,
        forall|i: int| 0 <= i < first ==> #[trigger] page_of(addr + i) == page_of(addr)
            && offset_of(addr + i) == offset_of(addr) + i,
        forall|i: int| first <= i < len ==> #[trigger] page_of(addr + i) == page_of(addr) + 4096
            && offset_of(addr + i) == i - first,
{
    lemma_page_parts(addr);
    lemma_page_parts(addr + len);
    let p: int = page_of(addr);
    assert(page_of(addr + len) == p + 4096) by {
        if addr + len < p + 4096 {
            lemma_in_page(p, addr + len);
        } else {
            lemma_in_page(p + 4096, addr + len);
        }
    }
    lemma_in_page(p + 4096, addr + first);
    assert forall|i: int| 0 <= i < first implies #[trigger] page_of(addr + i) == page_of(addr)
        && offset_of(addr + i) == offset_of(addr) + i by {
        lemma_in_page(p, addr + i);
    }
    assert forall|i: int| first <= i < len implies #[trigger] page_of(addr + i) == page_of(addr)
        + 4096 && offset_of(addr + i) == i - first by {
        lemma_in_page(p + 4096, addr + i);
    }
}


} // verus!
