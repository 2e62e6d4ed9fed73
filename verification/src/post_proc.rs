//! Execution counts per instruction address, kept per page of 4096 addresses.
use std::collections::HashMap;
use vstd::prelude::*;
use crate::mem_cacher::{page_of, offset_of, lemma_mask_usize, lemma_in_page};
use vstd::std_specs::iter::IteratorSpec;
use vstd::std_specs::hash::spec_hash_map_iter;

verus! {

broadcast use vstd::std_specs::hash::group_hash_axioms;

/// How often the instruction at one address was executed.
#[derive(Clone, Copy, Debug, PartialEq, Eq, Structural)]
pub struct InsInfo {
    pub exec_cnt: usize,
}

impl Default for InsInfo {
    fn default() -> (r: Self)
        ensures
            r.exec_cnt == 0,
    {
        InsInfo { exec_cnt: 0 }
    }
}

/// The counts of one page, indexed by the offset inside the page.
pub type PageCounts = [InsInfo; 4096];

/// How often the instruction at address `a` was executed, according to `m`
/// (pages by start address; an absent page counts zero).
pub open spec fn exec_count(m: Map<usize, PageCounts>, a: int) -> int {
    let p: usize = page_of(a) as usize;
    if m.contains_key(p) {
        m[p]@[offset_of(a)].exec_cnt as int
    } else {
        0
    }
}

/// The pages `a` and `b` added offset by offset.
pub open spec fn add_pages(a: PageCounts, b: PageCounts) -> Seq<InsInfo> {
    Seq::new(4096, |i: int| InsInfo { exec_cnt: (a@[i].exec_cnt + b@[i].exec_cnt) as usize })
}

/// Adding the pages of `src` to those of `dst` overflows no count.
pub open spec fn merge_fits(dst: Map<usize, PageCounts>, src: Map<usize, PageCounts>) -> bool {
    forall|k: usize, i: int|
        #![trigger dst[k]@[i], src[k]@[i]]
        dst.contains_key(k) && src.contains_key(k) && 0 <= i < 4096 ==> dst[k]@[i].exec_cnt
            + src[k]@[i].exec_cnt <= usize::MAX
}

/// The page that merging `src` into `dst` leaves under key `k`.
pub open spec fn merged_page(dst: Map<usize, PageCounts>, src: Map<usize, PageCounts>, k: usize) -> Seq<
    InsInfo,
> {
    if src.contains_key(k) {
        if dst.contains_key(k) {
            add_pages(dst[k], src[k])
        } else {
            src[k]@
        }
    } else {
        dst[k]@
    }
}

/// `m` is `dst` with the pages of `src` merged in.
pub open spec fn is_merge(
    m: Map<usize, PageCounts>,
    dst: Map<usize, PageCounts>,
    src: Map<usize, PageCounts>,
) -> bool {
    &&& forall|k: usize| #[trigger] m.contains_key(k) <==> dst.contains_key(k) || src.contains_key(k)
    &&& forall|k: usize| #[trigger] m.contains_key(k) ==> m[k]@ == merged_page(dst, src, k)
}

/// The start address of the page that holds `addr`.
pub fn page_base(addr: usize) -> (r: usize)
    ensures
        r == page_of(addr as int),
{
    proof {
        lemma_mask_usize(addr);
    }
    addr & !0xfff
}

/// The offset of `addr` inside its page.
pub fn page_offset(addr: usize) -> (r: usize)
    ensures
        r == offset_of(addr as int),
        r < 4096,
{
    proof {
        lemma_mask_usize(addr);
    }
    addr & 0xfff
}

/// A page with every count zero.
pub fn empty_page() -> (r: PageCounts)
    ensures
        forall|i: int| 0 <= i < 4096 ==> #[trigger] r@[i].exec_cnt == 0,
{
    [InsInfo { exec_cnt: 0 }; 4096]
}

/// Counts one more execution of the instruction at `addr`.
pub fn record_exec(data: &mut HashMap<usize, PageCounts>, addr: usize)
    requires
        exec_count(old(data)@, addr as int) < usize::MAX,
    ensures
        forall|a: int|
            0 <= a <= usize::MAX ==> #[trigger] exec_count(final(data)@, a) == exec_count(
                old(data)@,
                a,
            ) + if a == addr {
            1int
        } else {
            0int
        },
        final(data)@.dom() == old(data)@.dom().insert(page_of(addr as int) as usize),
{
    let off: usize = page_offset(addr);
    let page: usize = page_base(addr);
    let mut it = match data.get(&page) {
        Some(it) => *it,
        None => empty_page(),
    };
    let mut cur = it[off];
    cur.exec_cnt = cur.exec_cnt + 1;
    it[off] = cur;
    data.insert(page, it);
    proof {
        assert forall|a: int|
            0 <= a <= usize::MAX implies #[trigger] exec_count(data@, a) == exec_count(
                old(data)@,
                a,
            ) + if a == addr {
            1int
        } else {
            0int
        } by {
            if page_of(a) == page && a != addr {
                lemma_same_page_offsets(a, addr as int);
            }
        }
        assert(data@.dom() =~= old(data)@.dom().insert(page));
    }
}

/// How many times `a` occurs in `s`.
pub open spec fn occurrences(s: Seq<usize>, a: int) -> int
    decreases s.len(),
{
    if s.len() == 0 {
        0
    } else {
        occurrences(s.drop_last(), a) + if s.last() == a {
            1int
        } else {
            0int
        }
    }
}

/// Counts one execution of each instruction address in `ips`, in order.
pub fn record_execs(data: &mut HashMap<usize, PageCounts>, ips: &Vec<usize>)
    requires
        forall|a: int|
            0 <= a <= usize::MAX ==> #[trigger] exec_count(old(data)@, a) + occurrences(ips@, a)
                <= usize::MAX,
    ensures
        forall|a: int|
            0 <= a <= usize::MAX ==> #[trigger] exec_count(final(data)@, a) == exec_count(
                old(data)@,
                a,
            ) + occurrences(ips@, a),
{
    let ghost d0 = data@;
    let mut i: usize = 0;
    while i < ips.len()
        invariant
            i <= ips.len(),
            forall|a: int|
                0 <= a <= usize::MAX ==> #[trigger] exec_count(d0, a) + occurrences(ips@, a)
                    <= usize::MAX,
            forall|a: int|
                0 <= a <= usize::MAX ==> #[trigger] exec_count(data@, a) == exec_count(d0, a)
                    + occurrences(ips@.take(i as int), a),
        decreases ips.len() - i,
    {
        let ip: usize = ips[i];
        proof {
            assert(ips@.take(i + 1).drop_last() =~= ips@.take(i as int));
            lemma_occurrences_prefix(ips@, i + 1, ip as int);
            assert(exec_count(data@, ip as int) < usize::MAX);
        }
        record_exec(data, ip);
        proof {
            assert forall|a: int| 0 <= a <= usize::MAX implies #[trigger] exec_count(data@, a)
                == exec_count(d0, a) + occurrences(ips@.take(i + 1), a) by {
                assert(ips@.take(i + 1).drop_last() =~= ips@.take(i as int));
            }
        }
        i = i + 1;
    }
    assert(ips@.take(i as int) =~= ips@);
}

/// `occurrences` is the plain count: the number of entries of `s` equal to `a`.
pub proof fn lemma_occurrences_counts(s: Seq<usize>, a: int)
    ensures
        occurrences(s, a) == s.filter(|x: usize| x as int == a).len(),
    decreases s.len(),
{
    reveal(Seq::filter);
    if s.len() > 0 {
        lemma_occurrences_counts(s.drop_last(), a);
    }
}

/// A prefix holds no more occurrences than the whole.
pub proof fn lemma_occurrences_prefix(s: Seq<usize>, n: int, a: int)
    requires
        0 <= n <= s.len(),
    ensures
        occurrences(s.take(n), a) <= occurrences(s, a),
        occurrences(s, a) >= 0,
    decreases s.len(),
{
    if s.len() > 0 {
        if n == s.len() {
            assert(s.take(n) =~= s);
            lemma_occurrences_prefix(s.drop_last(), 0, a);
        } else {
            assert(s.take(n) =~= s.drop_last().take(n));
            lemma_occurrences_prefix(s.drop_last(), n, a);
        }
    }
}

/// Whether some of the first `n` entries of `s` has key `k`.
pub open spec fn seen_key<K, V>(s: Seq<(&K, &V)>, n: int, k: K) -> bool {
    exists|j: int| 0 <= j < n && *(#[trigger] s[j]).0 == k
}

/// Adds the counts of page `b` to those of page `a`.
pub fn add_page(a: &PageCounts, b: &PageCounts) -> (r: PageCounts)
    requires
        forall|i: int| 0 <= i < 4096 ==> #[trigger] a@[i].exec_cnt + b@[i].exec_cnt <= usize::MAX,
    ensures
        r@ == add_pages(*a, *b),
{
    let mut r = *a;
    let mut i: usize = 0;
    while i < 4096
        invariant
            i <= 4096,
            forall|j: int| 0 <= j < 4096 ==> #[trigger] a@[j].exec_cnt + b@[j].exec_cnt <= usize::MAX,
            forall|j: int| 0 <= j < i ==> #[trigger] r@[j] == add_pages(*a, *b)[j],
            forall|j: int| i <= j < 4096 ==> #[trigger] r@[j] == a@[j],
        decreases 4096 - i,
    {
        let mut cur = r[i];
        cur.exec_cnt = cur.exec_cnt + b[i].exec_cnt;
        r[i] = cur;
        i = i + 1;
    }
    assert(r@ =~= add_pages(*a, *b));
    r
}

/// Merges the pages of `src` into `dst`: a page that both hold gets the sum of
/// the counts, a page that only `src` holds is copied.
pub fn merge_pages(dst: &mut HashMap<usize, PageCounts>, src: &HashMap<usize, PageCounts>)
    requires
        merge_fits(old(dst)@, src@),
    ensures
        is_merge(final(dst)@, old(dst)@, src@),
        forall|a: int|
            0 <= a <= usize::MAX ==> #[trigger] exec_count(final(dst)@, a) == exec_count(old(dst)@, a)
                + exec_count(src@, a),
{
    let ghost d0 = dst@;
    proof {
        lemma_iter_covers_keys(src);
    }
    for (page, insn) in it: src.iter()
        invariant
            merge_fits(d0, src@),
            it.seq() == spec_hash_map_iter(src).remaining(),
            it.seq().no_duplicates(),
            forall|k: usize| #[trigger] src@.contains_key(k) ==> seen_key(
                it.seq(),
                it.seq().len() as int,
                k,
            ),
            forall|j: int| 0 <= j < it.seq().len() ==> #[trigger] src@.contains_key(
                *it.seq()[j].0,
            ) && src@[*it.seq()[j].0] == *it.seq()[j].1,
            forall|k: usize| #[trigger]
                dst@.contains_key(k) ==> d0.contains_key(k) || src@.contains_key(k),
            forall|k: usize|
                #![trigger dst@.contains_key(k)]
                #![trigger d0.contains_key(k)]
                !src@.contains_key(k) ==> (dst@.contains_key(k) <==> d0.contains_key(k)) && (
                d0.contains_key(k) ==> dst@[k] == d0[k]),
            forall|j: int|
                0 <= j < it.index() ==> dst@.contains_key(*(#[trigger] it.seq()[j]).0) && dst@[*it.seq()[j].0]@
                    == merged_page(d0, src@, *it.seq()[j].0),
            forall|j: int|
                it.index() <= j < it.seq().len() ==> (dst@.contains_key(*(#[trigger] it.seq()[j]).0)
                    <==> d0.contains_key(*it.seq()[j].0)) && (d0.contains_key(*it.seq()[j].0)
                    ==> dst@[*it.seq()[j].0] == d0[*it.seq()[j].0]),
    {
        let k: usize = *page;
        let next = match dst.get(&k) {
            Some(p) => {
                proof {
                    assert forall|i: int| 0 <= i < 4096 implies #[trigger] p@[i].exec_cnt
                        + insn@[i].exec_cnt <= usize::MAX by {
                        assert(d0[k]@[i] == p@[i]);
                        assert(src@[k]@[i] == insn@[i]);
                    }
                }
                add_page(p, insn)
            },
            None => *insn,
        };
        dst.insert(k, next);
    }
}

/// Every key of `m` occurs among the entries that iterating `m` yields.
pub proof fn lemma_iter_covers_keys<K, V>(m: &HashMap<K, V>)
    ensures
        forall|k: K| #[trigger] m@.contains_key(k) ==> seen_key(
            spec_hash_map_iter(m).remaining(),
            spec_hash_map_iter(m).remaining().len() as int,
            k,
        ),
        forall|j: int| 0 <= j < spec_hash_map_iter(m).remaining().len() ==> #[trigger] m@.contains_key(
            *spec_hash_map_iter(m).remaining()[j].0,
        ) && m@[*spec_hash_map_iter(m).remaining()[j].0] == *spec_hash_map_iter(m).remaining()[j].1,
{
    assert forall|k: K| #[trigger] m@.contains_key(k) implies seen_key(
        spec_hash_map_iter(m).remaining(),
        spec_hash_map_iter(m).remaining().len() as int,
        k,
    ) by {
        let s = spec_hash_map_iter(m).remaining();
        assert(s.contains((&k, &m@[k])));
        let j: int = choose|j: int| 0 <= j < s.len() && s[j] == (&k, &m@[k]);
        assert(*s[j].0 == k);
    }
}

/// A sparse page (offset to counts) as a whole page; absent offsets count zero.
pub open spec fn densify(m: Map<u16, InsInfo>) -> Seq<InsInfo> {
    Seq::new(
        4096,
        |i: int|
            if m.contains_key(i as u16) {
                m[i as u16]
            } else {
                InsInfo { exec_cnt: 0 }
            },
    )
}

/// Every offset of the sparse page `m` lies inside a page.
pub open spec fn offsets_in_page(m: Map<u16, InsInfo>) -> bool {
    forall|k: u16| #[trigger] m.contains_key(k) ==> k < 4096
}

/// The sparse page of the counts in `p` that are not zero.
pub open spec fn sparsify(p: Seq<InsInfo>) -> Map<u16, InsInfo> {
    Map::new(|k: u16| k < 4096 && p[k as int].exec_cnt > 0, |k: u16| p[k as int])
}

/// The sums `a[i] + b[i]`.
pub open spec fn add_seqs(a: Seq<InsInfo>, b: Seq<InsInfo>) -> Seq<InsInfo> {
    Seq::new(4096, |i: int| InsInfo { exec_cnt: (a[i].exec_cnt + b[i].exec_cnt) as usize })
}

/// Adding the sparse pages of `src` to the pages of `dst` overflows no count,
/// and every offset of `src` lies inside a page.
pub open spec fn sparse_merge_fits(dst: Map<usize, PageCounts>, src: Map<usize, Map<u16, InsInfo>>) -> bool {
    &&& forall|k: usize| #[trigger] src.contains_key(k) ==> offsets_in_page(src[k])
    &&& forall|k: usize, i: int|
        #![trigger dst[k]@[i], src[k]]
        dst.contains_key(k) && src.contains_key(k) && 0 <= i < 4096 ==> dst[k]@[i].exec_cnt
            + densify(src[k])[i].exec_cnt <= usize::MAX
}

/// The page that merging the sparse pages `src` into `dst` leaves under key `k`.
pub open spec fn merged_sparse_page(
    dst: Map<usize, PageCounts>,
    src: Map<usize, Map<u16, InsInfo>>,
    k: usize,
) -> Seq<InsInfo> {
    if src.contains_key(k) {
        if dst.contains_key(k) {
            add_seqs(dst[k]@, densify(src[k]))
        } else {
            densify(src[k])
        }
    } else {
        dst[k]@
    }
}

/// `m` is `dst` with the sparse pages of `src` merged in.
pub open spec fn is_sparse_merge(
    m: Map<usize, PageCounts>,
    dst: Map<usize, PageCounts>,
    src: Map<usize, Map<u16, InsInfo>>,
) -> bool {
    &&& forall|k: usize| #[trigger] m.contains_key(k) <==> dst.contains_key(k) || src.contains_key(k)
    &&& forall|k: usize| #[trigger] m.contains_key(k) ==> m[k]@ == merged_sparse_page(dst, src, k)
}

/// Adds the counts of the sparse page `m` to those of `base`.
pub fn add_sparse_page(base: &PageCounts, m: &HashMap<u16, InsInfo>) -> (r: PageCounts)
    requires
        offsets_in_page(m@),
        forall|i: int| 0 <= i < 4096 ==> #[trigger] base@[i].exec_cnt + densify(m@)[i].exec_cnt <= usize::MAX,
    ensures
        r@ == add_seqs(base@, densify(m@)),
{
    let mut r = *base;
    proof {
        lemma_iter_covers_keys(m);
    }
    for (off, cur) in it: m.iter()
        invariant
            offsets_in_page(m@),
            forall|i: int| 0 <= i < 4096 ==> #[trigger] base@[i].exec_cnt + densify(m@)[i].exec_cnt <= usize::MAX,
            it.seq() == spec_hash_map_iter(m).remaining(),
            it.seq().no_duplicates(),
            forall|k: u16| #[trigger] m@.contains_key(k) ==> seen_key(it.seq(), it.seq().len() as int, k),
            forall|j: int| 0 <= j < it.seq().len() ==> #[trigger] m@.contains_key(*it.seq()[j].0)
                && m@[*it.seq()[j].0] == *it.seq()[j].1,
            forall|j: int| 0 <= j < it.index() ==> #[trigger] it.seq()[j] == it.history()[j],
            forall|j: int| 0 <= j < it.index() ==> m@.contains_key(*(#[trigger] it.history()[j]).0)
                && m@[*it.history()[j].0] == *it.history()[j].1
                && r@[*it.history()[j].0 as int].exec_cnt == base@[*it.history()[j].0 as int].exec_cnt
                + it.history()[j].1.exec_cnt,
            forall|k: u16| #[trigger] m@.contains_key(k) && !seen_key(it.history(), it.index(), k)
                ==> r@[k as int] == base@[k as int],
            forall|i: int| 0 <= i < 4096 && !m@.contains_key(i as u16) ==> #[trigger] r@[i] == base@[i],
    {
        let ghost h = it.history();
        let ghost idx: int = it.index();
        let i: usize = *off as usize;
        proof {
            assert(m@.contains_key(*off));
            assert(m@[*off] == *cur);
            assert(densify(m@)[i as int] == *cur);
            assert forall|j: int| 0 <= j < idx implies *(#[trigger] h[j]).0 != *off by {
                if *h[j].0 == *off {
                    assert(*h[j].1 == *cur);
                    assert(h[j] == (off, cur));
                }
            }
            if seen_key(h, idx, *off) {
                let j: int = choose|j: int| 0 <= j < idx && *(#[trigger] h[j]).0 == *off;
                assert(*h[j].0 != *off);
            }
        }
        let mut x = r[i];
        x.exec_cnt = x.exec_cnt + cur.exec_cnt;
        r[i] = x;
        proof {
            let h2 = h.push((off, cur));
            assert(*h2[idx as int].0 == *off);
            assert(seen_key(h2, idx + 1, *off));
            assert forall|kk: u16| #[trigger] seen_key(h2, idx + 1, kk) implies seen_key(h, idx, kk)
                || kk == *off by {
                if seen_key(h2, idx + 1, kk) && kk != *off {
                    let j: int = choose|j: int| 0 <= j < idx + 1 && *(#[trigger] h2[j]).0 == kk;
                    assert(h2[j] == h[j]);
                }
            }
            assert forall|kk: u16| seen_key(h, idx, kk) implies #[trigger] seen_key(h2, idx + 1, kk) by {
                let j: int = choose|j: int| 0 <= j < idx && *(#[trigger] h[j]).0 == kk;
                assert(h2[j] == h[j]);
            }
        }
    }
    proof {
        assert forall|i: int| 0 <= i < 4096 implies #[trigger] r@[i] == add_seqs(base@, densify(m@))[i] by {
            if m@.contains_key(i as u16) {
                assert(seen_key(
                    spec_hash_map_iter(m).remaining(),
                    spec_hash_map_iter(m).remaining().len() as int,
                    i as u16,
                ));
                assert(densify(m@)[i] == m@[i as u16]);
            }
        }
        assert(r@ =~= add_seqs(base@, densify(m@)));
    }
    r
}

/// Merges the sparse pages of `src` into `dst`, adding the counts of each
/// offset; a page that only `src` holds starts from zero counts.
pub fn merge_sparse_pages(
    dst: &mut HashMap<usize, PageCounts>,
    src: &HashMap<usize, HashMap<u16, InsInfo>>,
)
    requires
        sparse_merge_fits(old(dst)@, src@.map_values(|v: HashMap<u16, InsInfo>| v@)),
    ensures
        is_sparse_merge(final(dst)@, old(dst)@, src@.map_values(|v: HashMap<u16, InsInfo>| v@)),
        forall|a: int|
            0 <= a <= usize::MAX ==> #[trigger] exec_count(final(dst)@, a) == exec_count(old(dst)@, a)
                + sparse_count(src@.map_values(|v: HashMap<u16, InsInfo>| v@), a),
{
    let ghost d0 = dst@;
    let ghost sv = src@.map_values(|v: HashMap<u16, InsInfo>| v@);
    proof {
        lemma_iter_covers_keys(src);
    }
    for (page, insn) in it: src.iter()
        invariant
            sv == src@.map_values(|v: HashMap<u16, InsInfo>| v@),
            sparse_merge_fits(d0, sv),
            it.seq() == spec_hash_map_iter(src).remaining(),
            it.seq().no_duplicates(),
            forall|k: usize| #[trigger] src@.contains_key(k) ==> seen_key(
                it.seq(),
                it.seq().len() as int,
                k,
            ),
            forall|j: int| 0 <= j < it.seq().len() ==> #[trigger] src@.contains_key(
                *it.seq()[j].0,
            ) && src@[*it.seq()[j].0] == *it.seq()[j].1,
            forall|k: usize| #[trigger]
                dst@.contains_key(k) ==> d0.contains_key(k) || src@.contains_key(k),
            forall|k: usize|
                #![trigger dst@.contains_key(k)]
                #![trigger d0.contains_key(k)]
                !src@.contains_key(k) ==> (dst@.contains_key(k) <==> d0.contains_key(k)) && (
                d0.contains_key(k) ==> dst@[k] == d0[k]),
            forall|j: int|
                0 <= j < it.index() ==> dst@.contains_key(*(#[trigger] it.seq()[j]).0) && dst@[*it.seq()[j].0]@
                    == merged_sparse_page(d0, sv, *it.seq()[j].0),
            forall|j: int|
                it.index() <= j < it.seq().len() ==> (dst@.contains_key(*(#[trigger] it.seq()[j]).0)
                    <==> d0.contains_key(*it.seq()[j].0)) && (d0.contains_key(*it.seq()[j].0)
                    ==> dst@[*it.seq()[j].0] == d0[*it.seq()[j].0]),
    {
        let k: usize = *page;
        proof {
            assert(src@.contains_key(k) && src@[k] == *insn);
            assert(sv.contains_key(k) && sv[k] == insn@);
        }
        let next = match dst.get(&k) {
            Some(p) => {
                proof {
                    assert forall|i: int| 0 <= i < 4096 implies #[trigger] p@[i].exec_cnt
                        + densify(insn@)[i].exec_cnt <= usize::MAX by {
                        assert(d0[k]@[i] == p@[i]);
                    }
                }
                add_sparse_page(p, insn)
            },
            None => {
                let zero = empty_page();
                let r = add_sparse_page(&zero, insn);
                proof {
                    assert(r@ =~= densify(insn@));
                }
                r
            },
        };
        dst.insert(k, next);
    }
    proof {
        lemma_sparse_merge_adds_counts(dst@, d0, sv);
    }
}

/// The counts of `src` that are not zero, as sparse pages; every page of
/// `src` appears, also one whose counts are all zero.
pub fn to_sparse_pages(src: &HashMap<usize, PageCounts>) -> (r: HashMap<usize, HashMap<u16, InsInfo>>)
    ensures
        forall|k: usize| #[trigger] r@.contains_key(k) <==> src@.contains_key(k),
        forall|k: usize| #[trigger] r@.contains_key(k) ==> r@[k]@ == sparsify(src@[k]@),
        r@.map_values(|v: HashMap<u16, InsInfo>| v@) == sparse_of(src@),
{
    let mut r: HashMap<usize, HashMap<u16, InsInfo>> = HashMap::new();
    proof {
        lemma_iter_covers_keys(src);
    }
    for (page, x) in it: src.iter()
        invariant
            it.seq() == spec_hash_map_iter(src).remaining(),
            it.seq().no_duplicates(),
            forall|k: usize| #[trigger] src@.contains_key(k) ==> seen_key(
                it.seq(),
                it.seq().len() as int,
                k,
            ),
            forall|j: int| 0 <= j < it.seq().len() ==> #[trigger] src@.contains_key(
                *it.seq()[j].0,
            ) && src@[*it.seq()[j].0] == *it.seq()[j].1,
            forall|k: usize| #[trigger] r@.contains_key(k) ==> src@.contains_key(k) && r@[k]@
                == sparsify(src@[k]@),
            forall|j: int|
                0 <= j < it.index() ==> r@.contains_key(*(#[trigger] it.seq()[j]).0),
    {
        let mut tmp_page: HashMap<u16, InsInfo> = HashMap::new();
        let mut idx: usize = 0;
        while idx < 4096
            invariant
                idx <= 4096,
                forall|k: u16| #[trigger] tmp_page@.contains_key(k) <==> k < idx && x@[k as int].exec_cnt > 0,
                forall|k: u16| #[trigger] tmp_page@.contains_key(k) ==> tmp_page@[k] == x@[k as int],
            decreases 4096 - idx,
        {
            let ins = x[idx];
            if ins.exec_cnt > 0 {
                tmp_page.insert(idx as u16, ins);
            }
            idx = idx + 1;
        }
        proof {
            assert(src@.contains_key(*page) && src@[*page] == *x);
            assert(tmp_page@ =~= sparsify(x@));
        }
        r.insert(*page, tmp_page);
    }
    assert(r@.map_values(|v: HashMap<u16, InsInfo>| v@) =~= sparse_of(src@));
    r
}

/// The sparse pages of all pages of `x`.
pub open spec fn sparse_of(x: Map<usize, PageCounts>) -> Map<usize, Map<u16, InsInfo>> {
    Map::new(|k: usize| x.contains_key(k), |k: usize| sparsify(x[k]@))
}

/// How often the instruction at address `a` was executed, according to the
/// sparse pages `s`.
pub open spec fn sparse_count(s: Map<usize, Map<u16, InsInfo>>, a: int) -> int {
    let p: usize = page_of(a) as usize;
    if s.contains_key(p) {
        densify(s[p])[offset_of(a)].exec_cnt as int
    } else {
        0
    }
}

/// Merging pages adds counts: after `merge_pages`, the count of every address
/// is the sum of its counts in the two maps.
pub proof fn lemma_merge_adds_counts(
    m: Map<usize, PageCounts>,
    dst: Map<usize, PageCounts>,
    src: Map<usize, PageCounts>,
)
    requires
        is_merge(m, dst, src),
        merge_fits(dst, src),
    ensures
        forall|a: int|
            0 <= a <= usize::MAX ==> #[trigger] exec_count(m, a) == exec_count(dst, a) + exec_count(
                src,
                a,
            ),
{
    assert forall|a: int| 0 <= a <= usize::MAX implies #[trigger] exec_count(m, a) == exec_count(
        dst,
        a,
    ) + exec_count(src, a) by {
        let p: usize = page_of(a) as usize;
        assert(0 <= offset_of(a) < 4096);
        let o: int = offset_of(a);
        if m.contains_key(p) {
            assert(m[p]@ == merged_page(dst, src, p));
            if dst.contains_key(p) && src.contains_key(p) {
                assert(dst[p]@[o].exec_cnt + src[p]@[o].exec_cnt <= usize::MAX);
                assert(m[p]@[o] == add_pages(dst[p], src[p])[o]);
            }
        }
    }
}

/// Merging sparse pages adds counts: after `merge_sparse_pages`, the count of
/// every address is its count in `dst` plus its count in the sparse pages.
pub proof fn lemma_sparse_merge_adds_counts(
    m: Map<usize, PageCounts>,
    dst: Map<usize, PageCounts>,
    src: Map<usize, Map<u16, InsInfo>>,
)
    requires
        is_sparse_merge(m, dst, src),
        sparse_merge_fits(dst, src),
    ensures
        forall|a: int|
            0 <= a <= usize::MAX ==> #[trigger] exec_count(m, a) == exec_count(dst, a) + sparse_count(
                src,
                a,
            ),
{
    assert forall|a: int| 0 <= a <= usize::MAX implies #[trigger] exec_count(m, a) == exec_count(
        dst,
        a,
    ) + sparse_count(src, a) by {
        let p: usize = page_of(a) as usize;
        assert(0 <= offset_of(a) < 4096);
        let o: int = offset_of(a);
        if m.contains_key(p) {
            assert(m[p]@ == merged_sparse_page(dst, src, p));
            if dst.contains_key(p) && src.contains_key(p) {
                assert(dst[p]@[o].exec_cnt + densify(src[p])[o].exec_cnt <= usize::MAX);
                assert(m[p]@[o] == add_seqs(dst[p]@, densify(src[p]))[o]);
            }
        }
    }
}

/// The order of merging does not matter: merging `a` and then `b` into `d`
/// gives every address the same count as merging `b` and then `a`.
pub proof fn lemma_merge_order(
    d: Map<usize, PageCounts>,
    a: Map<usize, PageCounts>,
    b: Map<usize, PageCounts>,
    da: Map<usize, PageCounts>,
    dab: Map<usize, PageCounts>,
    db: Map<usize, PageCounts>,
    dba: Map<usize, PageCounts>,
)
    requires
        merge_fits(d, a),
        is_merge(da, d, a),
        merge_fits(da, b),
        is_merge(dab, da, b),
        merge_fits(d, b),
        is_merge(db, d, b),
        merge_fits(db, a),
        is_merge(dba, db, a),
    ensures
        forall|x: int| 0 <= x <= usize::MAX ==> #[trigger] exec_count(dab, x) == exec_count(dba, x),
{
    lemma_merge_adds_counts(da, d, a);
    lemma_merge_adds_counts(dab, da, b);
    lemma_merge_adds_counts(db, d, b);
    lemma_merge_adds_counts(dba, db, a);
    assert forall|x: int| 0 <= x <= usize::MAX implies #[trigger] exec_count(dab, x) == exec_count(dba, x) by {
        assert(exec_count(da, x) == exec_count(d, x) + exec_count(a, x));
        assert(exec_count(db, x) == exec_count(d, x) + exec_count(b, x));
    }
}

/// The sparse form loses nothing: merging the sparse pages of `x` into `dst`
/// is merging `x` itself, and the limits on counts are the same.
pub proof fn lemma_sparse_round_trip(dst: Map<usize, PageCounts>, x: Map<usize, PageCounts>)
    ensures
        forall|k: usize| #[trigger] x.contains_key(k) ==> densify(sparse_of(x)[k]) == x[k]@,
        sparse_merge_fits(dst, sparse_of(x)) <==> merge_fits(dst, x),
        forall|m: Map<usize, PageCounts>| #[trigger] is_sparse_merge(m, dst, sparse_of(x)) <==> is_merge(m, dst, x),
        forall|a: int| #[trigger] sparse_count(sparse_of(x), a) == exec_count(x, a),
{
    assert forall|k: usize| #[trigger] x.contains_key(k) implies densify(sparse_of(x)[k]) == x[k]@ by {
        assert(densify(sparse_of(x)[k]) =~= x[k]@);
    }
    assert forall|k: usize| #[trigger] sparse_of(x).contains_key(k) implies offsets_in_page(sparse_of(x)[k]) by {}
    assert forall|k: usize| #[trigger] x.contains_key(k) implies merged_sparse_page(dst, sparse_of(x), k)
        == merged_page(dst, x, k) by {
        assert(densify(sparse_of(x)[k]) == x[k]@);
        if dst.contains_key(k) {
            assert(add_seqs(dst[k]@, densify(sparse_of(x)[k])) =~= add_pages(dst[k], x[k]));
        }
    }
    assert forall|a: int| #[trigger] sparse_count(sparse_of(x), a) == exec_count(x, a) by {
        let p: usize = page_of(a) as usize;
        if x.contains_key(p) {
            assert(densify(sparse_of(x)[p]) == x[p]@);
        }
    }
    if sparse_merge_fits(dst, sparse_of(x)) {
        assert forall|k: usize, i: int|
            #![trigger dst[k]@[i], x[k]@[i]]
            dst.contains_key(k) && x.contains_key(k) && 0 <= i < 4096 implies dst[k]@[i].exec_cnt
                + x[k]@[i].exec_cnt <= usize::MAX by {
            assert(densify(sparse_of(x)[k]) == x[k]@);
            assert(sparse_of(x)[k] == sparse_of(x)[k]);
        }
    }
    if merge_fits(dst, x) {
        assert forall|k: usize, i: int|
            #![trigger dst[k]@[i], sparse_of(x)[k]]
            dst.contains_key(k) && sparse_of(x).contains_key(k) && 0 <= i < 4096 implies dst[k]@[i].exec_cnt
                + densify(sparse_of(x)[k])[i].exec_cnt <= usize::MAX by {
            assert(densify(sparse_of(x)[k]) == x[k]@);
            assert(x[k]@[i] == x[k]@[i]);
        }
    }
}

/// Whether adding page `b` to page `a` overflows no count.
pub fn pages_fit(a: &PageCounts, b: &PageCounts) -> (r: bool)
    ensures
        r == forall|i: int| 0 <= i < 4096 ==> #[trigger] a@[i].exec_cnt + b@[i].exec_cnt <= usize::MAX,
{
    let mut i: usize = 0;
    while i < 4096
        invariant
            i <= 4096,
            forall|j: int| 0 <= j < i ==> #[trigger] a@[j].exec_cnt + b@[j].exec_cnt <= usize::MAX,
        decreases 4096 - i,
    {
        if a[i].exec_cnt > usize::MAX - b[i].exec_cnt {
            return false;
        }
        i = i + 1;
    }
    true
}

/// Whether merging `src` into `dst` overflows no count: the condition of `merge_pages`.
pub fn can_merge_pages(dst: &HashMap<usize, PageCounts>, src: &HashMap<usize, PageCounts>) -> (r: bool)
    ensures
        r == merge_fits(dst@, src@),
{
    proof {
        lemma_iter_covers_keys(src);
    }
    for (page, insn) in it: src.iter()
        invariant
            it.seq() == spec_hash_map_iter(src).remaining(),
            forall|k: usize| #[trigger] src@.contains_key(k) ==> seen_key(
                it.seq(),
                it.seq().len() as int,
                k,
            ),
            forall|j: int| 0 <= j < it.seq().len() ==> #[trigger] src@.contains_key(
                *it.seq()[j].0,
            ) && src@[*it.seq()[j].0] == *it.seq()[j].1,
            forall|j: int| 0 <= j < it.index() ==> #[trigger] it.seq()[j] == it.history()[j],
            forall|j: int, i: int|
                #![trigger it.history()[j], dst@[*it.history()[j].0]@[i]]
                0 <= j < it.index() && dst@.contains_key(*it.history()[j].0) && 0 <= i < 4096
                    ==> dst@[*it.history()[j].0]@[i].exec_cnt + src@[*it.history()[j].0]@[i].exec_cnt
                    <= usize::MAX,
    {
        proof {
            assert(src@.contains_key(*page) && src@[*page] == *insn);
        }
        match dst.get(page) {
            Some(d) => {
                if !pages_fit(d, insn) {
                    return false;
                }
            },
            None => {},
        }
    }
    proof {
        assert forall|k: usize, i: int|
            #![trigger dst@[k]@[i], src@[k]@[i]]
            dst@.contains_key(k) && src@.contains_key(k) && 0 <= i < 4096 implies dst@[k]@[i].exec_cnt
                + src@[k]@[i].exec_cnt <= usize::MAX by {
            assert(seen_key(
                spec_hash_map_iter(src).remaining(),
                spec_hash_map_iter(src).remaining().len() as int,
                k,
            ));
        }
    }
    true
}

/// Whether the sparse page `m` has its offsets inside a page and, where there
/// is a page `base`, adding `m` to it overflows no count.
pub fn sparse_page_fits(base: Option<&PageCounts>, m: &HashMap<u16, InsInfo>) -> (r: bool)
    ensures
        r == (offsets_in_page(m@) && (base matches Some(b) ==> forall|i: int|
            0 <= i < 4096 ==> #[trigger] b@[i].exec_cnt + densify(m@)[i].exec_cnt <= usize::MAX)),
{
    proof {
        lemma_iter_covers_keys(m);
    }
    for (off, cur) in it: m.iter()
        invariant
            it.seq() == spec_hash_map_iter(m).remaining(),
            forall|k: u16| #[trigger] m@.contains_key(k) ==> seen_key(it.seq(), it.seq().len() as int, k),
            forall|j: int| 0 <= j < it.seq().len() ==> #[trigger] m@.contains_key(*it.seq()[j].0)
                && m@[*it.seq()[j].0] == *it.seq()[j].1,
            forall|j: int| 0 <= j < it.index() ==> #[trigger] it.seq()[j] == it.history()[j],
            forall|j: int| 0 <= j < it.index() ==> *(#[trigger] it.history()[j]).0 < 4096 && (
            base matches Some(b) ==> b@[*it.history()[j].0 as int].exec_cnt + it.history()[j].1.exec_cnt
                <= usize::MAX),
    {
        proof {
            assert(m@.contains_key(*off) && m@[*off] == *cur);
        }
        if *off >= 4096 {
            return false;
        }
        match base {
            Some(b) => {
                if b[*off as usize].exec_cnt > usize::MAX - cur.exec_cnt {
                    proof {
                        assert(densify(m@)[*off as int] == *cur);
                    }
                    return false;
                }
            },
            None => {},
        }
    }
    proof {
        assert forall|k: u16| #[trigger] m@.contains_key(k) implies k < 4096 by {
            assert(seen_key(spec_hash_map_iter(m).remaining(), spec_hash_map_iter(m).remaining().len() as int, k));
        }
        if base is Some {
            let b = base->0;
            assert forall|i: int| 0 <= i < 4096 implies #[trigger] b@[i].exec_cnt + densify(m@)[i].exec_cnt
                <= usize::MAX by {
                if m@.contains_key(i as u16) {
                    assert(seen_key(
                        spec_hash_map_iter(m).remaining(),
                        spec_hash_map_iter(m).remaining().len() as int,
                        i as u16,
                    ));
                }
            }
        }
    }
    true
}

/// Whether merging the sparse pages `src` into `dst` is allowed: the condition
/// of `merge_sparse_pages`.
pub fn can_merge_sparse_pages(dst: &HashMap<usize, PageCounts>, src: &HashMap<usize, HashMap<u16, InsInfo>>) -> (r: bool)
    ensures
        r == sparse_merge_fits(dst@, src@.map_values(|v: HashMap<u16, InsInfo>| v@)),
{
    let ghost sv = src@.map_values(|v: HashMap<u16, InsInfo>| v@);
    proof {
        lemma_iter_covers_keys(src);
    }
    for (page, insn) in it: src.iter()
        invariant
            sv == src@.map_values(|v: HashMap<u16, InsInfo>| v@),
            it.seq() == spec_hash_map_iter(src).remaining(),
            forall|k: usize| #[trigger] src@.contains_key(k) ==> seen_key(
                it.seq(),
                it.seq().len() as int,
                k,
            ),
            forall|j: int| 0 <= j < it.seq().len() ==> #[trigger] src@.contains_key(
                *it.seq()[j].0,
            ) && src@[*it.seq()[j].0] == *it.seq()[j].1,
            forall|j: int| 0 <= j < it.index() ==> #[trigger] it.seq()[j] == it.history()[j],
            forall|j: int| 0 <= j < it.index() ==> offsets_in_page(sv[*(#[trigger] it.history()[j]).0]) && (
            dst@.contains_key(*it.history()[j].0) ==> forall|i: int| 0 <= i < 4096 ==> #[trigger] dst@[*it.history()[j].0]@[i].exec_cnt
                + densify(sv[*it.history()[j].0])[i].exec_cnt <= usize::MAX),
    {
        proof {
            assert(src@.contains_key(*page) && src@[*page] == *insn);
            assert(sv[*page] == insn@);
        }
        if !sparse_page_fits(dst.get(page), insn) {
            proof {
                assert(sv.contains_key(*page));
                if offsets_in_page(sv[*page]) {
                    let b = dst@[*page];
                    let i: int = choose|i: int| 0 <= i < 4096 && !(#[trigger] b@[i].exec_cnt
                        + densify(insn@)[i].exec_cnt <= usize::MAX);
                    assert(dst@[*page]@[i].exec_cnt + densify(sv[*page])[i].exec_cnt > usize::MAX);
                }
            }
            return false;
        }
    }
    proof {
        assert forall|k: usize| #[trigger] sv.contains_key(k) implies offsets_in_page(sv[k]) && (
            dst@.contains_key(k) ==> forall|i: int| 0 <= i < 4096 ==> #[trigger] dst@[k]@[i].exec_cnt
                + densify(sv[k])[i].exec_cnt <= usize::MAX) by {
            assert(seen_key(
                spec_hash_map_iter(src).remaining(),
                spec_hash_map_iter(src).remaining().len() as int,
                k,
            ));
        }
    }
    true
}

/// Every page key of `m` is the start of a page.
pub open spec fn pages_aligned(m: Map<usize, PageCounts>) -> bool {
    forall|k: usize| #[trigger] m.contains_key(k) ==> k % 4096 == 0
}

/// How often the instruction at `addr` was executed, according to `data`.
pub fn exec_count_at(data: &HashMap<usize, PageCounts>, addr: usize) -> (r: usize)
    ensures
        r == exec_count(data@, addr as int),
{
    match data.get(&page_base(addr)) {
        Some(p) => p[page_offset(addr)].exec_cnt,
        None => 0,
    }
}

/// Each entry of `r` is an executed address with its count, in a page among
/// the first `n` of `h`.
pub open spec fn entries_from(
    data: Map<usize, PageCounts>,
    r: Seq<(usize, usize)>,
    h: Seq<(&usize, &PageCounts)>,
    n: int,
) -> bool {
    forall|j: int| 0 <= j < r.len() ==> #[trigger] exec_count(data, r[j].0 as int) == r[j].1 && r[j].1
        > 0 && seen_key(h, n, page_of(r[j].0 as int) as usize)
}

/// Every executed address of the first `n` pages of `h` is an entry of `r`.
pub open spec fn entries_cover(r: Seq<(usize, usize)>, h: Seq<(&usize, &PageCounts)>, n: int) -> bool {
    forall|jj: int, i: int|
        #![trigger h[jj], (*h[jj].1)@[i]]
        0 <= jj < n && 0 <= i < 4096 && (*h[jj].1)@[i].exec_cnt > 0 ==> exists|j: int|
            0 <= j < r.len() && r[j].0 == *h[jj].0 + i
}

/// `e` is an executed address of page `page` below offset `bound`, with its
/// count as the page `insn` has it.
pub open spec fn page_entry_ok(insn: PageCounts, e: (usize, usize), page: usize, bound: int) -> bool {
    &&& page <= e.0 < page + bound
    &&& insn@[e.0 - page].exec_cnt == e.1
    &&& e.1 > 0
}

/// Appends to `r` the executed addresses of the page `insn` that starts at
/// `page`, with their counts, in address order.
fn push_page_entries(r: &mut Vec<(usize, usize)>, page: usize, insn: &PageCounts)
    requires
        page % 4096 == 0,
    ensures
        final(r)@.len() >= old(r)@.len(),
        forall|j: int| 0 <= j < old(r)@.len() ==> final(r)@[j] == #[trigger] old(r)@[j],
        forall|j: int| old(r)@.len() <= j < final(r)@.len() ==> page_entry_ok(*insn, #[trigger] final(r)@[j], page, 4096),
        forall|j1: int, j2: int| old(r)@.len() <= j1 < j2 < final(r)@.len() ==> final(r)@[j1].0 < final(r)@[j2].0,
        forall|ii: int| 0 <= ii < 4096 && (*insn)@[ii].exec_cnt > 0 ==> exists|j: int|
            old(r)@.len() <= j < final(r)@.len() && final(r)@[j].0 == page + ii,
{
    let ghost r0 = r@;
    let mut i: usize = 0;
    while i < 4096
        invariant
            page % 4096 == 0,
            i <= 4096,
            r@.len() >= r0.len(),
            forall|j: int| 0 <= j < r0.len() ==> r@[j] == #[trigger] r0[j],
            forall|j: int| r0.len() <= j < r@.len() ==> page_entry_ok(*insn, #[trigger] r@[j], page, i as int),
            forall|j1: int, j2: int| r0.len() <= j1 < j2 < r@.len() ==> r@[j1].0 < r@[j2].0,
            forall|ii: int| 0 <= ii < i && (*insn)@[ii].exec_cnt > 0 ==> exists|j: int|
                r0.len() <= j < r@.len() && r@[j].0 == page + ii,
        decreases 4096 - i,
    {
        let cnt: usize = insn[i].exec_cnt;
        if cnt > 0 {
            let ghost rb = r@;
            assert(page + 4095 <= usize::MAX) by {
                assert(page <= usize::MAX);
            }
            let addr: usize = page + i;
            r.push((addr, cnt));
            proof {
                assert(r@[r@.len() - 1] == (addr, cnt));
                assert forall|j: int| r0.len() <= j < r@.len() implies page_entry_ok(*insn, #[trigger] r@[j], page, i + 1) by {
                    if j < rb.len() {
                        assert(r@[j] == rb[j]);
                        assert(page_entry_ok(*insn, rb[j], page, i as int));
                    }
                }
                assert forall|j1: int, j2: int| r0.len() <= j1 < j2 < r@.len() implies r@[j1].0 < r@[j2].0 by {
                    assert(r@[j1] == rb[j1]);
                    if j2 < rb.len() {
                        assert(r@[j2] == rb[j2]);
                    } else {
                        assert(page_entry_ok(*insn, rb[j1], page, i as int));
                    }
                }
                assert forall|ii: int| 0 <= ii < i + 1 && (*insn)@[ii].exec_cnt > 0 implies exists|j: int|
                    r0.len() <= j < r@.len() && r@[j].0 == page + ii by {
                    if ii == i {
                        assert(r@[r@.len() - 1].0 == page + ii);
                    } else {
                        let j: int = choose|j: int| r0.len() <= j < rb.len() && rb[j].0 == page + ii;
                        assert(r@[j] == rb[j]);
                    }
                }
            }
        } else {
            proof {
                assert forall|j: int| r0.len() <= j < r@.len() implies page_entry_ok(*insn, #[trigger] r@[j], page, i + 1) by {
                    assert(page_entry_ok(*insn, r@[j], page, i as int));
                }
            }
        }
        i = i + 1;
    }
}

/// Every address that was executed, with its count: the entries are distinct
/// addresses, each with its count, and every address with a count above zero
/// is among them. The pages of `data` are keyed by their start addresses, as
/// every function here that adds a page keys it.
#[verifier::rlimit(40)]
pub fn executed_addresses(data: &HashMap<usize, PageCounts>) -> (r: Vec<(usize, usize)>)
    requires
        pages_aligned(data@),
    ensures
        forall|j: int| 0 <= j < r@.len() ==> #[trigger] exec_count(data@, r@[j].0 as int) == r@[j].1
            && r@[j].1 > 0,
        forall|a: int| 0 <= a <= usize::MAX && #[trigger] exec_count(data@, a) > 0 ==> exists|j: int|
            0 <= j < r@.len() && r@[j].0 == a,
        forall|j1: int, j2: int| 0 <= j1 < j2 < r@.len() ==> r@[j1].0 != r@[j2].0,
{
    let mut r: Vec<(usize, usize)> = Vec::new();
    proof {
        lemma_iter_covers_keys(data);
    }
    for (page, insn) in it: data.iter()
        invariant
            pages_aligned(data@),
            it.seq() == spec_hash_map_iter(data).remaining(),
            it.seq().no_duplicates(),
            forall|k: usize| #[trigger] data@.contains_key(k) ==> seen_key(
                it.seq(),
                it.seq().len() as int,
                k,
            ),
            forall|j: int| 0 <= j < it.seq().len() ==> #[trigger] data@.contains_key(
                *it.seq()[j].0,
            ) && data@[*it.seq()[j].0] == *it.seq()[j].1,
            forall|j: int| 0 <= j < it.index() ==> #[trigger] it.seq()[j] == it.history()[j],
            entries_from(data@, r@, it.history(), it.index()),
            entries_cover(r@, it.history(), it.index()),
            forall|j1: int, j2: int| 0 <= j1 < j2 < r@.len() ==> r@[j1].0 != r@[j2].0,
    {
        let ghost h = it.history();
        let ghost idx: int = it.index();
        let ghost r0 = r@;
        proof {
            assert(entries_from(data@, r0, h, idx));
            assert(entries_cover(r0, h, idx));
            assert forall|j: int| 0 <= j < r0.len() implies seen_key(h, idx, page_of((#[trigger] r0[j]).0 as int) as usize)
                && exec_count(data@, r0[j].0 as int) == r0[j].1 && r0[j].1 > 0 by {
                assert(exec_count(data@, r@[j].0 as int) == r@[j].1);
            }
            assert(data@.contains_key(*page) && data@[*page] == *insn);
            assert(*page % 4096 == 0);
            if seen_key(h, idx, *page) {
                let j: int = choose|j: int| 0 <= j < idx && *(#[trigger] h[j]).0 == *page;
                assert(data@.contains_key(*h[j].0));
                assert(*h[j].1 == *insn);
                assert(false);
            }
        }
        push_page_entries(&mut r, *page, insn);
        proof {
            let h2 = h.push((page, insn));
            assert(*h2[idx as int].0 == *page);
            assert forall|kk: usize| #[trigger] seen_key(h, idx, kk) implies seen_key(h2, idx + 1, kk) by {
                let j: int = choose|j: int| 0 <= j < idx && *(#[trigger] h[j]).0 == kk;
                assert(h2[j] == h[j]);
            }
            assert(seen_key(h2, idx + 1, *page));
            assert forall|j: int| r0.len() <= j < r@.len() implies exec_count(data@, r@[j].0 as int) == r@[j].1
                && page_of(r@[j].0 as int) == *page by {
                assert(page_entry_ok(*insn, r@[j], *page, 4096));
                lemma_in_page(*page as int, r@[j].0 as int);
            }
            assert forall|j: int| 0 <= j < r@.len() implies #[trigger] exec_count(data@, r@[j].0 as int) == r@[j].1
                && r@[j].1 > 0 && seen_key(h2, idx + 1, page_of(r@[j].0 as int) as usize) by {
                if j < r0.len() {
                    assert(r@[j] == r0[j]);
                    assert(seen_key(h, idx, page_of(r0[j].0 as int) as usize));
                } else {
                    assert(page_entry_ok(*insn, r@[j], *page, 4096));
                }
            }
            assert forall|j1: int, j2: int| 0 <= j1 < j2 < r@.len() implies r@[j1].0 != r@[j2].0 by {
                if j1 < r0.len() && j2 >= r0.len() {
                    assert(r@[j1] == r0[j1]);
                    assert(seen_key(h, idx, page_of(r0[j1].0 as int) as usize));
                    assert(page_of(r@[j2].0 as int) == *page);
                } else if j2 < r0.len() {
                    assert(r@[j1] == r0[j1]);
                    assert(r@[j2] == r0[j2]);
                }
            }
            assert forall|jj: int, i: int|
                0 <= jj < idx + 1 && 0 <= i < 4096 && (*h2[jj].1)@[i].exec_cnt > 0 implies exists|j: int|
                    0 <= j < r@.len() && r@[j].0 == *h2[jj].0 + i by {
                if jj < idx {
                    assert(h2[jj] == h[jj]);
                    let j: int = choose|j: int| 0 <= j < r0.len() && r0[j].0 == *h[jj].0 + i;
                    assert(r@[j] == r0[j]);
                }
            }
            assert(entries_from(data@, r@, h2, idx + 1));
            assert(entries_cover(r@, h2, idx + 1));
        }
    }
    proof {
        assert forall|a: int| 0 <= a <= usize::MAX && #[trigger] exec_count(data@, a) > 0 implies exists|j: int|
            0 <= j < r@.len() && r@[j].0 == a by {
            let p: usize = page_of(a) as usize;
            lemma_in_page(p as int, a);
            assert(seen_key(
                spec_hash_map_iter(data).remaining(),
                spec_hash_map_iter(data).remaining().len() as int,
                p,
            ));
        }
    }
    r
}

proof fn lemma_same_page_offsets(a: int, b: int)
    requires
        0 <= a,
        0 <= b,
        page_of(a) == page_of(b),
        a != b,
    ensures
        offset_of(a) != offset_of(b),
{
}

} // verus!
