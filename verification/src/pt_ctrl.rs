//! The decisions around the trace driver: the trace ring buffers it shares,
//! the setup request it takes, and how its replies are judged.
use vstd::prelude::*;

verus! {

/// The marker byte for a consumed (or never written) position of a ring buffer.
pub const EMPTY_BYTE: u8 = 0xFF;

/// How many bytes from a position on are looked at to decide whether data is there.
pub const VALID_WINDOW: usize = 10;

/// The ring buffer `b` after the `n` bytes from `pos` on were consumed.
pub open spec fn consumed(b: Seq<u8>, pos: int, n: nat) -> Seq<u8>
    decreases n,
{
    if n == 0 {
        b
    } else {
        consumed(b, pos, (n - 1) as nat).update((pos + n - 1) % (b.len() as int), 0xFF)
    }
}

/// Some byte of the window of 10 positions from `p` on (wrapping around) is not 0xFF.
pub open spec fn window_valid(b: Seq<u8>, p: int) -> bool {
    exists|j: int| 0 <= j < 10 && #[trigger] b[(p + j) % (b.len() as int)] != 0xFF
}

/// What `window_valid` means: some of the `VALID_WINDOW` positions from `p` on
/// (wrapping around) holds a byte other than `EMPTY_BYTE`.
pub proof fn lemma_window_valid(b: Seq<u8>, p: int)
    ensures
        window_valid(b, p) <==> exists|j: int|
            0 <= j < VALID_WINDOW && #[trigger] b[(p + j) % (b.len() as int)] != EMPTY_BYTE,
{
}

/// Reading goes on only while data is near: where the first `n` bytes from
/// `pos` on were read, before byte `k` of them was, one of the `VALID_WINDOW`
/// positions from it on held a byte other than `EMPTY_BYTE`.
pub proof fn lemma_read_only_near_data(b: Seq<u8>, pos: int, n: nat, k: nat)
    requires
        all_valid(b, pos, n),
        k < n,
    ensures
        exists|j: int|
            0 <= j < VALID_WINDOW && #[trigger] consumed(b, pos, k)[(pos + k + j) % (consumed(b, pos, k).len() as int)]
                != EMPTY_BYTE,
{
    assert(window_valid(consumed(b, pos, k), pos + k));
}

/// Before each of the first `n` bytes from `pos` on was consumed, the window
/// from it was valid.
pub open spec fn all_valid(b: Seq<u8>, pos: int, n: nat) -> bool {
    forall|i: nat| i < n ==> #[trigger] window_valid(consumed(b, pos, i), pos + i)
}

proof fn lemma_consumed_len(b: Seq<u8>, pos: int, n: nat)
    requires
        b.len() > 0,
        pos >= 0,
    ensures
        consumed(b, pos, n).len() == b.len(),
    decreases n,
{
    if n > 0 {
        lemma_consumed_len(b, pos, (n - 1) as nat);
    }
}

/// Copies the data of the ring buffer `buff`, from position `pos` on and
/// wrapping around, into `out_buff`, and marks each copied position 0xFF. It
/// stops when `out_buff` is full or when the 10 positions from the next one
/// on are all 0xFF. Returns how many bytes were copied.
pub fn fetch_data(buff: &mut [u8], pos: usize, out_buff: &mut Vec<u8>) -> (r: usize)
    requires
        old(buff)@.len() > 0,
        pos + old(out_buff)@.len() + 10 <= usize::MAX,
    ensures
        r <= old(out_buff)@.len(),
        all_valid(old(buff)@, pos as int, r as nat),
        r < old(out_buff)@.len() ==> !window_valid(consumed(old(buff)@, pos as int, r as nat), pos + r),
        final(buff)@ == consumed(old(buff)@, pos as int, r as nat),
        r < old(out_buff)@.len() ==> forall|j: int|
            0 <= j < VALID_WINDOW ==> #[trigger] final(buff)@[(pos + r + j) % (old(buff)@.len() as int)]
                == EMPTY_BYTE,
        final(buff)@.len() == old(buff)@.len(),
        final(out_buff)@.len() == old(out_buff)@.len(),
        forall|k: int| 0 <= k < r ==> #[trigger] final(out_buff)@[k] == consumed(
            old(buff)@,
            pos as int,
            k as nat,
        )[(pos + k) % (old(buff)@.len() as int)],
        forall|k: int| r <= k < old(out_buff)@.len() ==> #[trigger] final(out_buff)@[k] == old(
            out_buff,
        )@[k],
{
    let ghost b0 = buff@;
    let len: usize = buff.len();
    let n: usize = out_buff.len();
    let mut i: usize = 0;
    while i < n
        invariant_except_break
            i <= n,
        invariant
            len == buff@.len() == b0.len(),
            len > 0,
            n == out_buff@.len(),
            n == old(out_buff)@.len(),
            pos + n + 10 <= usize::MAX,
            i <= n,
            buff@ == consumed(b0, pos as int, i as nat),
            all_valid(b0, pos as int, i as nat),
            forall|k: int| 0 <= k < i ==> #[trigger] out_buff@[k] == consumed(b0, pos as int, k as nat)[(
            pos + k) % (len as int)],
            forall|k: int| i <= k < n ==> #[trigger] out_buff@[k] == old(out_buff)@[k],
        ensures
            i <= n,
            buff@ == consumed(b0, pos as int, i as nat),
            all_valid(b0, pos as int, i as nat),
            i < n ==> !window_valid(consumed(b0, pos as int, i as nat), pos + i),
            forall|k: int| 0 <= k < i ==> #[trigger] out_buff@[k] == consumed(b0, pos as int, k as nat)[(
            pos + k) % (len as int)],
            forall|k: int| i <= k < n ==> #[trigger] out_buff@[k] == old(out_buff)@[k],
        decreases n - i,
    {
        let mut is_valid = false;
        let mut j: usize = 0;
        while j < VALID_WINDOW
            invariant_except_break
                j <= 10,
                !is_valid,
                forall|jj: int| 0 <= jj < j ==> #[trigger] buff@[(pos + i + jj) % (len as int)] == 0xFF,
            invariant
                len == buff@.len(),
                len > 0,
                i < n,
                pos + n + 10 <= usize::MAX,
            ensures
                is_valid ==> window_valid(buff@, pos + i),
                !is_valid ==> !window_valid(buff@, pos + i),
            decreases 10 - j,
        {
            let cur_offset: usize = (pos + i + j) % len;
            if buff[cur_offset] != EMPTY_BYTE {
                is_valid = true;
                assert(buff@[(pos + i + j as int) % (len as int)] != 0xFF);
                break;
            }
            j = j + 1;
        }
        if !is_valid {
            break;
        }
        let offset: usize = (i + pos) % len;
        let v: u8 = buff[offset];
        out_buff.set(i, v);
        buff[offset] = EMPTY_BYTE;
        proof {
            lemma_consumed_len(b0, pos as int, i as nat);
            assert(consumed(b0, pos as int, (i + 1) as nat) == consumed(b0, pos as int, i as nat).update(
                (pos + i) % (len as int),
                0xFF,
            ));
            assert forall|ii: nat| ii < i + 1 implies #[trigger] window_valid(
                consumed(b0, pos as int, ii),
                pos + ii,
            ) by {
                if ii < i {
                    assert(all_valid(b0, pos as int, i as nat));
                }
            }
        }
        i = i + 1;
    }
    i
}

/// Reads what the driver has added to one ring buffer since `read_pos`, into
/// `out_buff`, and moves `read_pos` past it. Returns how many bytes were read.
pub fn poll_out_buffer(buff: &mut [u8], read_pos: &mut usize, out_buff: &mut Vec<u8>) -> (r: usize)
    requires
        old(buff)@.len() > 0,
        *old(read_pos) + old(out_buff)@.len() + 10 <= usize::MAX,
    ensures
        r <= old(out_buff)@.len(),
        all_valid(old(buff)@, *old(read_pos) as int, r as nat),
        r < old(out_buff)@.len() ==> !window_valid(
            consumed(old(buff)@, *old(read_pos) as int, r as nat),
            *old(read_pos) + r,
        ),
        final(buff)@ == consumed(old(buff)@, *old(read_pos) as int, r as nat),
        *final(read_pos) == (*old(read_pos) + r) % (old(buff)@.len() as int),
        final(out_buff)@.len() == old(out_buff)@.len(),
        forall|k: int| 0 <= k < r ==> #[trigger] final(out_buff)@[k] == consumed(
            old(buff)@,
            *old(read_pos) as int,
            k as nat,
        )[(*old(read_pos) + k) % (old(buff)@.len() as int)],
{
    let pos: usize = *read_pos;
    let len: usize = buff.len();
    let read_size: usize = fetch_data(buff, pos, out_buff);
    *read_pos = (pos + read_size) % len;
    read_size
}

/// An address filter of the tracer: a range and how it is applied.
#[derive(Clone, Copy, Debug, PartialEq, Eq, Structural)]
pub struct AddrRange {
    pub addr_n_a: u64,
    pub addr_n_b: u64,
    pub cfg_mode: u64,
}

impl AddrRange {
    /// A filter that is off: all fields zero.
    pub fn new() -> (r: AddrRange)
        ensures
            r.addr_n_a == 0 && r.addr_n_b == 0 && r.cfg_mode == 0,
    {
        AddrRange { addr_n_a: 0, addr_n_b: 0, cfg_mode: 0 }
    }
}

/// The event of one processor that the driver signals.
#[derive(Clone, Copy, Debug, PartialEq, Eq, Structural)]
pub struct EventInfo {
    pub idx: u64,
    pub event_handle: u64,
}

/// The number of processors that a setup request has room for.
pub const MAX_CPU_NUM: usize = 32;

/// The request that starts tracing a process.
#[derive(Clone, Copy, Debug)]
pub struct PtSetupInfo {
    pub pid: u32,
    pub buff_size: u32,
    pub mtc_freq: u32,
    pub ret_compress: u32,
    pub cyc_thld: u32,
    pub psb_freq: u32,
    pub event_num: u32,
    pub no_pmi: u32,
    pub event_info: [EventInfo; 32],
    pub addrs_cfg: [AddrRange; 4],
}

impl PtSetupInfo {
    /// The request to trace `pid` without performance interrupts: return
    /// compression off, 16 events, the given buffer size and packet
    /// frequencies, and the first address filter set to `[addr_start,
    /// addr_end]` with mode `addr_cfg`; the other filters and the events are zero.
    pub fn no_pmi(
        pid: u32,
        buff_size: u32,
        mtc_freq: u32,
        psb_freq: u32,
        cyc_thld: u32,
        addr_cfg: u32,
        addr_start: u32,
        addr_end: u32,
    ) -> (r: PtSetupInfo)
        ensures
            r.pid == pid,
            r.buff_size == buff_size,
            r.mtc_freq == mtc_freq,
            r.psb_freq == psb_freq,
            r.cyc_thld == cyc_thld,
            r.ret_compress == 0,
            r.event_num == 16,
            r.no_pmi == 1,
            r.addrs_cfg@[0] == (AddrRange {
                cfg_mode: addr_cfg as u64,
                addr_n_a: addr_start as u64,
                addr_n_b: addr_end as u64,
            }),
            forall|i: int| 1 <= i < 4 ==> #[trigger] r.addrs_cfg@[i] == AddrRange::new_spec(),
            forall|i: int| 0 <= i < 32 ==> #[trigger] r.event_info@[i] == (EventInfo {
                idx: 0,
                event_handle: 0,
            }),
    {
        let first = AddrRange { cfg_mode: addr_cfg as u64, addr_n_a: addr_start as u64, addr_n_b: addr_end as u64 };
        let r = PtSetupInfo {
            pid: pid,
            buff_size: buff_size,
            ret_compress: 0,
            mtc_freq: mtc_freq,
            psb_freq: psb_freq,
            cyc_thld: cyc_thld,
            event_num: 16,
            no_pmi: 1,
            addrs_cfg: [first, AddrRange::new(), AddrRange::new(), AddrRange::new()],
            event_info: [EventInfo { idx: 0, event_handle: 0 }; 32],
        };
        r
    }
}

impl AddrRange {
    /// The filter that is off.
    pub open spec fn new_spec() -> AddrRange {
        AddrRange { addr_n_a: 0, addr_n_b: 0, cfg_mode: 0 }
    }
}

/// How a driver request went: `Ok` when the call succeeded (`succeeded` not
/// zero) and, where a reply of `expected_len` bytes is due, exactly that many
/// bytes came back; otherwise `Err` with the number of bytes that came back.
pub fn ioctl_outcome(succeeded: i32, expected_len: Option<u32>, returned_len: u32) -> (r: Result<(), u32>)
    ensures
        r is Ok <==> succeeded != 0 && (expected_len matches Some(e) ==> e == returned_len),
        r matches Err(n) ==> n == returned_len,
{
    let len_ok = match expected_len {
        Some(e) => e == returned_len,
        None => true,
    };
    if succeeded != 0 && len_ok {
        Ok(())
    } else {
        Err(returned_len)
    }
}

} // verus!
