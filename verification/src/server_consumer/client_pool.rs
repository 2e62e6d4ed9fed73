//! The decisions of the server's pool of clients.
use vstd::prelude::*;

verus! {

/// The most clients the pool accepts before it stops listening.
pub const MAX_CLIENTS: usize = 32;

/// The first slot that holds a client whose queue is not full (`Some(false)`).
pub open spec fn first_available(slots: Seq<Option<bool>>) -> Option<int>
    decreases slots.len(),
{
    if slots.len() == 0 {
        None
    } else {
        match first_available(slots.drop_last()) {
            Some(i) => Some(i),
            None => if slots.last() == Some(false) {
                Some(slots.len() - 1)
            } else {
                None
            },
        }
    }
}

proof fn lemma_first_available(slots: Seq<Option<bool>>)
    ensures
        match first_available(slots) {
            Some(i) => 0 <= i < slots.len() && slots[i] == Some(false) && forall|j: int|
                0 <= j < i ==> #[trigger] slots[j] != Some(false),
            None => forall|j: int| 0 <= j < slots.len() ==> #[trigger] slots[j] != Some(false),
        },
    decreases slots.len(),
{
    if slots.len() > 0 {
        lemma_first_available(slots.drop_last());
        assert forall|j: int| 0 <= j < slots.len() - 1 implies #[trigger] slots[j] == slots.drop_last()[j] by {}
    }
}

/// Which client gets the next piece of trace data. `slots[i]` is `None` where
/// the client of slot `i` is gone, and otherwise whether its queue is full.
/// The first client whose queue is not full is chosen; where there is none,
/// the client of the first slot, if it is there.
pub fn select_client(slots: &Vec<Option<bool>>) -> (r: Option<usize>)
    ensures
        match first_available(slots@) {
            Some(i) => r is Some && r->0 == i,
            None => if slots@.len() > 0 && slots@[0] is Some {
                r == Some(0usize)
            } else {
                r is None
            },
        },
{
    let mut i: usize = 0;
    while i < slots.len()
        invariant
            i <= slots.len(),
            forall|j: int| 0 <= j < i ==> #[trigger] slots@[j] != Some(false),
        decreases slots.len() - i,
    {
        if slots[i] == Some(false) {
            proof {
                lemma_first_available(slots@);
                match first_available(slots@) {
                    Some(k) => {
                        if k < i {
                            assert(slots@[k] != Some(false));
                        }
                        if k > i {
                            assert(slots@[i as int] != Some(false));
                        }
                    },
                    None => {
                        assert(slots@[i as int] != Some(false));
                    },
                }
            }
            return Some(i);
        }
        i = i + 1;
    }
    proof {
        lemma_first_available(slots@);
        if first_available(slots@) is Some {
            let k: int = first_available(slots@)->0;
            assert(slots@[k] != Some(false));
        }
    }
    if slots.len() > 0 && slots[0].is_some() {
        Some(0)
    } else {
        None
    }
}

/// Whether the pool stops accepting clients, with `n_clients` accepted so far:
/// when it has more than 32 or a stop was asked for.
pub fn should_stop_accepting(n_clients: usize, stop_requested: bool) -> (r: bool)
    ensures
        r == (n_clients > MAX_CLIENTS || stop_requested),
{
    n_clients > MAX_CLIENTS || stop_requested
}

} // verus!
