//! Cutting assembled trace data into pieces that decode on their own.
use vstd::prelude::*;

verus! {

/// `offsets` never decreases and stays within `len`.
pub open spec fn sync_points_ok(offsets: Seq<usize>, len: int) -> bool {
    &&& forall|i: int, j: int| 0 <= i <= j < offsets.len() ==> offsets[i] <= offsets[j]
    &&& forall|i: int| 0 <= i < offsets.len() ==> #[trigger] offsets[i] <= len
}

/// What is kept of `data` after the pieces are cut: from the last sync point
/// on, where that point is past the start; all of `data` otherwise.
pub open spec fn kept_tail(data: Seq<u8>, offsets: Seq<usize>) -> Seq<u8> {
    if offsets.len() > 0 && offsets.last() > 0 {
        data.subrange(offsets.last() as int, data.len() as int)
    } else {
        data
    }
}

/// Cuts `data` at the sync points `offsets` (positions where decoding can
/// start): the pieces are the data between each two consecutive sync points,
/// in order, and `data` becomes what follows the last sync point, which the
/// next trace data will complete. Data before the first sync point is dropped
/// with the first piece cut.
pub fn cut_at_sync_points(data: &mut Vec<u8>, offsets: &Vec<usize>) -> (pieces: Vec<Vec<u8>>)
    requires
        sync_points_ok(offsets@, old(data)@.len() as int),
    ensures
        offsets@.len() == 0 ==> pieces@.len() == 0,
        offsets@.len() > 0 ==> pieces@.len() == offsets@.len() - 1,
        forall|k: int| 0 <= k < pieces@.len() ==> #[trigger] pieces@[k]@ == old(data)@.subrange(
            offsets@[k] as int,
            offsets@[k + 1] as int,
        ),
        final(data)@ == kept_tail(old(data)@, offsets@),
{
    let mut pieces: Vec<Vec<u8>> = Vec::new();
    if offsets.len() == 0 {
        return pieces;
    }
    let mut last_offset: usize = offsets[0];
    let mut k: usize = 1;
    while k < offsets.len()
        invariant
            1 <= k <= offsets@.len(),
            sync_points_ok(offsets@, data@.len() as int),
            last_offset == offsets@[k - 1],
            pieces@.len() == k - 1,
            forall|m: int| 0 <= m < pieces@.len() ==> #[trigger] pieces@[m]@ == data@.subrange(
                offsets@[m] as int,
                offsets@[m + 1] as int,
            ),
        decreases offsets@.len() - k,
    {
        let offset: usize = offsets[k];
        let piece = slice_to_vec(data, last_offset, offset);
        pieces.push(piece);
        last_offset = offset;
        k = k + 1;
    }
    let end_offset: usize = offsets[offsets.len() - 1];
    if end_offset > 0 {
        let len: usize = data.len();
        let tail = slice_to_vec(data, end_offset, len);
        *data = tail;
    }
    pieces
}

/// Nothing after the first sync point is lost: the pieces, in order, followed
/// by what is kept, are the data from the first sync point on.
pub proof fn lemma_cut_keeps_everything(data: Seq<u8>, offsets: Seq<usize>, pieces: Seq<Seq<u8>>)
    requires
        sync_points_ok(offsets, data.len() as int),
        offsets.len() > 0,
        pieces.len() == offsets.len() - 1,
        forall|k: int| 0 <= k < pieces.len() ==> #[trigger] pieces[k] == data.subrange(
            offsets[k] as int,
            offsets[k + 1] as int,
        ),
    ensures
        pieces.flatten() + kept_tail(data, offsets) == data.subrange(offsets[0] as int, data.len() as int),
{
    lemma_pieces_span(data, offsets, pieces);
    let last: int = offsets.last() as int;
    if last > 0 {
        assert(pieces.flatten() + data.subrange(last, data.len() as int) =~= data.subrange(
            offsets[0] as int,
            data.len() as int,
        ));
    } else {
        assert(offsets[0] <= offsets.last());
        assert(pieces.flatten() =~= Seq::<u8>::empty());
        assert(data.subrange(0, data.len() as int) =~= data);
    }
}

/// The pieces together are the data from the first to the last sync point.
proof fn lemma_pieces_span(data: Seq<u8>, offsets: Seq<usize>, pieces: Seq<Seq<u8>>)
    requires
        sync_points_ok(offsets, data.len() as int),
        offsets.len() > 0,
        pieces.len() == offsets.len() - 1,
        forall|k: int| 0 <= k < pieces.len() ==> #[trigger] pieces[k] == data.subrange(
            offsets[k] as int,
            offsets[k + 1] as int,
        ),
    ensures
        pieces.flatten() == data.subrange(offsets[0] as int, offsets.last() as int),
    decreases pieces.len(),
{
    if pieces.len() == 0 {
        assert(data.subrange(offsets[0] as int, offsets.last() as int) =~= Seq::<u8>::empty());
    } else {
        let o2 = offsets.drop_last();
        let p2 = pieces.drop_last();
        assert forall|k: int| 0 <= k < p2.len() implies #[trigger] p2[k] == data.subrange(
            o2[k] as int,
            o2[k + 1] as int,
        ) by {
            assert(p2[k] == pieces[k]);
        }
        lemma_pieces_span(data, o2, p2);
        p2.lemma_flatten_push(pieces.last());
        assert(p2.push(pieces.last()) =~= pieces);
        let a: int = offsets[0] as int;
        let m: int = o2.last() as int;
        let b: int = offsets.last() as int;
        assert(offsets[offsets.len() - 2] <= offsets[offsets.len() - 1]);
        assert(offsets[0] <= offsets[offsets.len() - 2]);
        assert(data.subrange(a, m) + data.subrange(m, b) =~= data.subrange(a, b));
    }
}

/// Whether `offsets` may be handed to `cut_at_sync_points` for data of
/// length `len`: it never decreases and no offset passes `len`.
pub fn sync_points_fit(offsets: &Vec<usize>, len: usize) -> (r: bool)
    ensures
        r == sync_points_ok(offsets@, len as int),
{
    let mut i: usize = 0;
    while i < offsets.len()
        invariant
            i <= offsets@.len(),
            forall|a: int, b: int| 0 <= a <= b < i ==> offsets@[a] <= offsets@[b],
            forall|a: int| 0 <= a < i ==> #[trigger] offsets@[a] <= len,
        decreases offsets@.len() - i,
    {
        if offsets[i] > len {
            return false;
        }
        if i > 0 && offsets[i - 1] > offsets[i] {
            return false;
        }
        i = i + 1;
    }
    true
}

/// A copy of `data[from..to]`.
pub fn slice_to_vec(data: &Vec<u8>, from: usize, to: usize) -> (r: Vec<u8>)
    requires
        from <= to <= data@.len(),
    ensures
        r@ == data@.subrange(from as int, to as int),
{
    let mut r: Vec<u8> = Vec::new();
    let mut i: usize = from;
    while i < to
        invariant
            from <= i <= to <= data@.len(),
            r@ == data@.subrange(from as int, i as int),
        decreases to - i,
    {
        r.push(data[i]);
        proof {
            assert(data@.subrange(from as int, i + 1) =~= data@.subrange(from as int, i as int).push(data@[i as int]));
        }
        i = i + 1;
    }
    r
}

} // verus!
