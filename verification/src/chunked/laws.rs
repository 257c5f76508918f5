//! A frame that was cut into pieces is put together again.
use crate::chunked::reassembly::{
    accepted, accepted_marked, capped, filled, fresh_buf, is_first, no_pieces, opened,
    put_together, recent, whole, with_piece, BufModel, MAX_BUFFERED_FRAMES,
};
use crate::chunked::sender::{chunk_room, frame_datagrams, lemma_piece_bounds, piece, piece_count};
use crate::chunked::{law_piece_fields_have_their_places, PieceModel};
use vstd::prelude::*;

verus! {

/// What a frame holds after pieces of `data` have come in some order, each perhaps more than
/// once.
pub open spec fn after_pieces(data: Seq<u8>, max: nat, order: Seq<u16>) -> Seq<Option<Seq<u8>>>
    decreases order.len(),
{
    if order.len() == 0 {
        no_pieces(piece_count(data.len(), max))
    } else {
        with_piece(
            after_pieces(data, max, order.drop_last()),
            order.last() as int,
            piece(data, max, order.last() as int),
        )
    }
}

/// Each piece that has come is there as it was sent, and no other.
proof fn lemma_after_pieces(data: Seq<u8>, max: nat, order: Seq<u16>)
    requires
        max > 0,
        forall|i: int|
            0 <= i < order.len() ==> (#[trigger] order[i]) < piece_count(data.len(), max),
    ensures
        after_pieces(data, max, order).len() == piece_count(data.len(), max),
        forall|i: int|
            0 <= i < piece_count(data.len(), max) ==> (#[trigger] after_pieces(
                data,
                max,
                order,
            )[i]) == if order.contains(i as u16) && i <= u16::MAX {
                Some(piece(data, max, i))
            } else {
                None
            },
    decreases order.len(),
{
    let n = piece_count(data.len(), max);
    if order.len() > 0 {
        let front = order.drop_last();
        assert forall|i: int| 0 <= i < front.len() implies (#[trigger] front[i]) < n by {
            assert(front[i] == order[i]);
        }
        lemma_after_pieces(data, max, front);
        let last = order.last();
        assert(last == order[order.len() - 1]);
        let now = after_pieces(data, max, order);
        assert forall|i: int| 0 <= i < n implies (#[trigger] now[i]) == if order.contains(i as u16)
            && i <= u16::MAX {
            Some(piece(data, max, i))
        } else {
            None
        } by {
            let x = i as u16;
            if i <= u16::MAX {
                if front.contains(x) {
                    let k = choose|k: int| 0 <= k < front.len() && front[k] == x;
                    assert(order[k] == x);
                }
                if order.contains(x) && x != last {
                    let k = choose|k: int| 0 <= k < order.len() && order[k] == x;
                    assert(front[k] == x);
                }
                if x == last {
                    assert(order[order.len() - 1] == x);
                }
            }
        }
    }
}

/// The first `n` pieces are the beginning of the data.
proof fn lemma_pieces_are_prefix(data: Seq<u8>, max: nat, pieces: Seq<Option<Seq<u8>>>, n: nat)
    requires
        max > 0,
        n <= pieces.len(),
        pieces.len() == piece_count(data.len(), max),
        forall|i: int| 0 <= i < pieces.len() ==> (#[trigger] pieces[i]) == Some(piece(data, max, i)),
    ensures
        n * max <= data.len() || n == pieces.len(),
        put_together(pieces.take(n as int)) == data.take(
            if n * max < data.len() {
                (n * max) as int
            } else {
                data.len() as int
            },
        ),
    decreases n,
{
    if n == 0 {
        assert(0 * max == 0) by (nonlinear_arith);
        assert(data.take(0) =~= Seq::<u8>::empty());
        assert(pieces.take(0) =~= Seq::<Option<Seq<u8>>>::empty());
    } else {
        let k = (n - 1) as nat;
        lemma_pieces_are_prefix(data, max, pieces, k);
        lemma_piece_bounds(data.len(), max, k);
        lemma_piece_bounds(data.len(), max, n);
        assert(k * max + max == n * max) by (nonlinear_arith)
            requires
                n == k + 1,
        ;
        assert(pieces.take(n as int).drop_last() =~= pieces.take(k as int));
        assert(pieces.take(n as int).last() == pieces[k as int]);
        let end = if n * max < data.len() {
            (n * max) as int
        } else {
            data.len() as int
        };
        assert(data.take(end) =~= data.take((k * max) as int) + piece(data, max, k as int));
    }
}

/// Once all pieces of a frame have come, in whatever order and however often, the frame is
/// whole and the data is what was sent.
pub proof fn law_pieces_make_the_frame(data: Seq<u8>, max: nat, order: Seq<u16>)
    requires
        max > 0,
        piece_count(data.len(), max) <= u16::MAX,
        forall|i: int|
            0 <= i < order.len() ==> (#[trigger] order[i]) < piece_count(data.len(), max),
        forall|i: u16| i < piece_count(data.len(), max) ==> #[trigger] order.contains(i),
    ensures
        whole(after_pieces(data, max, order)),
        put_together(after_pieces(data, max, order)) == data,
{
    let n = piece_count(data.len(), max);
    let pieces = after_pieces(data, max, order);
    lemma_after_pieces(data, max, order);
    assert forall|i: int| 0 <= i < n implies (#[trigger] pieces[i]) == Some(piece(data, max, i)) by {
        assert(order.contains(i as u16));
    }
    lemma_pieces_are_prefix(data, max, pieces, n);
    lemma_piece_bounds(data.len(), max, n);
    assert(pieces.take(n as int) =~= pieces);
    assert(data.take(data.len() as int) =~= data);
}

/// While a piece is missing the frame is not whole.
pub proof fn law_missing_piece_holds_the_frame_back(
    data: Seq<u8>,
    max: nat,
    order: Seq<u16>,
    missing: u16,
)
    requires
        max > 0,
        forall|i: int|
            0 <= i < order.len() ==> (#[trigger] order[i]) < piece_count(data.len(), max),
        missing < piece_count(data.len(), max),
        !order.contains(missing),
    ensures
        !whole(after_pieces(data, max, order)),
{
    lemma_after_pieces(data, max, order);
    assert(after_pieces(data, max, order)[missing as int] is None);
}

/// The frames keep within their bound, whatever comes.
pub proof fn law_frames_are_bounded(frames: Map<u64, BufModel>, p: PieceModel, now_us: u64)
    requires
        frames.dom().finite(),
        frames.len() <= MAX_BUFFERED_FRAMES,
    ensures
        accepted(frames, p, now_us).0.dom().finite(),
        accepted(frames, p, now_us).0.len() <= MAX_BUFFERED_FRAMES,
{
    let kept = recent(frames, p.frame_id);
    assert(kept.dom().subset_of(frames.dom()));
    vstd::set_lib::lemma_len_subset(kept.dom(), frames.dom());
    let few = capped(kept);
    if kept.len() >= MAX_BUFFERED_FRAMES {
        lemma_has_first(kept);
    }
    assert(few.dom().finite() && few.len() < MAX_BUFFERED_FRAMES);
}

/// Where there are frames one is the oldest.
proof fn lemma_has_first(frames: Map<u64, BufModel>)
    requires
        frames.dom().finite(),
        frames.len() > 0,
    ensures
        exists|id: u64| is_first(frames, id),
    decreases frames.len(),
{
    let some = frames.dom().choose();
    vstd::set_lib::lemma_set_empty_equivalency_len(frames.dom());
    assert(frames.contains_key(some));
    let rest = frames.remove(some);
    if rest.len() == 0 {
        vstd::set_lib::lemma_set_empty_equivalency_len(rest.dom());
        assert forall|other: u64| #[trigger] frames.contains_key(other) implies some <= other by {
            if other != some {
                assert(rest.dom().contains(other));
            }
        }
        assert(is_first(frames, some));
    } else {
        lemma_has_first(rest);
        let least = choose|id: u64| is_first(rest, id);
        let first = if least < some {
            least
        } else {
            some
        };
        assert forall|other: u64| #[trigger] frames.contains_key(other) implies first <= other by {
            if other != some {
                assert(rest.contains_key(other));
            }
        }
        assert(is_first(frames, first));
    }
}

/// Piece `i` of a frame as it is sent.
pub open spec fn sent_piece(frame_id: u64, data: Seq<u8>, max: nat, i: u16) -> PieceModel {
    PieceModel {
        frame_id,
        chunk_idx: i,
        total_chunks: piece_count(data.len(), max) as u16,
        data: piece(data, max, i as int),
    }
}

/// What the receiver holds and hands out after pieces of a frame have come at the given
/// times, with nothing before them.
pub open spec fn after_arrivals(
    frame_id: u64,
    data: Seq<u8>,
    max: nat,
    order: Seq<u16>,
    times: Seq<u64>,
) -> (Map<u64, BufModel>, Option<(Seq<u8>, u64)>)
    decreases order.len(),
{
    if order.len() == 0 {
        (Map::empty(), None)
    } else {
        accepted(
            after_arrivals(frame_id, data, max, order.drop_last(), times).0,
            sent_piece(frame_id, data, max, order.last()),
            times[order.len() - 1],
        )
    }
}

/// While a piece is missing the receiver holds this frame and hands nothing out.
proof fn lemma_arrivals(
    frame_id: u64,
    data: Seq<u8>,
    max: nat,
    order: Seq<u16>,
    times: Seq<u64>,
    missing: u16,
)
    requires
        max > 0,
        piece_count(data.len(), max) <= u16::MAX,
        order.len() > 0,
        forall|i: int|
            0 <= i < order.len() ==> (#[trigger] order[i]) < piece_count(data.len(), max),
        missing < piece_count(data.len(), max),
        !order.contains(missing),
    ensures
        after_arrivals(frame_id, data, max, order, times) == (
            Map::<u64, BufModel>::empty().insert(
                frame_id,
                BufModel {
                    pieces: after_pieces(data, max, order),
                    is_key: false,
                    first_us: times[0],
                },
            ),
            None::<(Seq<u8>, u64)>,
        ),
    decreases order.len(),
{
    let front = order.drop_last();
    let n = piece_count(data.len(), max);
    let now = times[order.len() - 1];
    let p = sent_piece(frame_id, data, max, order.last());
    assert(order.last() == order[order.len() - 1]);
    assert forall|i: int| 0 <= i < front.len() implies (#[trigger] front[i]) < n by {
        assert(front[i] == order[i]);
    }
    lemma_after_pieces(data, max, front);
    law_missing_piece_holds_the_frame_back(data, max, order, missing);
    let before = after_arrivals(frame_id, data, max, front, times).0;
    let b = BufModel { pieces: after_pieces(data, max, front), is_key: false, first_us: times[0] };
    if front.len() == 0 {
        assert(recent(before, frame_id) =~= before);
        assert(capped(before) =~= before);
        assert(b =~= fresh_buf(p.total_chunks, false, now));
    } else {
        assert forall|i: int| 0 <= i < front.len() implies front[i] != missing by {
            assert(order[i] == front[i]);
        }
        lemma_arrivals(frame_id, data, max, front, times, missing);
        assert(recent(before, frame_id) =~= before);
        assert(before.dom() =~= set![frame_id]);
        assert(capped(before) =~= before);
    }
    let open = opened(before, frame_id, fresh_buf(p.total_chunks, false, now));
    assert(open =~= Map::<u64, BufModel>::empty().insert(frame_id, b));
    let full = filled(b, order.last() as int, p.data);
    assert(open.insert(frame_id, full) =~= Map::<u64, BufModel>::empty().insert(frame_id, full));
}

/// A frame that is sent comes out whole with the last of its pieces, in whatever order they
/// come, with the time of the first one; the receiver then holds nothing of it.
pub proof fn law_frame_comes_out_with_its_last_piece(
    frame_id: u64,
    data: Seq<u8>,
    max: nat,
    order: Seq<u16>,
    times: Seq<u64>,
)
    requires
        max > 0,
        data.len() > 0,
        piece_count(data.len(), max) <= u16::MAX,
        order.no_duplicates(),
        forall|i: int|
            0 <= i < order.len() ==> (#[trigger] order[i]) < piece_count(data.len(), max),
        forall|i: u16| i < piece_count(data.len(), max) ==> #[trigger] order.contains(i),
        times.len() == order.len(),
    ensures
        after_arrivals(frame_id, data, max, order, times) == (
            Map::<u64, BufModel>::empty(),
            Some((data, times[0])),
        ),
{
    let front = order.drop_last();
    let n = piece_count(data.len(), max);
    lemma_piece_bounds(data.len(), max, 0);
    assert(n > 0);
    assert(order.contains(0u16));
    let last = order.last();
    let now = times[order.len() - 1];
    let p = sent_piece(frame_id, data, max, last);
    assert(last == order[order.len() - 1]);
    assert(!front.contains(last)) by {
        if front.contains(last) {
            let k = choose|k: int| 0 <= k < front.len() && front[k] == last;
            assert(order[k] == last);
        }
    }
    assert forall|i: int| 0 <= i < front.len() implies (#[trigger] front[i]) < n by {
        assert(front[i] == order[i]);
    }
    lemma_after_pieces(data, max, front);
    law_pieces_make_the_frame(data, max, order);
    let before = after_arrivals(frame_id, data, max, front, times).0;
    let b = BufModel { pieces: after_pieces(data, max, front), is_key: false, first_us: times[0] };
    if front.len() == 0 {
        assert(recent(before, frame_id) =~= before);
        assert(capped(before) =~= before);
        assert(b =~= fresh_buf(p.total_chunks, false, now));
    } else {
        lemma_arrivals(frame_id, data, max, front, times, last);
        assert(recent(before, frame_id) =~= before);
        assert(before.dom() =~= set![frame_id]);
        assert(capped(before) =~= before);
    }
    let open = opened(before, frame_id, fresh_buf(p.total_chunks, false, now));
    assert(open =~= Map::<u64, BufModel>::empty().insert(frame_id, b));
    assert(open.remove(frame_id) =~= Map::<u64, BufModel>::empty());
}

/// Another frame stays as it is when a piece comes, unless it is more than eight before that
/// of the piece, or is the oldest one and there are eight or more.
pub proof fn law_other_frames_stay(frames: Map<u64, BufModel>, p: PieceModel, now_us: u64, id: u64)
    requires
        frames.dom().finite(),
        frames.contains_key(id),
        id != p.frame_id,
    ensures
        ({
            let after = accepted(frames, p, now_us).0;
            &&& after.contains_key(id) ==> after[id] == frames[id]
            &&& id + 8 < p.frame_id ==> !after.contains_key(id)
            &&& id + 8 >= p.frame_id && frames.len() < 8 ==> after.contains_key(id)
            &&& id + 8 >= p.frame_id && (exists|x: u64| #[trigger]
                frames.contains_key(x) && x < id && x + 8 >= p.frame_id) ==> after.contains_key(id)
        }),
{
    let kept = recent(frames, p.frame_id);
    assert(kept.dom().subset_of(frames.dom()));
    vstd::set_lib::lemma_len_subset(kept.dom(), frames.dom());
    if kept.len() >= MAX_BUFFERED_FRAMES {
        lemma_has_first(kept);
        let first = choose|x: u64| is_first(kept, x);
        if exists|x: u64| #[trigger] frames.contains_key(x) && x < id && x + 8 >= p.frame_id {
            let x = choose|x: u64| #[trigger]
                frames.contains_key(x) && x < id && x + 8 >= p.frame_id;
            assert(kept.contains_key(x));
            assert(first <= x);
        }
    }
}

/// A piece that is marked goes into its frame if its number is one of the frame's. The first
/// piece of a new key frame leaves no other frame; any other piece leaves those that are at
/// most eight before its own.
pub proof fn law_key_frame_leaves_no_other(
    frames: Map<u64, BufModel>,
    p: PieceModel,
    is_key: bool,
    now_us: u64,
    id: u64,
)
    requires
        frames.contains_key(id),
        id != p.frame_id,
    ensures
        ({
            let after = accepted_marked(frames, p, is_key, now_us).0;
            let begins = is_key && p.chunk_idx == 0 && !frames.contains_key(p.frame_id);
            &&& p.chunk_idx >= p.total_chunks ==> after == frames && accepted_marked(
                frames,
                p,
                is_key,
                now_us,
            ).1 is None
            &&& p.chunk_idx < p.total_chunks ==> (after.contains_key(id) <==> !begins && id + 8
                >= p.frame_id)
            &&& after.contains_key(id) ==> after[id] == frames[id]
        }),
{
}

/// A new frame is marked as its first piece was, and is dated when that came.
pub proof fn law_new_frame_is_dated(
    frames: Map<u64, BufModel>,
    p: PieceModel,
    is_key: bool,
    now_us: u64,
)
    requires
        !frames.contains_key(p.frame_id),
        p.chunk_idx < p.total_chunks,
        p.total_chunks > 1,
    ensures
        ({
            let (after, out) = accepted_marked(frames, p, is_key, now_us);
            &&& out is None
            &&& after.contains_key(p.frame_id)
            &&& after[p.frame_id].is_key == is_key
            &&& after[p.frame_id].first_us == now_us
            &&& after[p.frame_id].pieces.len() == p.total_chunks
            &&& after[p.frame_id].pieces[p.chunk_idx as int] == Some(p.data)
        }),
{
    let b = filled(fresh_buf(p.total_chunks, is_key, now_us), p.chunk_idx as int, p.data);
    let other = if p.chunk_idx == 0 {
        1int
    } else {
        0int
    };
    assert(b.pieces[other] is None);
    assert(!whole(b.pieces));
}

/// The datagrams of a frame fit: with its header each leaves eight bytes of the size that a
/// datagram may have, 1200 where nothing is known of it, and all but the last are as large as
/// that. They are numbered from zero on, and each tells how many there are.
pub proof fn law_datagrams_fit(frame_id: u64, data: Seq<u8>, datagram: Option<usize>, i: int)
    requires
        datagram matches Some(n) ==> n > 20,
        piece_count(data.len(), chunk_room(datagram) as nat) <= u16::MAX,
        0 <= i < piece_count(data.len(), chunk_room(datagram) as nat),
    ensures
        ({
            let all = frame_datagrams(frame_id, data, chunk_room(datagram) as nat);
            let size = match datagram {
                Some(n) => n as int,
                None => 1200,
            };
            &&& all[i].frame_id == frame_id
            &&& all[i].chunk_idx == i
            &&& all[i].total_chunks == all.len()
            &&& 12 < all[i].wire().len() <= size - 8
            &&& i + 1 < all.len() ==> all[i].wire().len() == size - 8
        }),
{
    let room = chunk_room(datagram) as nat;
    let all = frame_datagrams(frame_id, data, room);
    lemma_piece_bounds(data.len(), room, i as nat);
    lemma_piece_bounds(data.len(), room, (i + 1) as nat);
    assert((i + 1) * room == i * room + room) by (nonlinear_arith);
    assert(i * room >= 0) by (nonlinear_arith)
        requires
            i >= 0,
    ;
    law_piece_fields_have_their_places(all[i]);
}

} // verus!
