//! Putting of frames together out of datagrams.
use crate::buffer::{bytes_slice, bytes_view};
use crate::chunked::DatagramChunk;
use crate::chunked::PieceModel;
use crate::packet::FrameTrace;
use bytes::Bytes;
use std::collections::HashMap;
use vstd::prelude::*;

verus! {

broadcast use vstd::std_specs::hash::group_hash_axioms;

/// Most frames that are put together at the same time.
pub const MAX_BUFFERED_FRAMES: usize = 8;

/// A frame of which not all pieces have come.
#[derive(Debug)]
pub struct ReassemblyBuf {
    chunks: Vec<Option<Bytes>>,
    received: u16,
    total: u16,
    is_key: bool,
    first_us: u64,
}

/// What a [`ReassemblyBuf`] holds: each piece, or that it has not come.
#[verifier::ext_equal]
pub struct BufModel {
    pub pieces: Seq<Option<Seq<u8>>>,
    pub is_key: bool,
    pub first_us: u64,
}

pub open spec fn piece_view(p: Option<Bytes>) -> Option<Seq<u8>> {
    match p {
        Some(b) => Some(bytes_view(b)),
        None => None,
    }
}

pub open spec fn piece_views(s: Seq<Option<Bytes>>) -> Seq<Option<Seq<u8>>> {
    Seq::new(s.len(), |i: int| piece_view(s[i]))
}

/// How many pieces have come.
pub open spec fn came(pieces: Seq<Option<Seq<u8>>>) -> nat
    decreases pieces.len(),
{
    if pieces.len() == 0 {
        0
    } else {
        came(pieces.drop_last()) + if pieces.last() is Some {
            1nat
        } else {
            0nat
        }
    }
}

/// All pieces have come.
pub open spec fn whole(pieces: Seq<Option<Seq<u8>>>) -> bool {
    forall|i: int| 0 <= i < pieces.len() ==> (#[trigger] pieces[i]) is Some
}

/// The pieces one behind the other.
pub open spec fn put_together(pieces: Seq<Option<Seq<u8>>>) -> Seq<u8>
    decreases pieces.len(),
{
    if pieces.len() == 0 {
        Seq::empty()
    } else {
        put_together(pieces.drop_last()) + pieces.last()->0
    }
}

/// The pieces with one more, unless it was there.
pub open spec fn with_piece(pieces: Seq<Option<Seq<u8>>>, i: int, data: Seq<u8>) -> Seq<
    Option<Seq<u8>>,
> {
    if pieces[i] is Some {
        pieces
    } else {
        pieces.update(i, Some(data))
    }
}

/// No piece has come.
pub open spec fn no_pieces(total: nat) -> Seq<Option<Seq<u8>>> {
    Seq::new(total, |i: int| None::<Seq<u8>>)
}

impl View for ReassemblyBuf {
    type V = BufModel;

    closed spec fn view(&self) -> BufModel {
        BufModel {
            pieces: piece_views(self.chunks@),
            is_key: self.is_key,
            first_us: self.first_us,
        }
    }
}

proof fn lemma_came_bound(pieces: Seq<Option<Seq<u8>>>)
    ensures
        came(pieces) <= pieces.len(),
        came(pieces) == pieces.len() <==> whole(pieces),
    decreases pieces.len(),
{
    if pieces.len() > 0 {
        let front = pieces.drop_last();
        lemma_came_bound(front);
        if whole(pieces) {
            assert forall|i: int| 0 <= i < front.len() implies (#[trigger] front[i]) is Some by {
                assert(pieces[i] is Some);
            }
            assert(pieces[pieces.len() - 1] is Some);
        }
        if came(pieces) == pieces.len() {
            assert forall|i: int| 0 <= i < pieces.len() implies (#[trigger] pieces[i]) is Some by {
                if i < front.len() {
                    assert(front[i] is Some);
                }
            }
        }
    }
}

proof fn lemma_came_update(pieces: Seq<Option<Seq<u8>>>, i: int, data: Seq<u8>)
    requires
        0 <= i < pieces.len(),
        pieces[i] is None,
    ensures
        came(pieces.update(i, Some(data))) == came(pieces) + 1,
    decreases pieces.len(),
{
    let now = pieces.update(i, Some(data));
    if i < pieces.len() - 1 {
        lemma_came_update(pieces.drop_last(), i, data);
        assert(now.drop_last() =~= pieces.drop_last().update(i, Some(data)));
    } else {
        assert(now.drop_last() =~= pieces.drop_last());
    }
}

proof fn lemma_came_none(total: nat)
    ensures
        came(no_pieces(total)) == 0,
    decreases total,
{
    if total > 0 {
        lemma_came_none((total - 1) as nat);
        assert(no_pieces(total).drop_last() =~= no_pieces((total - 1) as nat));
    }
}

impl ReassemblyBuf {
    /// The counts fit the pieces.
    pub closed spec fn valid(self) -> bool {
        &&& self.chunks@.len() == self.total
        &&& self.received == came(piece_views(self.chunks@))
    }

    /// A frame of which nothing has come.
    pub fn new(total_chunks: u16, is_key: bool, now_us: u64) -> (r: ReassemblyBuf)
        ensures
            r.valid(),
            r@ == (BufModel {
                pieces: no_pieces(total_chunks as nat),
                is_key,
                first_us: now_us,
            }),
    {
        let mut chunks: Vec<Option<Bytes>> = Vec::new();
        while chunks.len() < total_chunks as usize
            invariant
                chunks@.len() <= total_chunks,
                forall|i: int| 0 <= i < chunks@.len() ==> (#[trigger] chunks@[i]) is None,
            decreases total_chunks - chunks@.len(),
        {
            chunks.push(None);
        }
        proof {
            lemma_came_none(total_chunks as nat);
            assert(piece_views(chunks@) =~= no_pieces(total_chunks as nat));
        }
        ReassemblyBuf { chunks, received: 0, total: total_chunks, is_key, first_us: now_us }
    }

    /// Takes a piece in. Returns whether all have come.
    pub fn insert(&mut self, idx: u16, data: Bytes) -> (r: bool)
        requires
            old(self).valid(),
            idx < old(self)@.pieces.len(),
        ensures
            final(self).valid(),
            final(self)@ == (BufModel {
                pieces: with_piece(old(self)@.pieces, idx as int, bytes_view(data)),
                ..old(self)@
            }),
            r == whole(final(self)@.pieces),
    {
        let ghost before = piece_views(self.chunks@);
        proof {
            lemma_came_bound(before);
        }
        let empty: bool = match self.chunks[idx as usize] {
            Some(_) => false,
            None => true,
        };
        if empty {
            proof {
                lemma_came_update(before, idx as int, bytes_view(data));
                lemma_came_bound(before.update(idx as int, Some(bytes_view(data))));
            }
            let ghost d = bytes_view(data);
            self.chunks.set(idx as usize, Some(data));
            self.received = self.received + 1;
            assert(piece_views(self.chunks@) =~= before.update(idx as int, Some(d)));
        } else {
            assert(before[idx as int] is Some);
        }
        self.received == self.total
    }

    /// The pieces one behind the other.
    pub fn assemble(self) -> (r: Vec<u8>)
        requires
            self.valid(),
            whole(self@.pieces),
        ensures
            r@ == put_together(self@.pieces),
    {
        let ghost pieces = self@.pieces;
        let mut out: Vec<u8> = Vec::new();
        let mut i: usize = 0;
        while i < self.chunks.len()
            invariant
                i <= self.chunks@.len(),
                pieces == piece_views(self.chunks@),
                whole(pieces),
                out@ == put_together(pieces.take(i as int)),
            decreases self.chunks@.len() - i,
        {
            assert(pieces.take(i + 1).drop_last() =~= pieces.take(i as int));
            assert(pieces[i as int] is Some);
            let ghost before = out@;
            match &self.chunks[i] {
                Some(b) => {
                    let s = bytes_slice(b);
                    out.extend_from_slice(s);
                    assert(out@ =~= before + pieces[i as int]->0);
                },
                None => {},
            }
            i = i + 1;
        }
        assert(pieces.take(i as int) =~= pieces);
        out
    }
}

/// The frames of which not all pieces have come.
pub struct Reassembler {
    frames: HashMap<u64, ReassemblyBuf>,
}

impl View for Reassembler {
    type V = Map<u64, BufModel>;

    closed spec fn view(&self) -> Map<u64, BufModel> {
        self.frames@.map_values(|b: ReassemblyBuf| b@)
    }
}

/// The oldest frame that is kept when a piece of `frame_id` comes.
pub open spec fn horizon(frame_id: u64) -> int {
    if frame_id >= MAX_BUFFERED_FRAMES {
        frame_id - MAX_BUFFERED_FRAMES
    } else {
        0
    }
}

/// The frames without those that are too old.
pub open spec fn recent(frames: Map<u64, BufModel>, frame_id: u64) -> Map<u64, BufModel> {
    frames.remove_keys(Set::new(|id: u64| id < horizon(frame_id)))
}

/// The oldest frame.
pub open spec fn is_first(frames: Map<u64, BufModel>, id: u64) -> bool {
    frames.contains_key(id) && forall|other: u64| #[trigger] frames.contains_key(other) ==> id
        <= other
}

/// The frames without the oldest one, if there are too many.
pub open spec fn capped(frames: Map<u64, BufModel>) -> Map<u64, BufModel> {
    if frames.len() >= MAX_BUFFERED_FRAMES {
        frames.remove(choose|id: u64| is_first(frames, id))
    } else {
        frames
    }
}

/// The frames with a new one for the piece, if there was none.
pub open spec fn opened(frames: Map<u64, BufModel>, frame_id: u64, fresh: BufModel) -> Map<
    u64,
    BufModel,
> {
    if frames.contains_key(frame_id) {
        frames
    } else {
        frames.insert(frame_id, fresh)
    }
}

/// The frame with one more piece.
pub open spec fn filled(b: BufModel, i: int, data: Seq<u8>) -> BufModel {
    BufModel { pieces: with_piece(b.pieces, i, data), ..b }
}

/// After a piece: the serialised frame and when its first piece came, if it was the last
/// one, and what is still being put together.
pub open spec fn after_piece(frames: Map<u64, BufModel>, frame_id: u64, i: int, data: Seq<u8>) -> (
    Map<u64, BufModel>,
    Option<(Seq<u8>, u64)>,
) {
    let b = filled(frames[frame_id], i, data);
    if whole(b.pieces) {
        (frames.remove(frame_id), Some((put_together(b.pieces), b.first_us)))
    } else {
        (frames.insert(frame_id, b), None)
    }
}

/// A frame of which nothing has come.
pub open spec fn fresh_buf(total: u16, is_key: bool, now_us: u64) -> BufModel {
    BufModel { pieces: no_pieces(total as nat), is_key, first_us: now_us }
}

/// After a piece that has no mark: old frames go, and the oldest one if there are too many;
/// a piece that does not fit its frame is passed over.
pub open spec fn accepted(frames: Map<u64, BufModel>, p: PieceModel, now_us: u64) -> (
    Map<u64, BufModel>,
    Option<(Seq<u8>, u64)>,
) {
    let open = opened(
        capped(recent(frames, p.frame_id)),
        p.frame_id,
        fresh_buf(p.total_chunks, false, now_us),
    );
    let total = open[p.frame_id].pieces.len();
    if p.chunk_idx >= total || p.total_chunks != total {
        (open, None)
    } else {
        after_piece(open, p.frame_id, p.chunk_idx as int, p.data)
    }
}

/// The frames when a piece of a key frame comes: if it is the first one of a new frame, all
/// others go.
pub open spec fn key_cleared(frames: Map<u64, BufModel>, p: PieceModel, is_key: bool) -> Map<
    u64,
    BufModel,
> {
    if is_key && p.chunk_idx == 0 && !frames.contains_key(p.frame_id) {
        Map::empty()
    } else {
        frames
    }
}

/// The frames in which a marked piece is put.
pub open spec fn marked_frames(
    frames: Map<u64, BufModel>,
    p: PieceModel,
    is_key: bool,
    now_us: u64,
) -> Map<u64, BufModel> {
    opened(
        recent(key_cleared(frames, p, is_key), p.frame_id),
        p.frame_id,
        fresh_buf(p.total_chunks, is_key, now_us),
    )
}

/// After a piece that is marked as one of a key frame, or not: it is passed over if its own
/// numbers do not fit; the first piece of a new key frame makes all other frames go, and so
/// do old frames.
pub open spec fn accepted_marked(
    frames: Map<u64, BufModel>,
    p: PieceModel,
    is_key: bool,
    now_us: u64,
) -> (Map<u64, BufModel>, Option<(Seq<u8>, u64)>) {
    if p.chunk_idx >= p.total_chunks {
        (frames, None)
    } else {
        after_piece(
            marked_frames(frames, p, is_key, now_us),
            p.frame_id,
            p.chunk_idx as int,
            p.data,
        )
    }
}

pub open spec fn result_view(r: Option<(Vec<u8>, u64)>) -> Option<(Seq<u8>, u64)> {
    match r {
        Some(p) => Some((p.0@, p.1)),
        None => None,
    }
}

impl Reassembler {
    pub closed spec fn valid(self) -> bool {
        &&& self.frames@.dom().finite()
        &&& forall|id: u64| #[trigger] self.frames@.contains_key(id) ==> self.frames@[id].valid()
    }

    /// Nothing has come.
    pub fn new() -> (r: Reassembler)
        ensures
            r.valid(),
            r@ == Map::<u64, BufModel>::empty(),
    {
        let r = Reassembler { frames: HashMap::new() };
        assert(r@ =~= Map::<u64, BufModel>::empty());
        r
    }

    /// The numbers of the frames.
    fn ids(&self) -> (r: Vec<u64>)
        ensures
            forall|x: u64| #[trigger] self@.contains_key(x) <==> r@.contains(x),
    {
        let mut out: Vec<u64> = Vec::new();
        for id in it: self.frames.keys()
            invariant
                it.seq().unref().to_set() == self.frames@.dom(),
                out@ == it.seq().unref().take(it.index()),
                forall|x: u64| #[trigger]
                    self.frames@.dom().contains(x) ==> out@.contains(x) || exists|i: int|
                        it.index() <= i < it.seq().len() && #[trigger] it.seq().unref()[i] == x,
                forall|x: u64| #[trigger] out@.contains(x) ==> self.frames@.dom().contains(x),
        {
            let ghost before = out@;
            let ghost all = it.seq().unref();
            assert(all.to_set().contains(all[it.index()]));
            out.push(*id);
            assert(out@ =~= all.take(it.index() + 1));
            assert forall|x: u64| #[trigger] self.frames@.dom().contains(x) implies out@.contains(x)
                || exists|i: int| it.index() + 1 <= i < it.seq().len() && #[trigger] all[i] == x by {
                if before.contains(x) {
                    let i = choose|i: int| 0 <= i < before.len() && before[i] == x;
                    assert(out@[i] == x);
                } else {
                    let i = choose|i: int|
                        it.index() <= i < it.seq().len() && #[trigger] all[i] == x;
                    if i == it.index() {
                        assert(out@[before.len() as int] == x);
                    }
                }
            }
            assert forall|x: u64| #[trigger] out@.contains(x) implies self.frames@.dom().contains(
                x,
            ) by {
                let i = choose|i: int| 0 <= i < out@.len() && out@[i] == x;
                if i < before.len() {
                    assert(before[i] == x);
                }
            }
        }
        assert(self@.dom() =~= self.frames@.dom());
        out
    }

    /// Lets frames go that are too old.
    fn drop_old(&mut self, frame_id: u64)
        requires
            old(self).valid(),
        ensures
            final(self).valid(),
            final(self)@ == recent(old(self)@, frame_id),
    {
        let ghost start = self@;
        let least: u64 = frame_id.saturating_sub(MAX_BUFFERED_FRAMES as u64);
        let ids: Vec<u64> = self.ids();
        let ghost mut gone: Set<u64> = Set::empty();
        let mut i: usize = 0;
        assert(start.remove_keys(gone) =~= start);
        while i < ids.len()
            invariant
                i <= ids@.len(),
                self.valid(),
                least == horizon(frame_id),
                self@ == start.remove_keys(gone),
                forall|x: u64| #[trigger]
                    gone.contains(x) <==> x < least && exists|j: int|
                        0 <= j < i && #[trigger] ids@[j] == x,
            decreases ids@.len() - i,
        {
            let id: u64 = ids[i];
            let ghost before = gone;
            let ghost now = self@;
            if id < least {
                self.frames.remove(&id);
                proof {
                    gone = gone.insert(id);
                    assert(self@ =~= now.remove(id));
                    assert(self@ =~= start.remove_keys(gone));
                }
            }
            i = i + 1;
            proof {
                assert forall|x: u64| #[trigger] gone.contains(x) <==> x < least && exists|j: int|
                    0 <= j < i && #[trigger] ids@[j] == x by {
                    if x == id {
                        assert(ids@[i - 1] == x);
                    }
                    if before.contains(x) {
                        let j = choose|j: int| 0 <= j < i - 1 && #[trigger] ids@[j] == x;
                        assert(ids@[j] == x);
                    }
                }
            }
        }
        proof {
            let old_ids = Set::new(|id: u64| id < horizon(frame_id));
            assert(start.remove_keys(gone) =~= start.remove_keys(old_ids)) by {
                assert forall|x: u64| start.contains_key(x) implies gone.contains(x)
                    == old_ids.contains(x) by {
                    assert(ids@.contains(x));
                    let j = choose|j: int| 0 <= j < ids@.len() && ids@[j] == x;
                    assert(ids@[j] == x);
                }
            }
        }
    }

    /// Lets the oldest frame go if there are too many.
    fn cap(&mut self)
        requires
            old(self).valid(),
        ensures
            final(self).valid(),
            final(self)@ == capped(old(self)@),
    {
        let ghost start = self@;
        assert(start.dom() =~= self.frames@.dom());
        if self.frames.len() >= MAX_BUFFERED_FRAMES {
            let ids: Vec<u64> = self.ids();
            proof {
                let some = start.dom().choose();
                vstd::set_lib::lemma_set_empty_equivalency_len(start.dom());
                assert(start.contains_key(some));
                assert(ids@.contains(some));
            }
            let mut first: u64 = ids[0];
            let mut i: usize = 1;
            while i < ids.len()
                invariant
                    1 <= i <= ids@.len(),
                    exists|j: int| 0 <= j < i && #[trigger] ids@[j] == first,
                    forall|j: int| 0 <= j < i ==> first <= #[trigger] ids@[j],
                decreases ids@.len() - i,
            {
                if ids[i] < first {
                    first = ids[i];
                    assert(ids@[i as int] == first);
                }
                i = i + 1;
            }
            proof {
                let j = choose|j: int| 0 <= j < i && #[trigger] ids@[j] == first;
                assert(ids@.contains(first));
                assert(start.contains_key(first));
                assert forall|other: u64| #[trigger] start.contains_key(other) implies first
                    <= other by {
                    assert(ids@.contains(other));
                    let k = choose|k: int| 0 <= k < ids@.len() && ids@[k] == other;
                    assert(first <= ids@[k]);
                }
                assert(is_first(start, first));
                let chosen = choose|id: u64| is_first(start, id);
                assert(is_first(start, chosen));
            }
            self.frames.remove(&first);
            assert(self@ =~= start.remove(first));
        }
    }

    /// Begins a frame if there is none of this number.
    fn open(&mut self, frame_id: u64, total: u16, is_key: bool, now_us: u64)
        requires
            old(self).valid(),
        ensures
            final(self).valid(),
            final(self)@ == opened(old(self)@, frame_id, fresh_buf(total, is_key, now_us)),
    {
        let ghost start = self@;
        if !self.frames.contains_key(&frame_id) {
            let buf = ReassemblyBuf::new(total, is_key, now_us);
            self.frames.insert(frame_id, buf);
            assert(self@ =~= start.insert(frame_id, fresh_buf(total, is_key, now_us)));
        }
    }

    /// Puts a piece into its frame.
    fn put(&mut self, frame_id: u64, idx: u16, data: Bytes) -> (r: Option<(Vec<u8>, u64)>)
        requires
            old(self).valid(),
            old(self)@.contains_key(frame_id),
            idx < old(self)@[frame_id].pieces.len(),
        ensures
            final(self).valid(),
            (final(self)@, result_view(r)) == after_piece(
                old(self)@,
                frame_id,
                idx as int,
                bytes_view(data),
            ),
    {
        let ghost start = self@;
        let ghost d = bytes_view(data);
        match self.frames.remove(&frame_id) {
            Some(mut buf) => {
                assert(self@ =~= start.remove(frame_id));
                if buf.insert(idx, data) {
                    let first_us: u64 = buf.first_us;
                    Some((buf.assemble(), first_us))
                } else {
                    self.frames.insert(frame_id, buf);
                    assert(self@ =~= start.insert(frame_id, filled(start[frame_id], idx as int, d)));
                    None
                }
            },
            None => None,
        }
    }

    /// Takes a piece in. Returns the serialised frame and when its first piece came, if this
    /// was the last one.
    pub fn accept(&mut self, chunk: DatagramChunk, now_us: u64) -> (r: Option<(Vec<u8>, u64)>)
        requires
            old(self).valid(),
        ensures
            final(self).valid(),
            (final(self)@, result_view(r)) == accepted(old(self)@, chunk@, now_us),
    {
        self.drop_old(chunk.frame_id);
        self.cap();
        self.open(chunk.frame_id, chunk.total_chunks, false, now_us);
        let total: u16 = self.total_of(chunk.frame_id);
        if chunk.chunk_idx >= total || chunk.total_chunks != total {
            return None;
        }
        self.put(chunk.frame_id, chunk.chunk_idx, chunk.data)
    }

    /// How many pieces a frame has.
    fn total_of(&self, frame_id: u64) -> (r: u16)
        requires
            self.valid(),
            self@.contains_key(frame_id),
        ensures
            r == self@[frame_id].pieces.len(),
    {
        match self.frames.get(&frame_id) {
            Some(b) => b.total,
            None => 0,
        }
    }

    /// Takes a piece in that is marked as one of a key frame, or not. Returns the serialised
    /// frame and when its first piece came, if this was the last one.
    pub fn accept_marked(&mut self, chunk: DatagramChunk, is_key: bool, now_us: u64) -> (r: Option<
        (Vec<u8>, u64),
    >)
        requires
            old(self).valid(),
            chunk@.chunk_idx < chunk@.total_chunks ==> chunk@.chunk_idx < marked_frames(
                old(self)@,
                chunk@,
                is_key,
                now_us,
            )[chunk@.frame_id].pieces.len(),
        ensures
            final(self).valid(),
            (final(self)@, result_view(r)) == accepted_marked(old(self)@, chunk@, is_key, now_us),
    {
        if chunk.chunk_idx >= chunk.total_chunks {
            return None;
        }
        if is_key && chunk.chunk_idx == 0 && !self.frames.contains_key(&chunk.frame_id) {
            self.frames = HashMap::new();
            assert(self@ =~= Map::<u64, BufModel>::empty());
        }
        self.drop_old(chunk.frame_id);
        self.open(chunk.frame_id, chunk.total_chunks, is_key, now_us);
        self.put(chunk.frame_id, chunk.chunk_idx, chunk.data)
    }
}

/// The trace of a frame that was put together: when its first piece came and when it was
/// whole.
pub open spec fn reassembled_trace(trace: Option<FrameTrace>, first_us: u64, now_us: u64) -> Option<
    FrameTrace,
> {
    match trace {
        Some(t) => Some(FrameTrace { receive_us: first_us, reassembled_us: now_us, ..t }),
        None => None,
    }
}

/// Notes in the trace of a frame when its first piece came and when it was whole.
pub fn stamp_reassembled(trace: Option<FrameTrace>, first_us: u64, now_us: u64) -> (r: Option<
    FrameTrace,
>)
    ensures
        r == reassembled_trace(trace, first_us, now_us),
{
    match trace {
        Some(mut t) => {
            t.receive_us = first_us;
            t.reassembled_us = now_us;
            Some(t)
        },
        None => None,
    }
}

} // verus!
