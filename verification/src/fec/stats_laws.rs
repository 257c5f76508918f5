//! Laws of the counters, and of the frames that are passed.
use crate::fec::assembler::{window_start, AssemblerModel};
use crate::fec::stats::{no_stats, RecoveryStats};
use crate::fec::GroupRecovery;
use crate::packet::ChunkModel;
use vstd::prelude::*;

verus! {

/// The books balance: every chunk that was taken in was data or parity, at most these came
/// because they had been asked for, every frame that was skipped was lost in one of three
/// ways, and a frame that left in part was one that did not come in time.
pub open spec fn balanced(s: RecoveryStats) -> bool {
    &&& s.rx_chunks == s.rx_data_chunks + s.rx_parity_chunks
    &&& s.nack_recovered_chunks <= s.rx_chunks
    &&& s.hol_skips == s.frames_lost_evicted + s.frames_lost_timeout + s.frames_lost_out_of_window
    &&& s.partial <= s.frames_lost_timeout
    &&& s.fec_missing_data_shards <= s.total_lost_chunks
}

/// Whatever is counted, the books balance.
pub proof fn law_books_balance(
    s: RecoveryStats,
    chunk: ChunkModel,
    was_nacked: bool,
    zombie: bool,
    recovery: GroupRecovery,
    packets: int,
    failed: int,
    wasted: int,
    lost: int,
    now_us: u64,
    every_us: u64,
)
    requires
        balanced(s),
        s.room(0x2_0000),
        0 <= packets <= 256,
        0 <= failed <= 256,
        0 <= wasted <= 0xffff,
        0 <= lost <= 0xffff,
    ensures
        balanced(no_stats()),
        balanced(s.with_chunk(chunk, was_nacked, zombie)),
        balanced(s.with_frame_emitted(packets)),
        balanced(s.with_nack()),
        balanced(s.with_lost_evicted()),
        balanced(s.with_lost_timeout()),
        balanced(s.with_lost_out_of_window()),
        balanced(s.with_lost_timeout().with_partial()),
        balanced(s.with_recovery(recovery)),
        balanced(s.with_wasted(failed, wasted, lost)),
        balanced(s.after_log(now_us, every_us)),
{
}

/// A chunk counts by the bytes that it announces. One that comes too late counts as such
/// alone; another one counts as data when its number is below that of the data shards, as
/// parity else, and as an answer if it had been asked for.
pub proof fn law_chunks_are_counted(
    s: RecoveryStats,
    chunk: ChunkModel,
    was_nacked: bool,
    zombie: bool,
)
    requires
        s.room(0x2_0000),
    ensures
        ({
            let t = s.with_chunk(chunk, was_nacked, zombie);
            &&& t.rx_bytes - s.rx_bytes == chunk.payload_len
            &&& t.zombie_chunks - s.zombie_chunks == (if zombie {
                1int
            } else {
                0
            })
            &&& t.rx_data_chunks - s.rx_data_chunks == (if !zombie && chunk.shard_idx < chunk.k {
                1int
            } else {
                0
            })
            &&& t.rx_parity_chunks - s.rx_parity_chunks == (if !zombie && chunk.shard_idx
                >= chunk.k {
                1int
            } else {
                0
            })
            &&& t.nack_recovered_chunks - s.nack_recovered_chunks == (if !zombie && was_nacked {
                1int
            } else {
                0
            })
            &&& t.lost() == s.lost()
            &&& t.frames_emitted == s.frames_emitted
        }),
{
}

/// A group that has all its data counts as such; one that parity has completed counts as
/// recovered, and its missing shards as lost.
pub proof fn law_recoveries_are_counted(s: RecoveryStats, recovery: GroupRecovery)
    requires
        s.room(0x2_0000),
    ensures
        ({
            let t = s.with_recovery(recovery);
            match recovery {
                GroupRecovery::Direct => {
                    &&& t.direct_groups == s.direct_groups + 1
                    &&& t.fec_groups == s.fec_groups
                    &&& t.lost() == s.lost()
                },
                GroupRecovery::Fec { missing_data_shards, .. } => {
                    &&& t.fec_groups == s.fec_groups + 1
                    &&& t.direct_groups == s.direct_groups
                    &&& t.lost() == s.lost() + missing_data_shards
                },
            }
        }),
{
}

/// A report tells what was counted since the last one, and the counting begins anew; while no
/// report is due nothing is forgotten.
pub proof fn law_reports_tell_all(s: RecoveryStats, now_us: u64, every_us: u64)
    requires
        s.lost() <= u64::MAX,
        s.window_start_us != 0,
        now_us >= s.window_start_us,
    ensures
        s.is_due(now_us, every_us) <==> now_us >= s.window_start_us + every_us,
        s.is_due(now_us, every_us) ==> {
            let t = s.after_log(now_us, every_us);
            &&& t.window_start_us == now_us
            &&& t.lost() == 0
            &&& t.rx_bytes == 0
            &&& t.rx_chunks == 0
            &&& t.frames_emitted == 0
            &&& t.nacks_sent == 0
            &&& t.hol_skips == 0
        },
        !s.is_due(now_us, every_us) ==> s.after_log(now_us, every_us) == s,
        ({
            let r = s.report(now_us);
            &&& r.elapsed_us == now_us - s.window_start_us
            &&& r.rx_bytes == s.rx_bytes
            &&& r.rx_chunks == s.rx_chunks
            &&& r.frames_emitted == s.frames_emitted
            &&& r.nack_sent == s.nacks_sent
            &&& r.nack_recovery == s.nack_recovered_chunks
            &&& r.partial_slices == s.partial
            &&& r.direct == s.direct_groups
            &&& r.recovered == s.fec_groups
            &&& r.failed == s.fec_failed_groups
            &&& r.evicted == s.frames_lost_evicted
            &&& r.timeout == s.frames_lost_timeout
            &&& r.oow == s.frames_lost_out_of_window
            &&& r.hol == s.hol_skips
            &&& r.lost == s.total_lost_chunks + r.evicted + r.timeout + r.oow
        }),
{
}

/// The frame that is next is passed when it is complete, when it has been waited for for 150
/// milliseconds, or when it is not there and was given up or fell out of the window; else it
/// is waited for.
pub proof fn law_frames_are_waited_for(a: AssemblerModel, min_frame_id: u64, now_us: u64)
    requires
        a.next is Some,
        a.next->0 < u64::MAX,
        a.stall_since matches Some(t) ==> t <= now_us,
    ensures
        ({
            let id = a.next->0;
            let step = a.flush_step(min_frame_id, now_us);
            &&& step.go_on <==> {
                ||| a.frames.contains_key(id) && a.frames[id].state is Complete
                ||| a.stall_since matches Some(t) && now_us >= t + 150_000
                ||| !a.frames.contains_key(id) && id < min_frame_id
                ||| !a.frames.contains_key(id) && (a.last_evicted matches Some(e) && id <= e)
            }
            &&& step.go_on ==> {
                &&& step.after.next == Some((id + 1) as u64)
                &&& step.after.stall_since is None
                &&& !step.after.frames.contains_key(id)
            }
            &&& !step.go_on ==> {
                &&& step.after.next == a.next
                &&& step.after.frames == a.frames
                &&& step.after.stats == a.stats
                &&& step.after.stall_since == Some(
                    if a.stall_since is Some {
                        a.stall_since->0
                    } else {
                        now_us
                    },
                )
                &&& step.packets.len() == 0
            }
            &&& step.packets.len() > 0 ==> a.frames.contains_key(id)
        }),
{
}

/// Every frame that is passed is counted: as released if packets of it leave, and in one of
/// the ways of a loss unless it was complete.
pub proof fn law_passed_frames_are_counted(a: AssemblerModel, min_frame_id: u64, now_us: u64)
    requires
        a.next is Some,
        a.next->0 < u64::MAX,
        a.valid(),
        a.stats.room(0x2_0000),
        a.flush_step(min_frame_id, now_us).go_on,
    ensures
        ({
            let id = a.next->0;
            let step = a.flush_step(min_frame_id, now_us);
            let (s, t) = (a.stats, step.after.stats);
            let there = a.frames.contains_key(id);
            &&& there && a.frames[id].state is Complete ==> {
                &&& t.frames_emitted == s.frames_emitted + 1
                &&& t.video_packets_emitted == s.video_packets_emitted + step.packets.len()
                &&& t.hol_skips == s.hol_skips
                &&& t.partial == s.partial
            }
            &&& there && !(a.frames[id].state is Complete) ==> {
                &&& t.frames_lost_timeout == s.frames_lost_timeout + 1
                &&& t.hol_skips == s.hol_skips + 1
                &&& t.partial == s.partial + 1
                &&& t.frames_emitted == s.frames_emitted + (if step.packets.len() > 0 {
                    1int
                } else {
                    0
                })
                &&& t.video_packets_emitted == s.video_packets_emitted + step.packets.len()
            }
            &&& !there ==> {
                let given_up = a.last_evicted matches Some(e) && id <= e;
                &&& t.frames_emitted == s.frames_emitted
                &&& t.frames_lost_evicted == s.frames_lost_evicted + (if given_up {
                    1int
                } else {
                    0
                })
                &&& t.frames_lost_out_of_window == s.frames_lost_out_of_window + (if id
                    < min_frame_id {
                    1int
                } else {
                    0
                })
                &&& t.frames_lost_timeout == s.frames_lost_timeout + (if given_up || id
                    < min_frame_id {
                    0int
                } else {
                    1
                })
            }
            &&& balanced(s) ==> balanced(t)
        }),
{
    let id = a.next->0;
    if a.frames.contains_key(id) {
        let f = a.frames[id];
        assert(f.valid());
        crate::fec::assembly_laws::law_slices_leave_in_order(f);
    }
}

/// A frame is in the window of another one when it is at most 512 before it.
pub proof fn law_window_has_its_width(id: u64, frame_id: u64)
    ensures
        id >= window_start(frame_id) <==> id + 512 >= frame_id,
{
}

} // verus!
