//! The engine: the control side's grip on the audio callback, and the callback itself.
use crate::adding;
use crate::audio::{EngineStats, RunningInfo};
use crate::block;
use crate::controls::{Note, Panel};
use crate::frames;
use crate::nodes::{new_buf, Buf, MAX_BLOCK};
use crate::nodes;
use crate::outcome;
use crate::ring;
use crate::sample;
use crate::schedule::{Parcel, Schedule};
use crate::schedule;
use std::sync::Arc;
use vstd::prelude::*;

verus! {

// ---------------------------------------------------------------- the control side

/// How many schedules may wait for the audio callback.
pub const PENDING_SCHEDULES: usize = 8;

/// How many schedules may wait to be freed.
pub const RETIRED_SCHEDULES: usize = 16;

/// The control side of running audio.
pub struct AudioEngine {
    pub info: RunningInfo,
    pub tx: rtrb::Producer<Parcel>,
    pub garbage: rtrb::Consumer<Parcel>,
}

/// The ends of the two queues between the control side and the audio callback.
pub struct Queues {
    pub tx: rtrb::Producer<Parcel>,
    pub cmd_rx: rtrb::Consumer<Parcel>,
    pub garbage_tx: rtrb::Producer<Parcel>,
    pub garbage: rtrb::Consumer<Parcel>,
}

impl Queues {
    /// Queues that nothing has gone through yet.
    pub fn new() -> (r: Self)
        ensures
            ring::schedules_sent(r.tx) == Seq::<Schedule>::empty(),
            ring::queue_room(r.tx) == PENDING_SCHEDULES,
            ring::schedules_taken(r.cmd_rx) == Seq::<Schedule>::empty(),
            ring::queue_stock(r.cmd_rx) == 0,
            ring::schedules_sent(r.garbage_tx) == Seq::<Schedule>::empty(),
            ring::queue_room(r.garbage_tx) == RETIRED_SCHEDULES,
            ring::schedules_taken(r.garbage) == Seq::<Schedule>::empty(),
            ring::queue_stock(r.garbage) == 0,
    {
        let (tx, cmd_rx) = ring::new_schedule_ring(PENDING_SCHEDULES);
        let (garbage_tx, garbage) = ring::new_schedule_ring(RETIRED_SCHEDULES);
        Queues { tx, cmd_rx, garbage_tx, garbage }
    }
}

impl AudioEngine {
    /// The schedules handed over so far.
    pub open spec fn sent(&self) -> Seq<Schedule> {
        ring::schedules_sent(self.tx)
    }

    /// How many more schedules there is surely room for.
    pub open spec fn room(&self) -> nat {
        ring::queue_room(self.tx)
    }

    /// The schedules that came back and were freed.
    pub open spec fn freed(&self) -> Seq<Schedule> {
        ring::schedules_taken(self.garbage)
    }

    /// How many schedules are surely waiting to be freed.
    pub open spec fn retired(&self) -> nat {
        ring::queue_stock(self.garbage)
    }

    /// The control side of streams that have been opened.
    pub fn start(
        info: RunningInfo,
        tx: rtrb::Producer<Parcel>,
        garbage: rtrb::Consumer<Parcel>,
    ) -> (r: Self)
        ensures
            r.info == info,
            r.sent() == ring::schedules_sent(tx),
            r.room() == ring::queue_room(tx),
            r.freed() == ring::schedules_taken(garbage),
            r.retired() == ring::queue_stock(garbage),
    {
        AudioEngine { info, tx, garbage }
    }

    /// Hands a new schedule to the audio thread (lock-free).
    pub fn send_schedule(&mut self, s: Schedule) -> (r: Result<(), String>)
        requires
            s.wf(),
        ensures
            final(self).info == old(self).info,
            old(self).room() > 0 ==> r is Ok && final(self).room() == old(self).room() - 1,
            match r {
                Ok(()) => final(self).sent() == old(self).sent().push(s),
                Err(e) => e@ == "schedule queue full"@ && final(self).sent() == old(self).sent()
                    && final(self).room() == 0,
            },
            old(self).freed().is_prefix_of(final(self).freed()),
            final(self).freed().len() >= old(self).freed().len() + old(self).retired(),
    {
        self.collect_garbage();
        match ring::push_schedule(&mut self.tx, Parcel::wrap(Box::new(s))) {
            Ok(()) => Ok(()),
            Err(_) => Err("schedule queue full".to_owned()),
        }
    }

    /// Frees the schedules that have come back.
    pub fn collect_garbage(&mut self)
        ensures
            final(self).info == old(self).info,
            final(self).sent() == old(self).sent(),
            final(self).room() == old(self).room(),
            old(self).freed().is_prefix_of(final(self).freed()),
            final(self).freed().len() >= old(self).freed().len() + old(self).retired(),
            final(self).retired() == 0,
    {
        let mut left = ring::waiting_schedules(&mut self.garbage);
        while left > 0
            invariant
                self.info == old(self).info,
                self.sent() == old(self).sent(),
                self.room() == old(self).room(),
                old(self).freed().is_prefix_of(self.freed()),
                self.retired() == left,
                self.freed().len() + left >= old(self).freed().len() + old(self).retired(),
            decreases left,
        {
            let _ = ring::pop_schedule(&mut self.garbage);
            left -= 1;
        }
    }
}

// ---------------------------------------------------------------- the output callback

/// What the output callback holds.
pub struct OutCtx {
    sched: Option<Box<Schedule>>,
    cmd_rx: rtrb::Consumer<Parcel>,
    garbage_tx: rtrb::Producer<Parcel>,
    input: Option<rtrb::Consumer<u32>>,
    inbuf: Buf,
    outbuf: Buf,
    stats: Panel,
    input_primed: bool,
    short: bool,
    peaks: (u32, u32),
    frames: usize,
    done: usize,
}

/// What the output callback holds and where it stands.
#[verifier::ext_equal]
pub ghost struct Playback {
    /// The schedule in use.
    pub sched: Option<block::Picture>,
    /// The input of the last block.
    pub input: block::Block,
    /// The output of the last block.
    pub out: block::Block,
    /// Input has come at least once.
    pub primed: bool,
    /// The callback has been counted as one that lacked input.
    pub short: bool,
    /// The peaks of the output of the last block.
    pub peaks: (u32, u32),
    /// How many frames the device wants, and how many it has.
    pub frames: int,
    pub done: int,
}

/// What a schedule in use holds and where it stands.
pub open spec fn pictured(s: Option<Schedule>) -> Option<block::Picture> {
    match s {
        Some(x) => Some(x.picture()),
        None => None,
    }
}

/// A schedule in use, and behind it those that have come since.
pub open spec fn lineup(s: Option<Schedule>, fresh: Seq<Schedule>) -> Seq<Schedule> {
    (match s {
        Some(x) => seq![x],
        None => Seq::empty(),
    }) + fresh
}

/// The schedules that have had their time when others have come.
pub open spec fn outdated(s: Option<Schedule>, fresh: Seq<Schedule>) -> Seq<Schedule> {
    let all = lineup(s, fresh);
    if all.len() == 0 {
        all
    } else {
        all.drop_last()
    }
}

/// A channel whose first `n` samples have gone through the limiter.
pub open spec fn limited_channel(s: Seq<u32>, n: int) -> Seq<u32> {
    Seq::new(
        s.len(),
        |i: int|
            if i < n {
                sample::limited(s[i])
            } else {
                s[i]
            },
    )
}

/// A block whose first `n` frames have gone through the limiter.
pub open spec fn limited_block(b: block::Block, n: int) -> block::Block {
    (limited_channel(b.0, n), limited_channel(b.1, n))
}

/// The length of the next block.
pub open spec fn block_length(p: Playback) -> int {
    if p.frames - p.done <= MAX_BLOCK {
        p.frames - p.done
    } else {
        MAX_BLOCK as int
    }
}

/// A block lacks input that there should have been: it is the first of its callback, the input
/// has come before or comes now, and a frame of it is missing.
pub open spec fn block_lacks(p: Playback, has_input: bool, got: Seq<bool>) -> bool {
    has_input && !frames::all_kept(got) && p.done == 0 && (p.primed || frames::any_kept(got))
}

/// The input of a block has come, and been handed to the schedule. `got` says which of its
/// frames were there.
pub open spec fn block_fed(
    p: Playback,
    input: block::Block,
    has_input: bool,
    got: Seq<bool>,
) -> Playback {
    Playback {
        input,
        primed: p.primed || frames::any_kept(got),
        short: p.short || block_lacks(p, has_input, got),
        sched: match p.sched {
            Some(s) => Some(
                block::Picture {
                    bufs: s.bufs.update(0, block::copied(s.bufs[0], input, block_length(p))),
                    ..s
                },
            ),
            None => None,
        },
        ..p
    }
}

/// A block has been worked out: by the schedule, or as silence where there is none. Samples
/// that are too small count as zero here.
pub open spec fn block_played(p: Playback, q: Playback, kit: block::Kit) -> bool {
    let n = block_length(p);
    match p.sched {
        Some(was) => {
            let s = block::Picture { flush: true, ..was };
            &&& q.sched is Some
            &&& exists|run: Seq<block::Scene>|
                {
                    &&& #[trigger] block::worked_off(run, (s, p.out), n, kit)
                    &&& run.last() == (q.sched->0, q.out)
                }
            &&& block::in_order(s.fed_by) ==> outcome::block_outcome(
                (s, p.out),
                (q.sched->0, q.out),
                n,
                kit,
            )
            &&& q == (Playback { sched: q.sched, out: q.out, ..p })
        },
        None => q == (Playback { out: block::silenced(p.out, n), ..p }),
    }
}

/// A block is complete: it has gone through the limiter, and its peaks are taken.
pub open spec fn block_written(p: Playback) -> Playback {
    let n = block_length(p);
    let out = limited_block(p.out, n);
    Playback {
        out,
        peaks: (sample::peak_of(out.0.take(n)), sample::peak_of(out.1.take(n))),
        done: p.done + n,
        ..p
    }
}

/// Every step of a schedule has shown the peak of its output on its meter, once.
pub open spec fn peaks_shown(was: Schedule, now: Schedule, n: int) -> bool {
    &&& now.shown().len() == was.shown().len()
    &&& forall|i: int|
        0 <= i < was.shown().len() ==> #[trigger] now.shown()[i] == was.shown()[i].push(
            block::block_peak(now.picture().bufs[i + 1], n),
        )
}

proof fn none_kept<A>(s: Seq<A>, keep: Seq<bool>)
    requires
        s.len() == keep.len(),
        forall|i: int| 0 <= i < keep.len() ==> !#[trigger] keep[i],
    ensures
        frames::sifted(s, keep) == Seq::<A>::empty(),
    decreases s.len(),
{
    if s.len() > 0 {
        let k = keep.drop_last();
        assert forall|i: int| 0 <= i < k.len() implies !#[trigger] k[i] by {
            assert(!keep[i]);
        }
        none_kept(s.drop_last(), k);
        assert(!keep[keep.len() - 1]);
    }
}

/// Sends the first samples of a channel through the limiter, and gives their peak.
fn limit_channel(v: &mut Vec<u32>, n: usize) -> (peak: u32)
    requires
        n <= old(v)@.len(),
    ensures
        final(v)@ == limited_channel(old(v)@, n as int),
        peak == sample::peak_of(final(v)@.take(n as int)),
{
    let mut pk = sample::ZERO;
    let mut i: usize = 0;
    while i < n
        invariant
            i <= n <= v@.len(),
            v@ == limited_channel(old(v)@, i as int),
            pk == sample::peak_of(v@.take(i as int)),
        decreases n - i,
    {
        let s = sample::limit(v[i]);
        let ghost before = v@;
        v.set(i, s);
        pk = sample::louder(pk, s);
        proof {
            assert(v@ =~= limited_channel(old(v)@, i + 1));
            assert(v@.take(i + 1).drop_last() =~= before.take(i as int));
            assert(v@.take(i + 1).last() == s);
        }
        i += 1;
    }
    pk
}

impl OutCtx {
    /// The schedule in use.
    pub closed spec fn schedule(&self) -> Option<Schedule> {
        match self.sched {
            Some(s) => Some(*s),
            None => None,
        }
    }

    /// What the schedule in use works with.
    pub open spec fn kit(&self) -> block::Kit {
        self.schedule()->0.kit()
    }

    /// The meters and stats that this callback writes.
    pub closed spec fn stats(&self) -> EngineStats {
        self.stats.stats()
    }

    /// What this callback has shown and counted there, one after the other.
    pub closed spec fn notes(&self) -> Seq<Note> {
        self.stats.notes()
    }

    /// The schedules that have come from the control side.
    pub closed spec fn received(&self) -> Seq<Schedule> {
        ring::schedules_taken(self.cmd_rx)
    }

    /// How many schedules are surely waiting to be taken up.
    pub closed spec fn pending(&self) -> nat {
        ring::queue_stock(self.cmd_rx)
    }

    /// The schedules that were handed back to be freed.
    pub closed spec fn retired(&self) -> Seq<Schedule> {
        ring::schedules_sent(self.garbage_tx)
    }

    /// How many schedules there is surely room for on the way back.
    pub closed spec fn retire_room(&self) -> nat {
        ring::queue_room(self.garbage_tx)
    }

    /// Whether there is an input.
    pub closed spec fn has_input(&self) -> bool {
        self.input is Some
    }

    /// The samples that have come from the input.
    pub closed spec fn heard(&self) -> Seq<u32> {
        match self.input {
            Some(c) => ring::samples_taken(c),
            None => Seq::empty(),
        }
    }

    /// How many samples of the input are surely waiting.
    pub closed spec fn stock(&self) -> nat {
        match self.input {
            Some(c) => ring::stock(c),
            None => 0,
        }
    }

    /// What the callback holds and where it stands.
    pub closed spec fn playback(&self) -> Playback {
        Playback {
            sched: pictured(self.schedule()),
            input: block::block_of(self.inbuf),
            out: block::block_of(self.outbuf),
            primed: self.input_primed,
            short: self.short,
            peaks: self.peaks,
            frames: self.frames as int,
            done: self.done as int,
        }
    }

    /// The buffers hold blocks, the schedule is sound, no more is done than there is to do, and
    /// of the input only whole frames have been taken.
    pub closed spec fn wf(&self) -> bool {
        &&& nodes::full_size(self.inbuf)
        &&& nodes::full_size(self.outbuf)
        &&& self.sched is Some ==> self.sched->0.wf()
        &&& self.done <= self.frames
        &&& self.heard().len() % 2 == 0
    }

    /// The queues are as they were.
    pub open spec fn keeps_its_queues(&self, before: OutCtx) -> bool {
        &&& self.received() == before.received()
        &&& self.pending() == before.pending()
        &&& self.retired() == before.retired()
        &&& self.retire_room() == before.retire_room()
    }

    /// The same schedule is in use with the same cells, switches and meters, and the same stats
    /// are written.
    pub open spec fn keeps_its_handles(&self, before: OutCtx) -> bool {
        &&& self.schedule() is Some == before.schedule() is Some
        &&& self.schedule() is Some ==> self.kit() == before.kit()
        &&& self.stats() == before.stats()
    }

    /// Nothing but input has been taken, and none was lost of what was known to be waiting.
    pub open spec fn moved_on_from(&self, before: OutCtx) -> bool {
        &&& self.has_input() == before.has_input()
        &&& before.heard().is_prefix_of(self.heard())
        &&& self.stock() + (self.heard().len() - before.heard().len()) >= before.stock()
        &&& self.keeps_its_queues(before)
        &&& self.keeps_its_handles(before)
    }

    /// The newest schedule that has come since is in use, and the outdated ones are on
    /// their way back: all of them if there was room for all, else some, in their order.
    pub open spec fn took_up_since(&self, before: OutCtx) -> bool {
        let fresh = self.received().skip(before.received().len() as int);
        let gone = outdated(before.schedule(), fresh);
        &&& before.received().is_prefix_of(self.received())
        &&& fresh.len() >= before.pending()
        &&& self.pending() == 0
        &&& self.stats() == before.stats()
        &&& self.notes() == before.notes()
        &&& self.schedule() == if fresh.len() == 0 {
            before.schedule()
        } else {
            Some(fresh.last())
        }
        &&& exists|keep: Seq<bool>|
            keep.len() == gone.len() && self.retired() == before.retired()
                + #[trigger] frames::sifted(gone, keep)
        &&& gone.len() <= before.retire_room() ==> self.retired() == before.retired() + gone
    }

    /// The input of a block has come out of the ring, frame by frame, and where there was none
    /// it is silent; every frame was there that was known to be waiting. Where input is missing
    /// that there should have been, the callback has been counted.
    pub open spec fn fed_since(&self, before: OutCtx) -> bool {
        let n = block_length(before.playback());
        let input = self.playback().input;
        &&& exists|got: Seq<bool>|
            {
                &&& #[trigger] frames::drawn(frames::frames_of(input, n), got)
                &&& self.heard() == before.heard() + frames::interleaved(
                    frames::sifted(frames::frames_of(input, n), got),
                )
                &&& !before.has_input() ==> !frames::any_kept(got)
                &&& frames::known_kept(got, before.stock() as int)
                &&& self.playback() == block_fed(before.playback(), input, before.has_input(), got)
                &&& block_lacks(before.playback(), before.has_input(), got) ==> nodes::counted_up(
                    before.stats().xruns,
                )
                &&& self.notes() == if block_lacks(before.playback(), before.has_input(), got) {
                    before.notes().push(Note::Lack)
                } else {
                    before.notes()
                }
            }
        &&& self.schedule() is Some ==> self.schedule()->0.shown() == before.schedule()->0.shown()
        &&& input.0.skip(n) == before.playback().input.0.skip(n)
        &&& input.1.skip(n) == before.playback().input.1.skip(n)
        &&& self.moved_on_from(before)
    }

    /// A block has been played: its input has come, the schedule has worked it out, and it has
    /// gone through the limiter; and the meters of the output have been raised to its peaks.
    pub open spec fn played_since(&self, before: OutCtx) -> bool {
        &&& exists|fed: OutCtx, p: Playback|
            {
                &&& #[trigger] fed.fed_since(before)
                &&& #[trigger] block_played(fed.playback(), p, fed.kit())
                &&& self.playback() == block_written(p)
                &&& self.heard() == fed.heard()
                &&& self.stock() == fed.stock()
                &&& self.notes() == fed.notes().push(
                    Note::Output {
                        left: self.playback().peaks.0,
                        right: self.playback().peaks.1,
                    },
                )
            }
        &&& self.schedule() is Some ==> peaks_shown(
            before.schedule()->0,
            self.schedule()->0,
            block_length(before.playback()),
        )
        &&& nodes::raised_by(before.stats().out_peak[0].cell(), self.playback().peaks.0)
        &&& nodes::raised_by(before.stats().out_peak[1].cell(), self.playback().peaks.1)
        &&& self.moved_on_from(before)
    }

    /// A callback that has nothing to play yet.
    pub fn new(
        cmd_rx: rtrb::Consumer<Parcel>,
        garbage_tx: rtrb::Producer<Parcel>,
        input: Option<rtrb::Consumer<u32>>,
        stats: Arc<EngineStats>,
    ) -> (r: Self)
        requires
            input is Some ==> ring::samples_taken(input->0).len() % 2 == 0,
        ensures
            r.wf(),
            r.schedule() is None,
            r.received() == ring::schedules_taken(cmd_rx),
            r.pending() == ring::queue_stock(cmd_rx),
            r.retired() == ring::schedules_sent(garbage_tx),
            r.retire_room() == ring::queue_room(garbage_tx),
            r.stats() == *stats,
            r.notes() == Seq::<Note>::empty(),
            r.has_input() == input is Some,
            input is Some ==> r.heard() == ring::samples_taken(input->0) && r.stock()
                == ring::stock(input->0),
            !r.playback().primed,
            !r.playback().short,
            r.playback().frames == 0,
            r.playback().done == 0,
            schedule::silent(r.playback().input),
            schedule::silent(r.playback().out),
    {
        let r = OutCtx {
            sched: None,
            cmd_rx,
            garbage_tx,
            input,
            inbuf: new_buf(),
            outbuf: new_buf(),
            stats: Panel::new(stats),
            input_primed: false,
            short: false,
            peaks: (sample::ZERO, sample::ZERO),
            frames: 0,
            done: 0,
        };
        assert forall|i: int| 0 <= i < MAX_BLOCK implies #[trigger] r.inbuf[0]@[i] == sample::ZERO
            && #[trigger] r.inbuf[1]@[i] == sample::ZERO by {}
        assert forall|i: int| 0 <= i < MAX_BLOCK implies #[trigger] r.outbuf[0]@[i] == sample::ZERO
            && #[trigger] r.outbuf[1]@[i] == sample::ZERO by {}
        r
    }

    /// Takes up the newest schedule that has come, and hands the outdated ones back to be
    /// freed on the control side. Should the way back be full, they are freed here.
    pub fn swap_schedule(&mut self)
        requires
            old(self).wf(),
        ensures
            final(self).wf(),
            final(self).took_up_since(*old(self)),
            final(self).has_input() == old(self).has_input(),
            final(self).heard() == old(self).heard(),
            final(self).stock() == old(self).stock(),
            final(self).playback() == (Playback {
                sched: pictured(final(self).schedule()),
                ..old(self).playback()
            }),
    {
        let ghost first = self.schedule();
        let ghost mut fresh: Seq<Schedule> = Seq::empty();
        let ghost mut keep: Seq<bool> = Seq::empty();
        let mut left = ring::waiting_schedules(&mut self.cmd_rx);
        proof {
            assert(frames::sifted(outdated(first, fresh), keep) =~= Seq::empty());
            assert(self.retired() =~= self.retired() + frames::sifted(outdated(first, fresh), keep));
            assert(self.received() =~= old(self).received() + fresh);
        }
        while left > 0
            invariant
                self.wf(),
                self.received() == old(self).received() + fresh,
                self.pending() == left,
                fresh.len() + left >= old(self).pending(),
                self.schedule() == if fresh.len() == 0 {
                    first
                } else {
                    Some(fresh.last())
                },
                keep.len() == outdated(first, fresh).len(),
                self.retired() == old(self).retired() + frames::sifted(
                    outdated(first, fresh),
                    keep,
                ),
                frames::all_kept(keep) ==> self.retire_room() + keep.len() >= old(
                    self,
                ).retire_room(),
                !frames::all_kept(keep) ==> keep.len() > old(self).retire_room(),
                self.has_input() == old(self).has_input(),
                self.heard() == old(self).heard(),
                self.stock() == old(self).stock(),
                self.stats() == old(self).stats(),
                self.notes() == old(self).notes(),
                self.playback() == (Playback {
                    sched: self.playback().sched,
                    ..old(self).playback()
                }),
            decreases left,
        {
            let ghost gone = outdated(first, fresh);
            let ghost all = lineup(first, fresh);
            let ghost had = keep;
            let ghost sent = self.retired();
            match ring::pop_schedule(&mut self.cmd_rx) {
                Some(parcel) => {
                    let ghost s = parcel.schedule();
                    let new = parcel.unwrap();
                    let before = self.sched.take();
                    self.sched = Some(new);
                    proof {
                        fresh = fresh.push(s);
                        assert(lineup(first, fresh) =~= all.push(s));
                        assert(outdated(first, fresh) =~= all);
                    }
                    match before {
                        Some(o) => {
                            proof {
                                assert(all.last() == *o);
                                assert(all =~= gone.push(*o));
                            }
                            match ring::push_schedule(&mut self.garbage_tx, Parcel::wrap(o)) {
                                Ok(()) => {
                                    proof {
                                        keep = keep.push(true);
                                        frames::sifted_push(gone, had, *o, true);
                                    }
                                },
                                Err(_) => {
                                    proof {
                                        keep = keep.push(false);
                                        assert(!keep[had.len() as int]);
                                        frames::sifted_push(gone, had, *o, false);
                                    }
                                },
                            }
                            proof {
                                assert forall|j: int| 0 <= j < had.len() implies keep[j]
                                    == had[j] by {}
                                if !frames::all_kept(had) {
                                    let j = choose|j: int|
                                        0 <= j < had.len() && !(#[trigger] had[j]);
                                    assert(!keep[j]);
                                }
                            }
                        },
                        None => {
                            assert(all =~= gone);
                        },
                    }
                },
                None => {},
            }
            left -= 1;
        }
        proof {
            let gone = outdated(first, fresh);
            assert(self.received().skip(old(self).received().len() as int) =~= fresh);
            if frames::all_kept(keep) {
                frames::marked_means_kept(gone, keep);
            }
        }
    }

    /// Begins a callback of `frames` frames: takes up the newest schedule, and keeps the
    /// delay of the input in bounds.
    pub fn begin(&mut self, frames: usize)
        requires
            old(self).wf(),
            frames <= (usize::MAX - 64) / 2,
        ensures
            final(self).wf(),
            final(self).begun_since(*old(self), frames as int),
    {
        self.swap_schedule();
        let ghost swapped = *self;
        self.frames = frames;
        self.done = 0;
        self.short = false;
        match &mut self.input {
            Some(c) => {
                frames::catch_up(c, frames);
            },
            None => {},
        }
        proof {
            assert(self.keeps_its_queues(swapped));
            assert(self.schedule() == swapped.schedule());
            assert(self.took_up_since(*old(self)));
        }
    }

    /// A callback has begun.
    pub open spec fn begun_since(&self, before: OutCtx, frames: int) -> bool {
        &&& self.took_up_since(before)
        &&& self.has_input() == before.has_input()
        &&& frames::caught_up(before.heard(), before.stock(), self.heard(), self.stock(), frames)
        &&& self.playback() == (Playback {
            sched: pictured(self.schedule()),
            frames,
            done: 0,
            short: false,
            ..before.playback()
        })
    }

    /// Takes the input of the next block from the ring, and hands it to the schedule.
    fn feed(&mut self, n: usize)
        requires
            old(self).wf(),
            old(self).playback().done < old(self).playback().frames,
            n == block_length(old(self).playback()),
        ensures
            final(self).wf(),
            final(self).fed_since(*old(self)),
            final(self).playback().frames == old(self).playback().frames,
            final(self).playback().done == old(self).playback().done,
    {
        let ghost mut got: Seq<bool> = Seq::new(n as nat, |i: int| false);
        let mut missed = false;
        match &mut self.input {
            Some(c) => {
                let (any, under) = frames::draw(c, &mut self.inbuf, n);
                if any {
                    self.input_primed = true;
                }
                missed = under;
            },
            None => {
                block::silence(&mut self.inbuf, n);
            },
        }
        let ghost input = block::block_of(self.inbuf);
        let ghost heard = self.heard();
        let ghost stock = self.stock();
        proof {
            let row = frames::frames_of(input, n as int);
            if self.has_input() {
                got = choose|got: Seq<bool>|
                    {
                        &&& #[trigger] frames::drawn(row, got)
                        &&& heard == old(self).heard() + frames::interleaved(
                            frames::sifted(row, got),
                        )
                        &&& self.input_primed == (old(self).input_primed || frames::any_kept(got))
                        &&& missed == !frames::all_kept(got)
                        &&& frames::known_kept(got, old(self).stock() as int)
                    };
            } else {
                assert(frames::drawn(row, got));
                none_kept(row, got);
                assert(heard =~= old(self).heard() + frames::interleaved(
                    frames::sifted(row, got),
                ));
                if frames::any_kept(got) {
                    let i = choose|i: int| 0 <= i < got.len() && #[trigger] got[i];
                    assert(!got[i]);
                }
            }
            assert(frames::drawn(row, got));
            assert(heard == old(self).heard() + frames::interleaved(frames::sifted(row, got)));
            frames::row_has_two_for_each(frames::sifted(row, got));
            assert(input.0.skip(n as int) =~= old(self).playback().input.0.skip(n as int));
            assert(input.1.skip(n as int) =~= old(self).playback().input.1.skip(n as int));
        }
        if missed && self.done == 0 && self.input_primed {
            self.stats.count_lack();
            self.short = true;
        }
        match &mut self.sched {
            Some(s) => {
                block::copy(s.input_mut(), &self.inbuf, n);
            },
            None => {},
        }
        proof {
            let row = frames::frames_of(input, n as int);
            assert(self.heard() == heard);
            assert(self.stock() == stock);
            assert(self.playback().input == input);
            assert(self.playback() =~= block_fed(
                old(self).playback(),
                input,
                self.has_input(),
                got,
            ));
            assert(frames::drawn(row, got));
        }
    }

    /// Plays the next block.
    pub fn play_block(&mut self)
        requires
            old(self).wf(),
            old(self).playback().done < old(self).playback().frames,
        ensures
            final(self).wf(),
            final(self).played_since(*old(self)),
            final(self).playback().frames == old(self).playback().frames,
            final(self).playback().done == old(self).playback().done + block_length(
                old(self).playback(),
            ),
            safe_block(final(self).playback().out, block_length(old(self).playback())),
    {
        let n: usize = if self.frames - self.done <= MAX_BLOCK {
            self.frames - self.done
        } else {
            MAX_BLOCK
        };
        self.feed(n);
        let ghost fed = *self;
        proof {
            if self.sched is Some {
                schedule::schedule_is_sound(&*self.sched->0);
            }
        }
        match &mut self.sched {
            Some(s) => {
                s.flush_small(true);
                s.run(n, &mut self.outbuf);
            },
            None => {
                block::silence(&mut self.outbuf, n);
            },
        }
        let ghost p = self.playback();
        assert(block_played(fed.playback(), p, fed.kit())) by {
            match fed.playback().sched {
                Some(was) => {
                    let s = block::Picture { flush: true, ..was };
                    let run = choose|run: Seq<block::Scene>|
                        {
                            &&& #[trigger] block::worked_off(
                                run,
                                (s, fed.playback().out),
                                n as int,
                                fed.kit(),
                            )
                            &&& run.last() == (p.sched->0, p.out)
                        };
                    assert(block::worked_off(
                        run,
                        (s, fed.playback().out),
                        n as int,
                        fed.kit(),
                    ));
                    assert(p =~= (Playback { sched: p.sched, out: p.out, ..fed.playback() }));
                },
                None => {},
            }
        }
        let left = limit_channel(&mut self.outbuf[0], n);
        let right = limit_channel(&mut self.outbuf[1], n);
        self.stats.show_output(left, right);
        self.peaks = (left, right);
        self.done += n;
        proof {
            assert(self.playback() =~= block_written(p));
            assert(fed.fed_since(*old(self)));
            limited_is_safe(p.out, n as int);
        }
    }

    /// Hands the first `n` frames of the last block to the device, as its frames from `start`
    /// on: they go to the first two channels, or the left side to the only one.
    fn deliver(&self, start: usize, n: usize, data: &mut Vec<u32>, ch: usize)
        requires
            self.wf(),
            ch >= 1,
            n <= MAX_BLOCK,
            start + n <= old(data)@.len() / ch as nat,
        ensures
            final(data)@ == laid_out(
                old(data)@,
                self.playback().out,
                start as int,
                n as int,
                ch as int,
            ),
    {
        let ghost out = self.playback().out;
        let size: usize = data.len();
        let mut i: usize = 0;
        assert(data@ =~= laid_out(old(data)@, out, start as int, 0, ch as int));
        while i < n
            invariant
                self.wf(),
                start + n <= size as nat / ch as nat,
                out == self.playback().out,
                ch >= 1,
                i <= n <= MAX_BLOCK,
                data@.len() == size,
                old(data)@.len() == size,
                data@ == laid_out(old(data)@, out, start as int, i as int, ch as int),
            decreases n - i,
        {
            assert(size as nat / ch as nat <= size) by (nonlinear_arith)
                requires
                    ch >= 1,
            ;
            let k: usize = start + i;
            assert(0 <= k * ch && k * ch + ch <= size) by (nonlinear_arith)
                requires
                    k < size as nat / ch as nat,
                    ch >= 1,
            ;
            let at: usize = k * ch;
            data.set(at, self.outbuf[0][i]);
            if ch > 1 {
                data.set(at + 1, self.outbuf[1][i]);
            }
            proof {
                let after = laid_out(old(data)@, out, start as int, i + 1, ch as int);
                assert forall|j: int| 0 <= j < size implies data@[j] == after[j] by {
                    place_of_sample(j, k as int, ch as int);
                }
                assert(data@ =~= after);
            }
            i += 1;
        }
    }

    /// Serves a whole callback: fills the samples of a device with `ch` channels with `frames`
    /// frames. Whatever the processors do, what the device gets is finite and no
    /// louder than full scale.
    pub fn render(&mut self, frames: usize, data: &mut Vec<u32>, ch: usize)
        requires
            old(self).wf(),
            ch >= 1,
            frames <= (usize::MAX - 64) / 2,
            frames <= old(data)@.len() / ch as nat,
        ensures
            final(self).wf(),
            final(data)@.len() == old(data)@.len(),
            exists|show: Seq<(OutCtx, Seq<u32>)>|
                {
                    &&& #[trigger] performed(show, ch as int)
                    &&& show[0].0.begun_since(*old(self), frames as int)
                    &&& show[0].1 == old(data)@
                    &&& show.last() == (*final(self), final(data)@)
                    &&& final(self).moved_on_from(show[0].0)
                },
            final(self).stats() == old(self).stats(),
            final(self).playback().done == frames,
            forall|j: int|
                0 <= j < final(data)@.len() ==> if j / (ch as int) < frames && j % (ch as int) < 2 {
                    safe(#[trigger] final(data)@[j])
                } else {
                    final(data)@[j] == old(data)@[j]
                },
    {
        self.begin(frames);
        let ghost first = *self;
        let ghost mut show: Seq<(OutCtx, Seq<u32>)> = seq![(first, data@)];
        let size: usize = data.len();
        while self.done < self.frames
            invariant
                self.wf(),
                ch >= 1,
                frames <= size as nat / ch as nat,
                data@.len() == size,
                old(data)@.len() == size,
                self.playback().frames == frames,
                show.len() > 0,
                forall|i: int| 0 <= i < show.len() - 1 ==> #[trigger] followed(show, i, ch as int),
                show[0] == (first, old(data)@),
                show.last() == (*self, data@),
                self.moved_on_from(first),
                forall|j: int|
                    0 <= j < size ==> if j / (ch as int) < self.playback().done && j % (ch as int)
                        < 2 {
                        safe(#[trigger] data@[j])
                    } else {
                        data@[j] == old(data)@[j]
                    },
            decreases self.playback().frames - self.playback().done,
        {
            let ghost before = *self;
            let ghost was = data@;
            let start = self.done;
            let n: usize = if self.frames - start <= MAX_BLOCK {
                self.frames - start
            } else {
                MAX_BLOCK
            };
            self.play_block();
            self.deliver(start, n, data, ch);
            proof {
                let out = self.playback().out;
                assert forall|j: int| 0 <= j < size implies if j / (ch as int)
                    < self.playback().done && j % (ch as int) < 2 {
                    safe(#[trigger] data@[j])
                } else {
                    data@[j] == old(data)@[j]
                } by {
                    let k = j / (ch as int);
                    place_of_sample(j, k, ch as int);
                    vstd::arithmetic::div_mod::lemma_mod_bound(j, ch as int);
                    vstd::arithmetic::div_mod::lemma_div_pos_is_pos(j, ch as int);
                    if start <= k < start + n && j % (ch as int) < 2 {
                        assert(safe(out.0[k - start]) && safe(out.1[k - start]));
                    }
                }
                let longer = show.push((*self, data@));
                assert forall|i: int| 0 <= i < longer.len() - 1 implies #[trigger] followed(
                    longer,
                    i,
                    ch as int,
                ) by {
                    if i < show.len() - 1 {
                        assert(followed(show, i, ch as int));
                    }
                }
                show = longer;
            }
        }
        assert(performed(show, ch as int));
    }
}

/// A sample that is finite and no louder than full scale.
pub open spec fn safe(b: u32) -> bool {
    sample::finite(b) && -sample::unit() <= sample::value(b) <= sample::unit()
}

/// The first `n` frames of a block are finite and no louder than full scale.
pub open spec fn safe_block(b: block::Block, n: int) -> bool {
    forall|i: int|
        #![trigger b.0[i]]
        #![trigger b.1[i]]
        0 <= i < n ==> safe(b.0[i]) && safe(b.1[i])
}

/// What has gone through the limiter is finite and no louder than full scale.
pub proof fn limited_is_safe(b: block::Block, n: int)
    requires
        n <= b.0.len(),
        n <= b.1.len(),
    ensures
        safe_block(limited_block(b, n), n),
{
    let out = limited_block(b, n);
    assert forall|i: int| 0 <= i < n implies safe(out.0[i]) && safe(out.1[i]) by {
        sample::limiter_is_safe(b.0[i]);
        sample::limiter_is_safe(b.1[i]);
    }
}

/// A block has been played and handed to the device.
pub open spec fn followed(show: Seq<(OutCtx, Seq<u32>)>, i: int, ch: int) -> bool {
    let (a, was) = show[i];
    let (b, data) = show[i + 1];
    &&& a.playback().done < a.playback().frames
    &&& b.played_since(a)
    &&& data == laid_out(was, b.playback().out, a.playback().done, block_length(a.playback()), ch)
}

/// Block after block has been played and handed to the device, until there was nothing left to
/// do.
pub open spec fn performed(show: Seq<(OutCtx, Seq<u32>)>, ch: int) -> bool {
    &&& show.len() > 0
    &&& forall|i: int| 0 <= i < show.len() - 1 ==> #[trigger] followed(show, i, ch)
    &&& show.last().0.playback().done == show.last().0.playback().frames
}

/// The samples for a device with `ch` channels, when `n` frames of a block have gone to its
/// frames from `start` on.
pub open spec fn laid_out(
    data: Seq<u32>,
    out: block::Block,
    start: int,
    n: int,
    ch: int,
) -> Seq<u32> {
    Seq::new(
        data.len(),
        |j: int|
            if start <= j / ch < start + n && j % ch == 0 {
                out.0[j / ch - start]
            } else if start <= j / ch < start + n && j % ch == 1 {
                out.1[j / ch - start]
            } else {
                data[j]
            },
    )
}

proof fn place_of_sample(j: int, k: int, ch: int)
    requires
        0 <= j,
        0 <= k,
        ch >= 1,
    ensures
        j == k * ch <==> j / ch == k && j % ch == 0,
        ch > 1 ==> (j == k * ch + 1 <==> j / ch == k && j % ch == 1),
        ch == 1 ==> j % ch == 0,
{
    vstd::arithmetic::div_mod::lemma_fundamental_div_mod(j, ch);
    assert(ch * (j / ch) == (j / ch) * ch) by (nonlinear_arith);
    vstd::arithmetic::div_mod::lemma_mod_bound(j, ch);
    if j == k * ch {
        vstd::arithmetic::div_mod::lemma_fundamental_div_mod_converse(j, ch, k, 0);
    }
    if ch > 1 && j == k * ch + 1 {
        vstd::arithmetic::div_mod::lemma_fundamental_div_mod_converse(j, ch, k, 1);
    }
}

// ---------------------------------------------------------------- laws

/// The blocks that are handed to the device, as first frame and length, when `done` of
/// `frames` frames are done.
pub open spec fn blocks_to_come(frames: int, done: int) -> Seq<(int, int)>
    decreases frames - done,
{
    if done >= frames {
        Seq::empty()
    } else {
        let n = if frames - done <= MAX_BLOCK {
            frames - done
        } else {
            MAX_BLOCK as int
        };
        seq![(done, n)] + blocks_to_come(frames, done + n)
    }
}

/// A frame is in a block.
pub open spec fn in_block(b: (int, int), frame: int) -> bool {
    b.0 <= frame < b.0 + b.1
}

/// Every frame of a callback is handed over in one block, and in no other.
pub proof fn every_frame_is_written_once(frames: int, done: int, frame: int)
    requires
        0 <= done <= frame < frames,
    ensures
        exists|i: int|
            {
                &&& 0 <= i < blocks_to_come(frames, done).len()
                &&& in_block(#[trigger] blocks_to_come(frames, done)[i], frame)
            },
        forall|i: int, j: int|
            0 <= i < blocks_to_come(frames, done).len() && 0 <= j < blocks_to_come(
                frames,
                done,
            ).len() && in_block(#[trigger] blocks_to_come(frames, done)[i], frame) && in_block(
                #[trigger] blocks_to_come(frames, done)[j],
                frame,
            ) ==> i == j,
    decreases frames - done,
{
    let all = blocks_to_come(frames, done);
    let n = all[0].1;
    let rest = blocks_to_come(frames, done + n);
    assert forall|i: int| 1 <= i < all.len() implies all[i] == #[trigger] rest[i - 1] by {}
    blocks_come_later(frames, done + n);
    if frame < done + n {
        assert(in_block(all[0], frame));
        assert forall|i: int| 0 <= i < all.len() && in_block(#[trigger] all[i], frame) implies i
            == 0 by {
            if i > 0 {
                assert(all[i] == rest[i - 1]);
            }
        }
    } else {
        every_frame_is_written_once(frames, done + n, frame);
        let i = choose|i: int| 0 <= i < rest.len() && in_block(#[trigger] rest[i], frame);
        assert(all[i + 1] == rest[i]);
        assert forall|i: int, j: int|
            0 <= i < all.len() && 0 <= j < all.len() && in_block(#[trigger] all[i], frame)
                && in_block(#[trigger] all[j], frame) implies i == j by {
            assert(!in_block(all[0], frame));
            assert(all[i] == rest[i - 1]);
            assert(all[j] == rest[j - 1]);
        }
    }
}

proof fn blocks_come_later(frames: int, done: int)
    ensures
        forall|i: int|
            0 <= i < blocks_to_come(frames, done).len() ==> (#[trigger] blocks_to_come(
                frames,
                done,
            )[i]).0 >= done,
    decreases frames - done,
{
    if done < frames {
        let all = blocks_to_come(frames, done);
        let n = all[0].1;
        let rest = blocks_to_come(frames, done + n);
        blocks_come_later(frames, done + n);
        assert forall|i: int| 0 <= i < all.len() implies (#[trigger] all[i]).0 >= done by {
            if i > 0 {
                assert(all[i] == rest[i - 1]);
            }
        }
    }
}

/// How the blocks to come follow from where the callback stands: a block that begins is the
/// first of them, and once it is written it is no longer to come.
pub proof fn callback_follows_its_blocks(p: Playback)
    requires
        0 <= p.done < p.frames,
    ensures
        blocks_to_come(p.frames, p.done) == seq![(p.done, block_length(p))] + blocks_to_come(
            p.frames,
            p.done + block_length(p),
        ),
{
}

/// What the callback shows of its schedule is what that schedule holds: a block begins with the
/// processors that the one before has left, until another schedule is taken up.
pub proof fn playback_shows_the_schedule(c: OutCtx)
    ensures
        c.playback().sched == pictured(c.schedule()),
{
}

/// A board with nothing but a straight cable passes the input on: every frame of a block that
/// has been played is that of the input, as it comes out of the limiter, but that samples that
/// are too small count as zero.
pub proof fn straight_cable_is_heard(before: OutCtx, since: OutCtx, i: int)
    requires
        before.wf(),
        since.played_since(before),
        before.schedule() is Some,
        before.schedule()->0.fed_by().len() == 0,
        before.schedule()->0.out_fed_by() == seq![0int],
        0 <= i < block_length(before.playback()),
    ensures
        sample::value(since.playback().out.0[i]) == sample::value(
            sample::limited(adding::flushed(since.playback().input.0[i])),
        ),
        sample::value(since.playback().out.1[i]) == sample::value(
            sample::limited(adding::flushed(since.playback().input.1[i])),
        ),
{
    let n = block_length(before.playback());
    let (fed, q) = choose|fed: OutCtx, q: Playback|
        {
            &&& #[trigger] fed.fed_since(before)
            &&& #[trigger] block_played(fed.playback(), q, fed.kit())
            &&& since.playback() == block_written(q)
            &&& since.heard() == fed.heard()
            &&& since.stock() == fed.stock()
            &&& since.notes() == fed.notes().push(
                Note::Output { left: since.playback().peaks.0, right: since.playback().peaks.1 },
            )
        };
    let p = fed.playback();
    let s = block::Picture { flush: true, ..p.sched->0 };
    schedule::schedule_is_sound(&before.schedule()->0);
    assert(p.sched is Some && s.fed_by.len() == 0 && s.out_fed_by == seq![0int]);
    assert(p.out == before.playback().out);
    outcome::single_source_comes_through((s, p.out), (q.sched->0, q.out), n, fed.kit(), 0);
    assert(q.sched->0.bufs[0] == s.bufs[0]);
    assert(s.bufs[0] == block::copied(
        before.playback().sched->0.bufs[0],
        since.playback().input,
        n,
    ));
    let input = since.playback().input;
    assert(s.bufs[0].0[i] == input.0[i] && s.bufs[0].1[i] == input.1[i]);
    assert(outcome::came_through(true, input.0[i], q.out.0[i]));
    assert(outcome::came_through(true, input.1[i], q.out.1[i]));
    limited_as_it_came(input.0[i], q.out.0[i]);
    limited_as_it_came(input.1[i], q.out.1[i]);
}

proof fn limited_as_it_came(b: u32, r: u32)
    requires
        outcome::came_through(true, b, r),
    ensures
        sample::value(sample::limited(r)) == sample::value(sample::limited(adding::flushed(b))),
{
    sample::magnitude_orders_values(0, 0);
    vstd::arithmetic::power2::lemma_pow2_pos(149);
}

/// The newest schedule plays, and everything that played or was sent before it is outdated: none
/// is lost from sight, and none is outdated that still plays.
pub proof fn all_but_the_newest_is_outdated(s: Option<Schedule>, fresh: Seq<Schedule>)
    ensures
        fresh.len() == 0 ==> outdated(s, fresh).len() == 0,
        fresh.len() > 0 && s is None ==> outdated(s, fresh) == fresh.drop_last(),
        fresh.len() > 0 && s is Some ==> outdated(s, fresh) == seq![s->0] + fresh.drop_last(),
{
    if fresh.len() > 0 && s is Some {
        assert((seq![s->0] + fresh).drop_last() =~= seq![s->0] + fresh.drop_last());
    } else if fresh.len() > 0 {
        assert(Seq::<Schedule>::empty() + fresh =~= fresh);
    }
}

/// Taking up schedules takes all that are known to be there, plays the newest, and goes on with
/// the old one where there is none; outdated ones are handed back in their order, and all of them
/// where there is room.
pub proof fn newest_schedule_plays(before: OutCtx, since: OutCtx, fresh: Seq<Schedule>)
    requires
        since.took_up_since(before),
        since.received() == before.received() + fresh,
    ensures
        fresh.len() >= before.pending(),
        fresh.len() > 0 ==> since.schedule() == Some(fresh.last()),
        fresh.len() == 0 ==> since.schedule() == before.schedule(),
        fresh.len() == 0 ==> since.retired() == before.retired(),
        before.retired().is_prefix_of(since.retired()),
        exists|keep: Seq<bool>|
            since.retired() == before.retired() + #[trigger] frames::sifted(
                outdated(before.schedule(), fresh),
                keep,
            ),
        since.pending() == 0,
        since.stats() == before.stats(),
        fresh.len() > 0 && before.schedule() is Some && fresh.len() <= before.retire_room()
            ==> since.retired() == before.retired() + (seq![before.schedule()->0]
            + fresh.drop_last()),
        fresh.len() > 0 && before.schedule() is None && fresh.len() <= before.retire_room()
            ==> since.retired() == before.retired() + fresh.drop_last(),
{
    assert(since.received().skip(before.received().len() as int) =~= fresh);
    all_but_the_newest_is_outdated(before.schedule(), fresh);
    let gone = outdated(before.schedule(), fresh);
    if fresh.len() == 0 {
        assert(before.retired() + gone =~= before.retired());
    }
}

/// A callback is cut into blocks of the largest size, and only the last may be shorter.
pub proof fn blocks_are_as_long_as_they_can_be(p: Playback)
    requires
        0 <= p.done < p.frames,
    ensures
        0 < block_length(p) <= MAX_BLOCK,
        p.done + block_length(p) <= p.frames,
        block_length(p) < MAX_BLOCK ==> p.done + block_length(p) == p.frames,
{
}

/// A callback is counted as one that lacked input where there is an input that has delivered
/// something, now or before, and a frame of the first block is missing; and not otherwise.
pub proof fn missing_input_is_noticed(p: Playback, has_input: bool, got: Seq<bool>)
    ensures
        block_lacks(p, has_input, got) <==> {
            &&& has_input
            &&& p.done == 0
            &&& p.primed || got.contains(true)
            &&& got.contains(false)
        },
{
    if frames::any_kept(got) {
        let j = choose|j: int| 0 <= j < got.len() && #[trigger] got[j];
        assert(got[j] == true);
    }
    if !frames::all_kept(got) {
        let j = choose|j: int| 0 <= j < got.len() && !(#[trigger] got[j]);
        assert(got[j] == false);
    }
    if got.contains(true) {
        let j = choose|j: int| 0 <= j < got.len() && got[j] == true;
        assert(got[j]);
    }
    if got.contains(false) {
        let j = choose|j: int| 0 <= j < got.len() && got[j] == false;
        assert(!got[j]);
    }
}

/// Feeding a block puts the input into the first buffer of the schedule, and into no other, and
/// leaves the rest of the schedule alone.
pub proof fn input_reaches_the_schedule(
    p: Playback,
    input: block::Block,
    has_input: bool,
    got: Seq<bool>,
    b: int,
    i: int,
)
    requires
        p.sched is Some,
        0 < p.sched->0.bufs.len(),
        1 <= b < p.sched->0.bufs.len(),
        p.sched->0.bufs[0].0.len() == p.sched->0.bufs[0].1.len(),
        0 <= i < p.sched->0.bufs[0].0.len(),
    ensures
        ({
            let was = p.sched->0;
            let q = block_fed(p, input, has_input, got);
            let s = q.sched->0;
            let n = block_length(p);
            &&& q.sched is Some
            &&& s.bufs.len() == was.bufs.len()
            &&& i < n ==> s.bufs[0].0[i] == input.0[i] && s.bufs[0].1[i] == input.1[i]
            &&& i >= n ==> s.bufs[0].0[i] == was.bufs[0].0[i] && s.bufs[0].1[i] == was.bufs[0].1[i]
            &&& s.bufs[b] == was.bufs[b]
            &&& s.fed_by == was.fed_by && s.out_fed_by == was.out_fed_by && s.procs == was.procs
                && s.scratch == was.scratch && s.levels == was.levels && s.flush == was.flush
                && s.at == was.at
            &&& q.input == input && q.out == p.out && q.peaks == p.peaks && q.frames == p.frames
                && q.done == p.done
            &&& q.primed == (p.primed || got.contains(true))
            &&& q.short == (p.short || block_lacks(p, has_input, got))
        }),
{
    if frames::any_kept(got) {
        let j = choose|j: int| 0 <= j < got.len() && #[trigger] got[j];
        assert(got[j] == true);
    }
    if got.contains(true) {
        let j = choose|j: int| 0 <= j < got.len() && got[j] == true;
        assert(got[j]);
    }
}

/// Without a schedule, silence is played.
pub proof fn no_schedule_is_silence(p: Playback, q: Playback, kit: block::Kit, i: int)
    requires
        p.sched is None,
        block_played(p, q, kit),
        0 <= i < block_length(p),
        block_length(p) <= p.out.0.len(),
        block_length(p) <= p.out.1.len(),
    ensures
        q.out.0[i] == 0,
        q.out.1[i] == 0,
        q.sched is None,
        q.input == p.input && q.primed == p.primed && q.short == p.short && q.frames == p.frames
            && q.done == p.done,
{
}

/// A block is written through the limiter, on both sides, and it shows its peaks: each is at
/// least as loud as what was written on its side, and is one of the samples that were, unless
/// that side is silent. The callback moves on by the length of the block.
pub proof fn written_blocks_are_limited(p: Playback, i: int)
    requires
        0 <= i < block_length(p),
        block_length(p) <= p.out.0.len(),
        block_length(p) <= p.out.1.len(),
    ensures
        ({
            let q = block_written(p);
            let n = block_length(p);
            &&& q.out.0[i] == sample::limited(p.out.0[i])
            &&& q.out.1[i] == sample::limited(p.out.1[i])
            &&& sample::scaled(sample::magnitude(q.out.0[i])) <= sample::value(q.peaks.0)
            &&& sample::scaled(sample::magnitude(q.out.1[i])) <= sample::value(q.peaks.1)
            &&& q.peaks.0 == 0 || exists|k: int|
                0 <= k < n && sample::magnitude(#[trigger] q.out.0[k]) == q.peaks.0
            &&& q.peaks.1 == 0 || exists|k: int|
                0 <= k < n && sample::magnitude(#[trigger] q.out.1[k]) == q.peaks.1
            &&& q.done == p.done + n
            &&& q.frames == p.frames && q.sched == p.sched && q.input == p.input && q.primed
                == p.primed && q.short == p.short
        }),
{
    let q = block_written(p);
    let n = block_length(p);
    let l = q.out.0.take(n);
    let r = q.out.1.take(n);
    sample::peak_is_the_loudest(l);
    sample::peak_is_the_loudest(r);
    sample::limiter_is_safe(p.out.0[i]);
    sample::limiter_is_safe(p.out.1[i]);
    assert(l[i] == q.out.0[i]);
    assert(r[i] == q.out.1[i]);
    if q.peaks.0 != 0 {
        let k = choose|k: int|
            0 <= k < l.len() && !sample::nan(#[trigger] l[k]) && sample::magnitude(l[k])
                == sample::peak_of(l);
        assert(l[k] == q.out.0[k]);
    }
    if q.peaks.1 != 0 {
        let k = choose|k: int|
            0 <= k < r.len() && !sample::nan(#[trigger] r[k]) && sample::magnitude(r[k])
                == sample::peak_of(r);
        assert(r[k] == q.out.1[k]);
    }
}

/// Each frame of a block goes to its frame of the device: the left side to the first channel, the
/// right side to the second, if there is one. Further channels, and all other frames, are left as
/// they were.
pub proof fn frames_go_to_their_channels(
    data: Seq<u32>,
    out: block::Block,
    start: int,
    n: int,
    ch: int,
    f: int,
    c: int,
)
    requires
        ch >= 1,
        0 <= f,
        0 <= c < ch,
        f * ch + c < data.len(),
    ensures
        laid_out(data, out, start, n, ch).len() == data.len(),
        start <= f < start + n && c == 0 ==> laid_out(data, out, start, n, ch)[f * ch + c]
            == out.0[f - start],
        start <= f < start + n && c == 1 ==> laid_out(data, out, start, n, ch)[f * ch + c]
            == out.1[f - start],
        !(start <= f < start + n) || c >= 2 ==> laid_out(data, out, start, n, ch)[f * ch + c]
            == data[f * ch + c],
{
    assert(f * ch >= 0) by (nonlinear_arith)
        requires
            f >= 0,
            ch >= 1,
    ;
    vstd::arithmetic::div_mod::lemma_fundamental_div_mod_converse(f * ch + c, ch, f, c);
}

/// The way back has room for every schedule that can be waiting on the way there, and for the one
/// in use.
pub proof fn outdated_schedules_find_room()
    ensures
        PENDING_SCHEDULES + 1 <= RETIRED_SCHEDULES,
{
}

/// The input of a block is what comes next out of the ring, and where enough is known to be there
/// every frame of it is. Without an input it is silence, and nothing is taken.
pub proof fn input_is_taken_in_order(before: OutCtx, since: OutCtx, i: int)
    requires
        since.fed_since(before),
        0 <= i < block_length(before.playback()),
    ensures
        ({
            let n = block_length(before.playback());
            let input = since.playback().input;
            &&& 2 * n <= before.stock() ==> since.heard() == before.heard() + frames::interleaved(
                frames::frames_of(input, n),
            )
            &&& !before.has_input() ==> since.heard() == before.heard() && input.0[i] == 0
                && input.1[i] == 0
            &&& before.heard().is_prefix_of(since.heard())
            &&& since.has_input() == before.has_input()
            &&& input.0.skip(n) == before.playback().input.0.skip(n)
            &&& input.1.skip(n) == before.playback().input.1.skip(n)
        }),
{
    let n = block_length(before.playback());
    let input = since.playback().input;
    let all = frames::frames_of(input, n);
    let got = choose|got: Seq<bool>|
        {
            &&& #[trigger] frames::drawn(all, got)
            &&& since.heard() == before.heard() + frames::interleaved(frames::sifted(all, got))
            &&& !before.has_input() ==> !frames::any_kept(got)
            &&& frames::known_kept(got, before.stock() as int)
            &&& since.playback() == block_fed(before.playback(), input, before.has_input(), got)
            &&& block_lacks(before.playback(), before.has_input(), got) ==> nodes::counted_up(
                before.stats().xruns,
            )
            &&& since.notes() == if block_lacks(before.playback(), before.has_input(), got) {
                before.notes().push(Note::Lack)
            } else {
                before.notes()
            }
        };
    if 2 * n <= before.stock() {
        assert(frames::all_kept(got)) by {
            assert forall|j: int| 0 <= j < got.len() implies #[trigger] got[j] by {}
        }
        frames::marked_means_kept(all, got);
    }
    if !before.has_input() {
        none_kept(all, got);
        assert(!got[i]);
        assert(all[i] == (input.0[i], input.1[i]));
        assert(since.heard() =~= before.heard());
    }
}

/// A callback begins with nothing done and nothing lacking, with the schedule that was taken up,
/// and with everything else as the last one left it.
pub proof fn callbacks_begin_anew(before: OutCtx, since: OutCtx, wanted: int)
    requires
        since.begun_since(before, wanted),
    ensures
        since.playback().frames == wanted,
        since.playback().done == 0,
        !since.playback().short,
        since.playback().primed == before.playback().primed,
        since.playback().input == before.playback().input,
        since.playback().out == before.playback().out,
        since.playback().sched == pictured(since.schedule()),
        since.took_up_since(before),
        since.has_input() == before.has_input(),
        before.heard().is_prefix_of(since.heard()),
        since.heard().len() == before.heard().len() || since.stock() / 2 == wanted,
{
}

/// Playing a block shows its peaks, moves on by its length, and keeps the schedule, its knobs and
/// the queues.
pub proof fn blocks_move_the_callback_on(before: OutCtx, since: OutCtx)
    requires
        since.played_since(before),
    ensures
        since.playback().done == before.playback().done + block_length(before.playback()),
        since.playback().frames == before.playback().frames,
        since.schedule() is Some <==> before.schedule() is Some,
        since.schedule() is Some ==> since.kit() == before.kit(),
        since.received() == before.received(),
        since.pending() == before.pending(),
        since.retired() == before.retired(),
        since.retire_room() == before.retire_room(),
        since.stats() == before.stats(),
        since.has_input() == before.has_input(),
        since.stock() + (since.heard().len() - before.heard().len()) >= before.stock(),
        nodes::raised_by(before.stats().out_peak[0].cell(), since.playback().peaks.0),
        nodes::raised_by(before.stats().out_peak[1].cell(), since.playback().peaks.1),
        before.heard().is_prefix_of(since.heard()),
{
}

/// A block is shown on the meters of the output once, with its own peaks, and a callback is
/// counted as one that lacked input at most once: only its first block counts it, only where
/// there is an input, and just where a frame was missing after input had come.
pub proof fn each_block_is_noted_once(before: OutCtx, since: OutCtx)
    requires
        since.played_since(before),
    ensures
        ({
            let shown = Note::Output {
                left: since.playback().peaks.0,
                right: since.playback().peaks.1,
            };
            let lacked = since.playback().short && !before.playback().short;
            ||| since.notes() == before.notes().push(shown) && !lacked
            ||| {
                &&& since.notes() == before.notes().push(Note::Lack).push(shown)
                &&& since.playback().short
                &&& before.has_input()
                &&& before.playback().done == 0
                &&& nodes::counted_up(before.stats().xruns)
            }
        }),
{
    let (fed, q) = choose|fed: OutCtx, q: Playback|
        {
            &&& #[trigger] fed.fed_since(before)
            &&& #[trigger] block_played(fed.playback(), q, fed.kit())
            &&& since.playback() == block_written(q)
            &&& since.heard() == fed.heard()
            &&& since.stock() == fed.stock()
            &&& since.notes() == fed.notes().push(
                Note::Output { left: since.playback().peaks.0, right: since.playback().peaks.1 },
            )
        };
    assert(fed.fed_since(before));
}

/// Taking up a schedule and beginning a callback show nothing.
pub proof fn beginning_shows_nothing(before: OutCtx, since: OutCtx, wanted: int)
    requires
        since.begun_since(before, wanted),
    ensures
        since.notes() == before.notes(),
        since.stats() == before.stats(),
{
}

/// With every block, each step shows the peak of its output on its meter, once.
pub proof fn steps_show_their_peaks_once(before: OutCtx, since: OutCtx, i: int)
    requires
        since.played_since(before),
        before.schedule() is Some,
        0 <= i < before.schedule()->0.shown().len(),
    ensures
        since.schedule() is Some,
        since.schedule()->0.shown()[i] == before.schedule()->0.shown()[i].push(
            block::block_peak(
                since.schedule()->0.picture().bufs[i + 1],
                block_length(before.playback()),
            ),
        ),
{
}

/// Every block that is handed to the device follows on the one before: its frames begin where
/// those end, and go to the first two channels of the device, or the left side to the only one.
pub proof fn blocks_are_handed_on_in_order(
    show: Seq<(OutCtx, Seq<u32>)>,
    i: int,
    ch: int,
    f: int,
)
    requires
        followed(show, i, ch),
        ch >= 1,
        0 <= show[i].0.playback().done <= f,
        f < show[i + 1].0.playback().done,
        f * ch + ch <= show[i].1.len(),
    ensures
        ({
            let start = show[i].0.playback().done;
            let out = show[i + 1].0.playback().out;
            let data = show[i + 1].1;
            &&& data.len() == show[i].1.len()
            &&& data[f * ch] == out.0[f - start]
            &&& ch >= 2 ==> data[f * ch + 1] == out.1[f - start]
        }),
        show[i + 1].0.played_since(show[i].0),
{
    let p = show[i].0.playback();
    blocks_move_the_callback_on(show[i].0, show[i + 1].0);
    assert(f * ch >= 0) by (nonlinear_arith)
        requires
            f >= 0,
            ch >= 1,
    ;
    let out = show[i + 1].0.playback().out;
    frames_go_to_their_channels(show[i].1, out, p.done, block_length(p), ch, f, 0);
    if ch >= 2 {
        frames_go_to_their_channels(show[i].1, out, p.done, block_length(p), ch, f, 1);
    }
}

/// What is safe for a device is a number between the two ends of the scale.
pub proof fn safe_means_in_scale(b: u32)
    ensures
        safe(b) <==> sample::finite(b) && sample::value(b) <= sample::value(sample::ONE)
            && sample::value(b) >= sample::value(sample::MINUS_ONE),
{
    sample::one_is_the_unit();
}

/// What is seen of a schedule in use is the whole of it.
pub proof fn schedules_are_seen_whole(s: Option<Schedule>)
    ensures
        s is None <==> pictured(s) is None,
        s is Some ==> pictured(s)->0 == s->0.picture(),
{
}

/// A schedule that is sent is the next that goes out, and where there is room it is sent; what has
/// come back until then is freed on the occasion, and all of it that is known to have.
pub proof fn sent_schedules_go_out_in_order(
    e: &mut AudioEngine,
    s: Schedule,
    r: Result<(), String>,
)
    requires
        call_ensures(AudioEngine::send_schedule, (e, s), r),
    ensures
        old(e).room() > 0 ==> r is Ok,
        r is Ok ==> final(e).sent() == old(e).sent().push(s),
        r is Err ==> final(e).sent() == old(e).sent() && r->Err_0@ == "schedule queue full"@,
        final(e).info == old(e).info,
        final(e).freed().len() >= old(e).freed().len() + old(e).retired(),
{
}

/// What a callback hands to a device lies in its frames and in its first two channels, is safe
/// there, and leaves all else as it was.
pub proof fn callbacks_fill_their_frames(
    c: &mut OutCtx,
    wanted: usize,
    data: &mut Vec<u32>,
    ch: usize,
    f: int,
    k: int,
)
    requires
        call_ensures(OutCtx::render, (c, wanted, data, ch), ()),
        ch >= 1,
        0 <= f,
        0 <= k < ch,
        f * ch + k < old(data)@.len(),
    ensures
        final(data)@.len() == old(data)@.len(),
        f < wanted && k < 2 ==> sample::finite(final(data)@[f * ch + k]) && -sample::unit()
            <= sample::value(final(data)@[f * ch + k]) <= sample::unit(),
        f >= wanted || k >= 2 ==> final(data)@[f * ch + k] == old(data)@[f * ch + k],
        final(c).playback().done == wanted,
{
    let w = ch as int;
    assert(f * w >= 0) by (nonlinear_arith)
        requires
            f >= 0,
            w >= 1,
    ;
    vstd::arithmetic::div_mod::lemma_fundamental_div_mod_converse(f * w + k, w, f, k);
    assert(0 <= f * ch + k < final(data)@.len());
}

} // verus!
