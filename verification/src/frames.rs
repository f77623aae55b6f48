//! Stereo frames on their way through a ring of samples: left and right, one behind the
//! other, and never one without the other.
use crate::audio::EngineStats;
use crate::block;
use crate::nodes::{Buf, MAX_BLOCK};
use crate::nodes;
use crate::ring;
use crate::sample;
use vstd::prelude::*;

verus! {

/// A sample for the left side and one for the right.
pub type Frame = (u32, u32);

/// Those elements of a sequence that are marked.
pub open spec fn sifted<A>(s: Seq<A>, keep: Seq<bool>) -> Seq<A>
    decreases s.len(),
{
    if s.len() == 0 {
        Seq::empty()
    } else {
        let before = sifted(s.drop_last(), keep.drop_last());
        if keep.last() {
            before.push(s.last())
        } else {
            before
        }
    }
}

/// Frames as a row of samples.
pub open spec fn interleaved(frames: Seq<Frame>) -> Seq<u32>
    decreases frames.len(),
{
    if frames.len() == 0 {
        Seq::empty()
    } else {
        interleaved(frames.drop_last()).push(frames.last().0).push(frames.last().1)
    }
}

/// The first `n` frames of a block.
pub open spec fn frames_of(b: block::Block, n: int) -> Seq<Frame> {
    Seq::new(n as nat, |i: int| (b.0[i], b.1[i]))
}

/// The frames that a device with `ch` channels delivers: the first two channels, or the
/// only one on both sides. What is left over of an incomplete frame is not used.
pub open spec fn device_frames(data: Seq<u32>, ch: int) -> Seq<Frame> {
    Seq::new(
        (data.len() / ch as nat) as nat,
        |k: int|
            (
                data[k * ch],
                if ch > 1 {
                    data[k * ch + 1]
                } else {
                    data[k * ch]
                },
            ),
    )
}

/// The left side of some frames.
pub open spec fn lefts(frames: Seq<Frame>) -> Seq<u32> {
    frames.map_values(|f: Frame| f.0)
}

/// The right side of some frames.
pub open spec fn rights(frames: Seq<Frame>) -> Seq<u32> {
    frames.map_values(|f: Frame| f.1)
}

/// All elements are marked.
pub open spec fn all_kept(keep: Seq<bool>) -> bool {
    forall|i: int| 0 <= i < keep.len() ==> #[trigger] keep[i]
}

/// Frames for which this many samples, or places for them, were known to be there are all
/// marked.
pub open spec fn known_kept(keep: Seq<bool>, known: int) -> bool {
    forall|i: int| 0 <= i < keep.len() && 2 * (i + 1) <= known ==> #[trigger] keep[i]
}

// ---------------------------------------------------------------- laws

/// A row of samples holds two for each frame, and frame `i` stands at `2 * i`: whoever
/// reads samples in pairs, from the beginning, gets the frames back.
pub proof fn frames_stay_whole(frames: Seq<Frame>, i: int)
    requires
        0 <= i < frames.len(),
    ensures
        interleaved(frames).len() == 2 * frames.len(),
        interleaved(frames)[2 * i] == frames[i].0,
        interleaved(frames)[2 * i + 1] == frames[i].1,
    decreases frames.len(),
{
    row_has_two_for_each(frames);
    row_has_two_for_each(frames.drop_last());
    if i < frames.len() - 1 {
        frames_stay_whole(frames.drop_last(), i);
    }
}

/// A row of samples holds two for each frame.
pub proof fn row_has_two_for_each(frames: Seq<Frame>)
    ensures
        interleaved(frames).len() == 2 * frames.len(),
    decreases frames.len(),
{
    if frames.len() > 0 {
        row_has_two_for_each(frames.drop_last());
    }
}

/// Where all elements are marked, all are kept.
pub proof fn marked_means_kept<A>(s: Seq<A>, keep: Seq<bool>)
    requires
        s.len() == keep.len(),
        all_kept(keep),
    ensures
        sifted(s, keep) == s,
    decreases s.len(),
{
    if s.len() > 0 {
        let k = keep.drop_last();
        assert(all_kept(k)) by {
            assert forall|i: int| 0 <= i < k.len() implies #[trigger] k[i] by {
                assert(keep[i]);
            }
        }
        marked_means_kept(s.drop_last(), k);
        assert(keep[keep.len() - 1]);
        assert(s.drop_last().push(s.last()) =~= s);
    } else {
        assert(s =~= Seq::empty());
    }
}

/// One more element, marked or not.
pub proof fn sifted_push<A>(s: Seq<A>, keep: Seq<bool>, a: A, k: bool)
    requires
        s.len() == keep.len(),
    ensures
        sifted(s.push(a), keep.push(k)) == if k {
            sifted(s, keep).push(a)
        } else {
            sifted(s, keep)
        },
{
    assert(s.push(a).drop_last() =~= s);
    assert(keep.push(k).drop_last() =~= keep);
}

proof fn interleaved_push(frames: Seq<Frame>, f: Frame)
    ensures
        interleaved(frames.push(f)) == interleaved(frames).push(f.0).push(f.1),
{
    assert(frames.push(f).drop_last() =~= frames);
}

// ---------------------------------------------------------------- into the ring

/// A ring for the input: half a second of stereo at a given rate. The delay is kept much
/// shorter than that by [`catch_up`].
pub fn input_ring(rate: u32) -> (r: (rtrb::Producer<u32>, rtrb::Consumer<u32>))
    requires
        rate <= usize::MAX / 16,
    ensures
        ring::samples_sent(r.0) == Seq::<u32>::empty(),
        ring::room(r.0) == rate,
        ring::samples_taken(r.1) == Seq::<u32>::empty(),
        ring::stock(r.1) == 0,
{
    ring::new_sample_ring(rate as usize)
}

/// Puts what a device has delivered into the ring, a frame at a time while there is room
/// for one, and shows and gives the peaks of the two sides. Frames that find no room are lost.
pub fn capture(
    p: &mut rtrb::Producer<u32>,
    data: &[u32],
    ch: usize,
    stats: &EngineStats,
) -> (r: (u32, u32))
    requires
        ch >= 1,
    ensures
        r.0 == sample::peak_of(lefts(device_frames(data@, ch as int))),
        r.1 == sample::peak_of(rights(device_frames(data@, ch as int))),
        ({
            let frames = device_frames(data@, ch as int);
            &&& exists|keep: Seq<bool>|
                {
                    &&& keep.len() == frames.len()
                    &&& ring::samples_sent(*final(p)) == ring::samples_sent(*old(p))
                        + interleaved(#[trigger] sifted(frames, keep))
                    &&& known_kept(keep, ring::room(*old(p)) as int)
                }
            &&& 2 * frames.len() <= ring::room(*old(p)) ==> ring::samples_sent(*final(p))
                == ring::samples_sent(*old(p)) + interleaved(frames)
        }),
        nodes::raised_by(stats.in_peak[0].cell(), r.0),
        nodes::raised_by(stats.in_peak[1].cell(), r.1),
{
    let ghost frames = device_frames(data@, ch as int);
    let ghost mut keep: Seq<bool> = Seq::empty();
    let count = data.len() / ch;
    let mut pl = sample::ZERO;
    let mut pr = sample::ZERO;
    let mut k: usize = 0;
    let mut at: usize = 0;
    proof {
        assert(frames.take(0) =~= Seq::empty());
        assert(lefts(frames.take(0)) =~= Seq::empty());
        assert(rights(frames.take(0)) =~= Seq::empty());
        assert(ring::samples_sent(*p) =~= ring::samples_sent(*p) + interleaved(
            sifted(frames.take(0), keep),
        ));
        assert(0 * ch as int == 0) by (nonlinear_arith);
    }
    while k < count
        invariant
            ch >= 1,
            k <= count,
            count == data@.len() / ch as nat,
            frames == device_frames(data@, ch as int),
            at == k * ch,
            keep.len() == k,
            pl == sample::peak_of(lefts(frames.take(k as int))),
            pr == sample::peak_of(rights(frames.take(k as int))),
            ring::samples_sent(*p) == ring::samples_sent(*old(p)) + interleaved(
                sifted(frames.take(k as int), keep),
            ),
            known_kept(keep, ring::room(*old(p)) as int),
            2 * k <= ring::room(*old(p)) ==> ring::room(*p) + 2 * k >= ring::room(*old(p)),
        decreases count - k,
    {
        let ghost sent = ring::samples_sent(*p);
        assert(at + ch <= data@.len() && at + ch == (k + 1) * ch) by (nonlinear_arith)
            requires
                k < count,
                count == data@.len() / ch as nat,
                ch >= 1,
                at == k * ch,
        ;
        let l = data[at];
        let r = if ch > 1 {
            data[at + 1]
        } else {
            l
        };
        proof {
            let f = frames[k as int];
            assert(f == (l, r));
            let t = frames.take(k as int);
            let u = frames.take(k + 1);
            assert(u =~= t.push(f));
            assert(lefts(u).drop_last() =~= lefts(t));
            assert(rights(u).drop_last() =~= rights(t));
            sifted_push(t, keep, f, true);
            sifted_push(t, keep, f, false);
            interleaved_push(sifted(t, keep), f);
        }
        pl = sample::louder(pl, l);
        pr = sample::louder(pr, r);
        if ring::free_slots(p) >= 2 {
            let _ = ring::push_sample(p, l);
            let _ = ring::push_sample(p, r);
            proof {
                keep = keep.push(true);
            }
        } else {
            proof {
                keep = keep.push(false);
            }
        }
        assert(ring::samples_sent(*p) =~= ring::samples_sent(*old(p)) + interleaved(
            sifted(frames.take(k + 1), keep),
        ));
        k += 1;
        at += ch;
    }
    proof {
        assert(frames.take(count as int) =~= frames);
        if 2 * frames.len() <= ring::room(*old(p)) {
            assert(all_kept(keep));
            marked_means_kept(frames, keep);
        }
        assert(ring::samples_sent(*p) == ring::samples_sent(*old(p)) + interleaved(
            sifted(frames, keep),
        ));
    }
    stats.show_input(pl, pr);
    (pl, pr)
}

// ---------------------------------------------------------------- out of the ring

/// Frames that came out of a ring, and silence for those that were not there: `got` says
/// which were.
pub open spec fn drawn(frames: Seq<Frame>, got: Seq<bool>) -> bool {
    &&& got.len() == frames.len()
    &&& forall|i: int|
        0 <= i < got.len() && !#[trigger] got[i] ==> frames[i] == (sample::ZERO, sample::ZERO)
}

/// Some element is marked.
pub open spec fn any_kept(keep: Seq<bool>) -> bool {
    exists|i: int| 0 <= i < keep.len() && #[trigger] keep[i]
}

/// Takes `n` frames out of the ring, and puts silence where none is there. Says whether
/// there was one, and whether one was missing.
pub fn draw(c: &mut rtrb::Consumer<u32>, b: &mut Buf, n: usize) -> (r: (bool, bool))
    requires
        nodes::full_size(*old(b)),
        n <= MAX_BLOCK,
    ensures
        nodes::full_size(*final(b)),
        exists|got: Seq<bool>|
            {
                &&& #[trigger] drawn(frames_of(block::block_of(*final(b)), n as int), got)
                &&& ring::samples_taken(*final(c)) == ring::samples_taken(*old(c)) + interleaved(
                    sifted(frames_of(block::block_of(*final(b)), n as int), got),
                )
                &&& r.0 == any_kept(got)
                &&& r.1 == !all_kept(got)
                &&& known_kept(got, ring::stock(*old(c)) as int)
            },
        ring::stock(*final(c)) + (ring::samples_taken(*final(c)).len() - ring::samples_taken(
            *old(c),
        ).len()) >= ring::stock(*old(c)),
        forall|i: int|
            n <= i < MAX_BLOCK ==> #[trigger] block::block_of(*final(b)).0[i] == block::block_of(
                *old(b),
            ).0[i],
        forall|i: int|
            n <= i < MAX_BLOCK ==> #[trigger] block::block_of(*final(b)).1[i] == block::block_of(
                *old(b),
            ).1[i],
{
    let ghost mut got: Seq<bool> = Seq::empty();
    let mut any = false;
    let mut missed = false;
    let mut i: usize = 0;
    proof {
        assert(ring::samples_taken(*c) =~= ring::samples_taken(*c) + interleaved(
            sifted(frames_of(block::block_of(*b), 0), got),
        ));
    }
    while i < n
        invariant
            nodes::full_size(*b),
            i <= n <= MAX_BLOCK,
            drawn(frames_of(block::block_of(*b), i as int), got),
            ring::samples_taken(*c) == ring::samples_taken(*old(c)) + interleaved(
                sifted(frames_of(block::block_of(*b), i as int), got),
            ),
            any == any_kept(got),
            missed == !all_kept(got),
            known_kept(got, ring::stock(*old(c)) as int),
            ring::stock(*c) + (ring::samples_taken(*c).len() - ring::samples_taken(*old(c)).len())
                >= ring::stock(*old(c)),
            ring::samples_taken(*c).len() <= ring::samples_taken(*old(c)).len() + 2 * i,
            forall|j: int|
                n <= j < MAX_BLOCK ==> #[trigger] block::block_of(*b).0[j] == block::block_of(
                    *old(b),
                ).0[j],
            forall|j: int|
                n <= j < MAX_BLOCK ==> #[trigger] block::block_of(*b).1[j] == block::block_of(
                    *old(b),
                ).1[j],
        decreases n - i,
    {
        let ghost before = frames_of(block::block_of(*b), i as int);
        let ghost had = got;
        let mut l = sample::ZERO;
        let mut r = sample::ZERO;
        if ring::filled_slots(c) >= 2 {
            l = ring::pop_sample(c).unwrap_or(sample::ZERO);
            r = ring::pop_sample(c).unwrap_or(sample::ZERO);
            any = true;
            proof {
                got = got.push(true);
                assert(got[i as int]);
            }
        } else {
            missed = true;
            proof {
                got = got.push(false);
                assert(!got[i as int]);
            }
        }
        b[0].set(i, l);
        b[1].set(i, r);
        proof {
            let after = frames_of(block::block_of(*b), i + 1);
            assert(after =~= before.push((l, r)));
            sifted_push(before, had, (l, r), got.last());
            interleaved_push(sifted(before, had), (l, r));
            assert forall|j: int| 0 <= j < had.len() implies #[trigger] got[j] == had[j] by {}
            if any_kept(had) {
                let j = choose|j: int| 0 <= j < had.len() && #[trigger] had[j];
                assert(got[j]);
            }
            if !all_kept(had) {
                let j = choose|j: int| 0 <= j < had.len() && !(#[trigger] had[j]);
                assert(!got[j]);
            }
            assert(ring::samples_taken(*c) =~= ring::samples_taken(*old(c)) + interleaved(
                sifted(after, got),
            ));
        }
        i += 1;
    }
    (any, missed)
}

/// Where more than two callbacks of frames, and 64 more, are found waiting, all but the
/// newest callback of them are dropped; else nothing is. What has been taken and what is
/// known to be waiting is given for before and after.
pub open spec fn caught_up(
    taken: Seq<u32>,
    stock: nat,
    taken_since: Seq<u32>,
    stock_since: nat,
    frames: int,
) -> bool {
    let dropped = taken_since.len() - taken.len();
    let waiting = stock_since + dropped;
    &&& taken.is_prefix_of(taken_since)
    &&& waiting >= stock
    &&& dropped == if waiting / 2 > 2 * frames + 64 {
        2 * (waiting / 2 - frames)
    } else {
        0
    }
}

/// Keeps the delay of the input in bounds.
pub fn catch_up(c: &mut rtrb::Consumer<u32>, frames: usize)
    requires
        frames <= (usize::MAX - 64) / 2,
    ensures
        caught_up(
            ring::samples_taken(*old(c)),
            ring::stock(*old(c)),
            ring::samples_taken(*final(c)),
            ring::stock(*final(c)),
            frames as int,
        ),
{
    let avail: usize = ring::filled_slots(c) / 2;
    let limit: usize = frames * 2 + 64;
    if avail > limit {
        let _ = ring::drop_samples(c, (avail - frames) * 2);
    }
}

/// After catching up, no more than two callbacks of frames, and 64 more, are known to be
/// waiting, and only whole frames were dropped.
pub proof fn delay_stays_bounded(
    taken: Seq<u32>,
    stock: nat,
    taken_since: Seq<u32>,
    stock_since: nat,
    frames: int,
)
    requires
        0 <= frames,
        caught_up(taken, stock, taken_since, stock_since, frames),
    ensures
        stock_since / 2 <= 2 * frames + 64,
        (taken_since.len() - taken.len()) % 2 == 0,
        taken_since.len() > taken.len() ==> stock_since / 2 == frames,
{
}

/// Every channel of a device keeps its place: the left side is the first channel, the right side
/// the second, or the only one. There are as many frames as are complete.
pub proof fn device_channels_keep_their_sides(data: Seq<u32>, ch: int, k: int)
    requires
        ch >= 1,
        0 <= k,
        (k + 1) * ch <= data.len(),
    ensures
        k < device_frames(data, ch).len(),
        device_frames(data, ch).len() * ch <= data.len() < (device_frames(data, ch).len() + 1)
            * ch,
        device_frames(data, ch)[k].0 == data[k * ch],
        ch == 1 ==> device_frames(data, ch)[k].1 == data[k * ch],
        ch >= 2 ==> device_frames(data, ch)[k].1 == data[k * ch + 1],
        lefts(device_frames(data, ch))[k] == data[k * ch],
        rights(device_frames(data, ch))[k] == device_frames(data, ch)[k].1,
        lefts(device_frames(data, ch)).len() == device_frames(data, ch).len(),
        rights(device_frames(data, ch)).len() == device_frames(data, ch).len(),
{
    let n = data.len() as int;
    vstd::arithmetic::div_mod::lemma_fundamental_div_mod(n, ch);
    vstd::arithmetic::div_mod::lemma_mod_bound(n, ch);
    let q = n / ch;
    assert(q * ch <= n < (q + 1) * ch && k < q && q >= 0) by (nonlinear_arith)
        requires
            n == ch * q + n % ch,
            0 <= n % ch < ch,
            0 <= k,
            (k + 1) * ch <= n,
    ;
}

/// The frames of a block are its samples side by side.
pub proof fn frames_pair_the_sides(b: block::Block, n: int, i: int)
    requires
        0 <= i < n,
    ensures
        frames_of(b, n).len() == n,
        frames_of(b, n)[i].0 == b.0[i],
        frames_of(b, n)[i].1 == b.1[i],
{
}

/// A frame counts as known where both its samples were: then it is marked. Where a frame is not
/// marked, silence stands in for it.
pub proof fn marks_mean_what_they_say(
    frames: Seq<Frame>,
    marks: Seq<bool>,
    known: int,
    i: int,
)
    requires
        known_kept(marks, known),
        drawn(frames, marks),
        0 <= i < frames.len(),
    ensures
        marks.len() == frames.len(),
        2 * i + 2 <= known ==> marks[i],
        !marks[i] ==> frames[i].0 == sample::ZERO && frames[i].1 == sample::ZERO,
        all_kept(marks) ==> marks[i],
        marks[i] ==> any_kept(marks),
        any_kept(marks) ==> marks.contains(true),
        !all_kept(marks) ==> marks.contains(false),
{
    if any_kept(marks) {
        let j = choose|j: int| 0 <= j < marks.len() && #[trigger] marks[j];
        assert(marks[j] == true);
    }
    if !all_kept(marks) {
        let j = choose|j: int| 0 <= j < marks.len() && !(#[trigger] marks[j]);
        assert(marks[j] == false);
    }
}

/// Nothing is dropped unless more than two callbacks of frames, and 64 more, were waiting, and
/// then one callback of frames is left, and one sample more if there was an odd one.
pub proof fn only_a_long_delay_is_cut(
    taken: Seq<u32>,
    stock: nat,
    taken_since: Seq<u32>,
    stock_since: nat,
    frames: int,
)
    requires
        0 <= frames,
        caught_up(taken, stock, taken_since, stock_since, frames),
    ensures
        ({
            let dropped = taken_since.len() - taken.len();
            let waiting = stock_since + dropped;
            &&& dropped >= 0
            &&& taken_since.take(taken.len() as int) == taken
            &&& waiting >= stock
            &&& dropped > 0 <==> waiting >= 2 * (2 * frames + 65)
            &&& dropped > 0 ==> 2 * frames <= stock_since <= 2 * frames + 1
        }),
{
}

} // verus!
