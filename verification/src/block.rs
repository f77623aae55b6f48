//! The processing of one block, as a machine that says what to do next.
//!
//! A schedule is worked off step by step: the sources of a step are added up, its
//! processor runs, and its output is made finite. Adding and processing are asked for, one
//! by one. The machine is described by what it holds, a [`Picture`].
use crate::adding;
use crate::nodes::{AtomicF32, Buf, Processor, MAX_BLOCK};
use crate::nodes;
use crate::sample;
use std::sync::atomic::AtomicBool;
use vstd::prelude::*;

verus! {

/// Where the processing of a block stands.
#[derive(Debug, Clone, Copy, PartialEq, Eq, Structural)]
pub enum Cursor {
    /// The sources of a step are being mixed, and this many of them have been.
    Mixing { step: usize, source: usize },
    /// The processor of a step is at work.
    Processing { step: usize },
    /// The sources of the output are being mixed, and this many of them have been.
    Sending { source: usize },
}

/// The two channels of a buffer.
pub type Block = (Seq<u32>, Seq<u32>);

/// What a buffer holds.
pub open spec fn block_of(b: Buf) -> Block {
    (b[0]@, b[1]@)
}

/// The first `n` samples of `src`, and behind them what `dst` holds there.
pub open spec fn overlaid(dst: Seq<u32>, src: Seq<u32>, n: int) -> Seq<u32> {
    Seq::new(
        dst.len(),
        |i: int|
            if i < n {
                src[i]
            } else {
                dst[i]
            },
    )
}

/// A block whose first `n` frames are those of another.
pub open spec fn copied(dst: Block, src: Block, n: int) -> Block {
    (overlaid(dst.0, src.0, n), overlaid(dst.1, src.1, n))
}

/// A channel whose first `n` samples are silent.
pub open spec fn quieted(s: Seq<u32>, n: int) -> Seq<u32> {
    Seq::new(
        s.len(),
        |i: int|
            if i < n {
                sample::ZERO
            } else {
                s[i]
            },
    )
}

/// A block whose first `n` frames are silent.
pub open spec fn silenced(b: Block, n: int) -> Block {
    (quieted(b.0, n), quieted(b.1, n))
}

/// A channel whose first `n` samples are finite.
pub open spec fn purged(s: Seq<u32>, n: int) -> Seq<u32> {
    Seq::new(
        s.len(),
        |i: int|
            if i < n {
                sample::cleaned(s[i])
            } else {
                s[i]
            },
    )
}

/// A block whose first `n` frames are finite: what is not is silent.
pub open spec fn cleaned_block(b: Block, n: int) -> Block {
    (purged(b.0, n), purged(b.1, n))
}

/// The loudest of the first `n` frames.
pub open spec fn block_peak(b: Block, n: int) -> u32 {
    sample::peak_of(b.0.take(n) + b.1.take(n))
}

/// What comes next in the processing of a block.
#[derive(Debug, Clone, Copy, PartialEq, Eq, Structural)]
pub enum Work {
    /// Add a buffer to the mix of the step at hand.
    Mix { src: usize },
    /// Let the processor of a step turn the mix into the output of the step.
    Process { step: usize },
    /// Nothing: the output of a step is settled, and this loud.
    Settled { step: usize, peak: u32 },
    /// Add a buffer to the output.
    Send { src: usize },
    /// Nothing: the output is complete.
    Ready,
}

/// What a schedule holds and where it stands.
#[verifier::ext_equal]
pub ghost struct Picture {
    pub fed_by: Seq<Seq<int>>,
    pub out_fed_by: Seq<int>,
    pub bufs: Seq<Block>,
    pub scratch: Block,
    pub levels: Seq<u32>,
    pub procs: Seq<Box<dyn Processor>>,
    /// Samples that are too small count as zero when they are added.
    pub flush: bool,
    pub at: Cursor,
}

/// The processing of a step begins, or behind the last step that of the output.
pub open spec fn entered(p: Picture, out: Block, step: int, n: int) -> (Picture, Block) {
    if step < p.fed_by.len() {
        (
            Picture {
                scratch: silenced(p.scratch, n),
                at: Cursor::Mixing { step: step as usize, source: 0 },
                ..p
            },
            out,
        )
    } else {
        (Picture { at: Cursor::Sending { source: 0 }, ..p }, silenced(out, n))
    }
}

/// The output of a step is made finite, and its level is taken.
pub open spec fn settled(p: Picture, step: int, n: int) -> Picture {
    let b = cleaned_block(p.bufs[step + 1], n);
    Picture {
        bufs: p.bufs.update(step + 1, b),
        levels: p.levels.update(step, block_peak(b, n)),
        ..p
    }
}

/// A step that is switched off passes its mix on.
pub open spec fn passed_on(p: Picture, step: int, n: int) -> Picture {
    Picture { bufs: p.bufs.update(step + 1, copied(p.bufs[step + 1], p.scratch, n)), ..p }
}

/// What comes next, and how the schedule and the output then stand. `bypass` says whether
/// the step at hand is switched off.
pub open spec fn next_work(p: Picture, out: Block, n: int, bypass: bool) -> (Picture, Block, Work) {
    match p.at {
        Cursor::Mixing { step, source } => if source < p.fed_by[step as int].len() {
            (
                Picture { at: Cursor::Mixing { step, source: (source + 1) as usize }, ..p },
                out,
                Work::Mix { src: p.fed_by[step as int][source as int] as usize },
            )
        } else if bypass {
            let q = settled(passed_on(p, step as int, n), step as int, n);
            let (r, o) = entered(q, out, step + 1, n);
            (r, o, Work::Settled { step, peak: q.levels[step as int] })
        } else {
            (Picture { at: Cursor::Processing { step }, ..p }, out, Work::Process { step })
        },
        Cursor::Processing { step } => {
            let q = settled(p, step as int, n);
            let (r, o) = entered(q, out, step + 1, n);
            (r, o, Work::Settled { step, peak: q.levels[step as int] })
        },
        Cursor::Sending { source } => if source < p.out_fed_by.len() {
            (
                Picture { at: Cursor::Sending { source: (source + 1) as usize }, ..p },
                out,
                Work::Send { src: p.out_fed_by[source as int] as usize },
            )
        } else {
            (p, out, Work::Ready)
        },
    }
}

// ---------------------------------------------------------------- buffers

fn silence_channel(v: &mut Vec<u32>, n: usize)
    requires
        n <= old(v)@.len(),
    ensures
        final(v)@ == quieted(old(v)@, n as int),
{
    let mut i: usize = 0;
    while i < n
        invariant
            i <= n <= v@.len(),
            v@ == quieted(old(v)@, i as int),
        decreases n - i,
    {
        v.set(i, sample::ZERO);
        i += 1;
        assert(v@ =~= quieted(old(v)@, i as int));
    }
}

fn copy_channel(v: &mut Vec<u32>, from: &Vec<u32>, n: usize)
    requires
        n <= old(v)@.len(),
        n <= from@.len(),
    ensures
        final(v)@ == overlaid(old(v)@, from@, n as int),
{
    let mut i: usize = 0;
    while i < n
        invariant
            i <= n <= v@.len(),
            n <= from@.len(),
            v@ == overlaid(old(v)@, from@, i as int),
        decreases n - i,
    {
        v.set(i, from[i]);
        i += 1;
        assert(v@ =~= overlaid(old(v)@, from@, i as int));
    }
}

/// Makes the first samples finite, and raises a peak to the loudest of them.
fn purge_channel(v: &mut Vec<u32>, n: usize, peak: u32, Ghost(seen): Ghost<Seq<u32>>) -> (r: u32)
    requires
        n <= old(v)@.len(),
        peak == sample::peak_of(seen),
    ensures
        final(v)@ == purged(old(v)@, n as int),
        r == sample::peak_of(seen + final(v)@.take(n as int)),
{
    let mut pk = peak;
    let mut i: usize = 0;
    assert(seen + v@.take(0) =~= seen);
    while i < n
        invariant
            i <= n <= v@.len(),
            v@ == purged(old(v)@, i as int),
            pk == sample::peak_of(seen + v@.take(i as int)),
        decreases n - i,
    {
        let s = sample::clean(v[i]);
        let ghost before = v@;
        v.set(i, s);
        pk = sample::louder(pk, s);
        proof {
            assert(v@ =~= purged(old(v)@, i + 1));
            let run = seen + v@.take(i + 1);
            assert(run.drop_last() =~= seen + before.take(i as int));
            assert(run.last() == s);
        }
        i += 1;
    }
    pk
}

/// Makes the first frames silent.
pub fn silence(b: &mut Buf, n: usize)
    requires
        nodes::full_size(*old(b)),
        n <= MAX_BLOCK,
    ensures
        nodes::full_size(*final(b)),
        block_of(*final(b)) == silenced(block_of(*old(b)), n as int),
{
    silence_channel(&mut b[0], n);
    silence_channel(&mut b[1], n);
}

/// Copies the first frames of another buffer.
pub fn copy(b: &mut Buf, from: &Buf, n: usize)
    requires
        nodes::full_size(*old(b)),
        nodes::full_size(*from),
        n <= MAX_BLOCK,
    ensures
        nodes::full_size(*final(b)),
        block_of(*final(b)) == copied(block_of(*old(b)), block_of(*from), n as int),
{
    copy_channel(&mut b[0], &from[0], n);
    copy_channel(&mut b[1], &from[1], n);
}

/// Makes the first frames finite and gives the loudest of them.
pub fn purge(b: &mut Buf, n: usize) -> (peak: u32)
    requires
        nodes::full_size(*old(b)),
        n <= MAX_BLOCK,
    ensures
        nodes::full_size(*final(b)),
        block_of(*final(b)) == cleaned_block(block_of(*old(b)), n as int),
        peak == block_peak(block_of(*final(b)), n as int),
{
    let l = purge_channel(&mut b[0], n, sample::ZERO, Ghost(Seq::empty()));
    let ghost left = b[0]@.take(n as int);
    assert(Seq::<u32>::empty() + left =~= left);
    purge_channel(&mut b[1], n, l, Ghost(left))
}

/// A channel that has room for a block: what there is of it, and silence behind that.
pub open spec fn refitted(s: Seq<u32>) -> Seq<u32> {
    Seq::new(
        MAX_BLOCK as nat,
        |i: int|
            if i < s.len() {
                s[i]
            } else {
                sample::ZERO
            },
    )
}

/// A block whose channels have room for a block.
pub open spec fn refitted_block(b: Block) -> Block {
    (refitted(b.0), refitted(b.1))
}

fn add_channel(v: &mut Vec<u32>, from: &Vec<u32>, n: usize, flush: bool)
    requires
        n <= old(v)@.len(),
        n <= from@.len(),
    ensures
        added_up(flush, old(v)@, from@, n as int, final(v)@),
{
    let mut i: usize = 0;
    while i < n
        invariant
            i <= n <= v@.len(),
            n <= from@.len(),
            added_up(flush, old(v)@, from@, i as int, v@),
        decreases n - i,
    {
        assert(v@[i as int] == old(v)@[i as int]);
        let sum = adding::plus_as(flush, v[i], from[i]);
        v.set(i, sum);
        i += 1;
    }
}

/// Adds the first frames of another buffer; samples that are too small may count as zero.
pub fn mix_in(b: &mut Buf, from: &Buf, n: usize, flush: bool)
    requires
        nodes::full_size(*old(b)),
        nodes::full_size(*from),
        n <= MAX_BLOCK,
    ensures
        nodes::full_size(*final(b)),
        mixed(flush, block_of(*old(b)), block_of(*from), n as int, block_of(*final(b))),
{
    add_channel(&mut b[0], &from[0], n, flush);
    add_channel(&mut b[1], &from[1], n, flush);
}

/// Gives a channel room for a block again, should it have lost or gained some: what there is
/// stays, as far as there is room.
pub fn refit(v: &mut Vec<u32>)
    ensures
        final(v)@ == refitted(old(v)@),
        final(v)@.len() == MAX_BLOCK,
{
    if v.len() > MAX_BLOCK {
        v.truncate(MAX_BLOCK);
    }
    while v.len() < MAX_BLOCK
        invariant
            v@.len() <= MAX_BLOCK,
            v@ == refitted(old(v)@).take(v@.len() as int),
            v@.len() < MAX_BLOCK ==> v@.len() >= old(v)@.len(),
        decreases MAX_BLOCK - v@.len(),
    {
        v.push(sample::ZERO);
        assert(v@ =~= refitted(old(v)@).take(v@.len() as int));
    }
    assert(v@ =~= refitted(old(v)@));
}

// ---------------------------------------------------------------- laws

/// What a schedule looks like: a buffer for the input and one for each step, buffer
/// numbers that exist, and a cursor that stands somewhere.
pub open spec fn sound(p: Picture) -> bool {
    &&& p.bufs.len() == p.fed_by.len() + 1
    &&& p.levels.len() == p.fed_by.len()
    &&& p.procs.len() == p.fed_by.len()
    &&& p.fed_by.len() < usize::MAX
    &&& forall|b: int|
        0 <= b < p.bufs.len() ==> (#[trigger] p.bufs[b]).0.len() == MAX_BLOCK && p.bufs[b].1.len()
            == MAX_BLOCK
    &&& p.scratch.0.len() == MAX_BLOCK && p.scratch.1.len() == MAX_BLOCK
    &&& forall|i: int, k: int|
        0 <= i < p.fed_by.len() && 0 <= k < p.fed_by[i].len() ==> 0 <= #[trigger] p.fed_by[i][k]
            <= p.fed_by.len()
    &&& forall|k: int|
        0 <= k < p.out_fed_by.len() ==> 0 <= #[trigger] p.out_fed_by[k] <= p.fed_by.len()
    &&& forall|i: int| 0 <= i < p.fed_by.len() ==> (#[trigger] p.fed_by[i]).len() <= usize::MAX
    &&& p.out_fed_by.len() <= usize::MAX
    &&& match p.at {
        Cursor::Mixing { step, source } => step < p.fed_by.len() && source <= p.fed_by[step
            as int].len(),
        Cursor::Processing { step } => step < p.fed_by.len(),
        Cursor::Sending { source } => source <= p.out_fed_by.len(),
    }
}

/// Every step takes its signal from the input and from steps before it.
pub open spec fn in_order(fed_by: Seq<Seq<int>>) -> bool {
    forall|i: int, k: int|
        0 <= i < fed_by.len() && 0 <= k < fed_by[i].len() ==> 0 <= #[trigger] fed_by[i][k] <= i
}

/// A schedule in order asks, while it is at a step, only for the input and for the outputs
/// of steps before it; and it asks for no buffer that there is not.
pub proof fn block_reads_what_is_there(p: Picture, out: Block, n: int, bypass: bool)
    requires
        sound(p),
        in_order(p.fed_by),
    ensures
        match next_work(p, out, n, bypass).2 {
            Work::Mix { src } => p.at is Mixing && src <= p.at->Mixing_step,
            Work::Send { src } => src < p.bufs.len(),
            _ => true,
        },
{
    match p.at {
        Cursor::Mixing { step, source } => {
            if source < p.fed_by[step as int].len() {
                assert(p.fed_by[step as int][source as int] <= step);
            }
        },
        Cursor::Processing { step } => {},
        Cursor::Sending { source } => {
            if source < p.out_fed_by.len() {
                assert(p.out_fed_by[source as int] <= p.fed_by.len());
            }
        },
    }
}

/// How many steps have settled their outputs.
pub open spec fn steps_done(p: Picture) -> int {
    match p.at {
        Cursor::Mixing { step, source } => step as int,
        Cursor::Processing { step } => step as int,
        Cursor::Sending { source } => p.fed_by.len() as int,
    }
}

/// Nothing but finite numbers in the first `n` frames of a block.
pub open spec fn clean(b: Block, n: int) -> bool {
    forall|i: int|
        #![trigger b.0[i]]
        #![trigger b.1[i]]
        0 <= i < n ==> sample::finite(b.0[i]) && sample::finite(b.1[i])
}

/// The outputs of all steps that are done hold nothing but finite numbers.
pub open spec fn clean_so_far(p: Picture, n: int) -> bool {
    forall|b: int| 1 <= b <= steps_done(p) ==> clean(#[trigger] p.bufs[b], n)
}

/// Whatever the processors do, not-a-number and infinity never get past the step where
/// they arise: a block begins clean, and each step keeps it so.
pub proof fn block_stays_clean(p: Picture, out: Block, n: int, bypass: bool)
    requires
        sound(p),
        0 <= n <= MAX_BLOCK,
    ensures
        clean_so_far(entered(p, out, 0, n).0, n),
        clean_so_far(p, n) ==> clean_so_far(next_work(p, out, n, bypass).0, n),
{
    let q = next_work(p, out, n, bypass).0;
    assert forall|b: int| 1 <= b <= steps_done(q) && clean_so_far(p, n) implies clean(
        #[trigger] q.bufs[b],
        n,
    ) by {
        if b <= steps_done(p) {
            assert(clean(p.bufs[b], n));
            assert(q.bufs[b] == p.bufs[b]);
        }
    }
    if p.fed_by.len() == 0 {
        assert(steps_done(entered(p, out, 0, n).0) == 0);
    }
}

// ---------------------------------------------------------------- whole blocks

/// A schedule and an output.
pub type Scene = (Picture, Block);

/// What a schedule shares with the control side, step by step: the cells of the parameters, the
/// switches and the meters.
#[verifier::ext_equal]
pub ghost struct Kit {
    pub cells: Seq<Seq<AtomicF32>>,
    pub switches: Seq<AtomicBool>,
    pub meters: Seq<AtomicF32>,
}

/// A channel to whose first `n` samples those of another have been added.
pub open spec fn added_up(
    flush: bool,
    acc: Seq<u32>,
    from: Seq<u32>,
    n: int,
    since: Seq<u32>,
) -> bool {
    &&& since.len() == acc.len()
    &&& forall|i: int|
        0 <= i < since.len() ==> if i < n {
            adding::adds_to(flush, acc[i], from[i], #[trigger] since[i])
        } else {
            since[i] == acc[i]
        }
}

/// A block to whose first `n` frames those of another have been added.
pub open spec fn mixed(flush: bool, acc: Block, from: Block, n: int, since: Block) -> bool {
    added_up(flush, acc.0, from.0, n, since.0) && added_up(flush, acc.1, from.1, n, since.1)
}

/// One of some processors has made its output of a mix, where `before` stood, and remembers
/// `memory`.
pub open spec fn processed(
    procs: Seq<Box<dyn Processor>>,
    step: int,
    cells: Seq<AtomicF32>,
    mix: Block,
    before: Block,
    n: int,
    since: Block,
    memory: Seq<u32>,
) -> bool {
    exists|made: Block|
        {
            &&& #[trigger] procs[step].may_turn(cells, mix, before, n, made, memory)
            &&& since == refitted_block(made)
        }
}

/// All processors but that of a step are as they were.
pub open spec fn others_kept(
    was: Seq<Box<dyn Processor>>,
    now: Seq<Box<dyn Processor>>,
    step: int,
) -> bool {
    &&& now.len() == was.len()
    &&& forall|i: int| 0 <= i < was.len() && i != step ==> #[trigger] now[i] == was[i]
}

/// One work has been done. What comes next was asked for, with the switch of the step at hand
/// found so; and then a source was added to the mix, the processor of the step, and no other,
/// made its output of the mix, the meter of a settled step was raised, or a source was added to
/// the output.
pub open spec fn worked_with(a: Scene, b: Scene, n: int, bypass: bool, kit: Kit) -> bool {
    let (p, o, w) = next_work(a.0, a.1, n, bypass);
    &&& a.0.at matches Cursor::Mixing { step, source } ==> nodes::found_at(
        kit.switches[step as int],
        bypass,
    )
    &&& match w {
        Work::Mix { src } => {
            &&& mixed(p.flush, p.scratch, p.bufs[src as int], n, b.0.scratch)
            &&& b == (Picture { scratch: b.0.scratch, ..p }, o)
        },
        Work::Process { step } => {
            &&& processed(
                p.procs,
                step as int,
                kit.cells[step as int],
                p.scratch,
                p.bufs[step + 1],
                n,
                b.0.bufs[step + 1],
                b.0.procs[step as int].memory(),
            )
            &&& others_kept(p.procs, b.0.procs, step as int)
            &&& b == (
                Picture {
                    bufs: p.bufs.update(step + 1, b.0.bufs[step + 1]),
                    procs: b.0.procs,
                    ..p
                },
                o,
            )
        },
        Work::Settled { step, peak } => {
            &&& nodes::raised_by(kit.meters[step as int].cell(), peak)
            &&& b == (p, o)
        },
        Work::Send { src } => {
            &&& mixed(p.flush, o, p.bufs[src as int], n, b.1)
            &&& b.0 == p
        },
        Work::Ready => false,
    }
}

/// One work has been done, with the step at hand switched off or on.
pub open spec fn worked(a: Scene, b: Scene, n: int, kit: Kit) -> bool {
    exists|bypass: bool| worked_with(a, b, n, bypass, kit)
}

/// A work leads from one scene of a run to the next.
pub open spec fn linked(run: Seq<Scene>, i: int, n: int, kit: Kit) -> bool {
    worked(run[i], run[i + 1], n, kit)
}

/// A block has been worked off, from its beginning until nothing was left to do.
pub open spec fn worked_off(run: Seq<Scene>, from: Scene, n: int, kit: Kit) -> bool {
    &&& run.len() > 0
    &&& run[0] == entered(from.0, from.1, 0, n)
    &&& forall|i: int| 0 <= i < run.len() - 1 ==> #[trigger] linked(run, i, n, kit)
    &&& works_left(run.last().0) == 0
}

/// The works of the steps from `step` on, and behind them those of the output.
pub open spec fn works_from(p: Picture, step: int) -> int
    decreases p.fed_by.len() - step,
{
    if step >= p.fed_by.len() {
        p.out_fed_by.len() as int
    } else {
        p.fed_by[step].len() + 2 + works_from(p, step + 1)
    }
}

/// At most how many works come before the block is ready.
pub open spec fn works_left(p: Picture) -> int {
    match p.at {
        Cursor::Mixing { step, source } => p.fed_by[step as int].len() - source + 2 + works_from(
            p,
            step + 1,
        ),
        Cursor::Processing { step } => 1 + works_from(p, step + 1),
        Cursor::Sending { source } => p.out_fed_by.len() - source,
    }
}

/// What is left to do does not depend on what the buffers hold.
pub proof fn works_left_is_the_same(p: Picture, q: Picture)
    requires
        q.fed_by == p.fed_by,
        q.out_fed_by == p.out_fed_by,
        q.at == p.at,
    ensures
        works_left(q) == works_left(p),
{
    match p.at {
        Cursor::Mixing { step, source } => {
            works_from_is_the_same(p, q, step + 1);
        },
        Cursor::Processing { step } => {
            works_from_is_the_same(p, q, step + 1);
        },
        Cursor::Sending { source } => {},
    }
}

proof fn works_from_is_the_same(p: Picture, q: Picture, step: int)
    requires
        q.fed_by == p.fed_by,
        q.out_fed_by == p.out_fed_by,
        0 <= step,
    ensures
        works_from(q, step) == works_from(p, step),
        works_from(p, step) >= 0,
    decreases p.fed_by.len() - step,
{
    if step < p.fed_by.len() {
        works_from_is_the_same(p, q, step + 1);
    }
}

/// Every block comes to an end: each work leaves fewer, and when none is left the block
/// is ready.
pub proof fn block_comes_to_an_end(p: Picture, out: Block, n: int, bypass: bool)
    requires
        sound(p),
    ensures
        works_left(p) >= 0,
        ({
            let (q, o, w) = next_work(p, out, n, bypass);
            &&& w is Ready <==> works_left(p) == 0
            &&& w is Ready ==> q == p && o == out
            &&& !(w is Ready) ==> works_left(q) < works_left(p)
        }),
{
    let (q, o, w) = next_work(p, out, n, bypass);
    match p.at {
        Cursor::Mixing { step, source } => {
            works_from_is_the_same(p, q, step + 1);
            works_from_is_the_same(p, q, step + 2);
        },
        Cursor::Processing { step } => {
            works_from_is_the_same(p, q, step + 1);
            works_from_is_the_same(p, q, step + 2);
        },
        Cursor::Sending { source } => {},
    }
}

/// Where nothing is left to do, all sources of the output have been sent.
pub proof fn ends_with_the_output(p: Picture)
    requires
        sound(p),
        works_left(p) == 0,
    ensures
        p.at == (Cursor::Sending { source: p.out_fed_by.len() as usize }),
{
    match p.at {
        Cursor::Mixing { step, source } => {
            works_from_is_the_same(p, p, step + 1);
        },
        Cursor::Processing { step } => {
            works_from_is_the_same(p, p, step + 1);
        },
        Cursor::Sending { source } => {},
    }
}

/// What is done for one step: its sources are mixed in the order of the cables, then its
/// processor runs unless the step is switched off, then its output is settled.
pub open spec fn step_script(fed: Seq<int>, step: int, off: bool) -> Seq<(int, int)> {
    fed.map_values(|b: int| (0int, b)) + (if off {
        Seq::empty()
    } else {
        seq![(1int, step)]
    }) + seq![(2int, step)]
}

/// What is done for the first `k` steps of a block.
pub open spec fn steps_script(fed_by: Seq<Seq<int>>, off: Seq<bool>, k: int) -> Seq<(int, int)>
    decreases k,
{
    if k <= 0 {
        Seq::empty()
    } else {
        steps_script(fed_by, off, k - 1) + step_script(fed_by[k - 1], k - 1, off[k - 1])
    }
}

/// What is done for a whole block: all steps in their order, then the output.
pub open spec fn block_script(p: Picture, off: Seq<bool>) -> Seq<(int, int)> {
    steps_script(p.fed_by, off, p.fed_by.len() as int) + p.out_fed_by.map_values(
        |b: int| (3int, b),
    )
}

/// A work as an entry of a script.
pub open spec fn entry(w: Work) -> (int, int) {
    match w {
        Work::Mix { src } => (0, src as int),
        Work::Process { step } => (1, step as int),
        Work::Settled { step, peak } => (2, step as int),
        Work::Send { src } => (3, src as int),
        Work::Ready => (4, 0),
    }
}

/// How far a block has come in its script.
pub open spec fn script_place(p: Picture, off: Seq<bool>) -> int {
    match p.at {
        Cursor::Mixing { step, source } => steps_script(p.fed_by, off, step as int).len() + source,
        Cursor::Processing { step } => (steps_script(p.fed_by, off, step as int).len()
            + p.fed_by[step as int].len() + 1) as int,
        Cursor::Sending { source } => steps_script(p.fed_by, off, p.fed_by.len() as int).len()
            + source,
    }
}

proof fn script_has_its_steps(fed_by: Seq<Seq<int>>, off: Seq<bool>, k: int, n: int)
    requires
        0 <= k < n <= fed_by.len(),
    ensures
        steps_script(fed_by, off, k).len() + step_script(fed_by[k], k, off[k]).len()
            == steps_script(fed_by, off, k + 1).len(),
        steps_script(fed_by, off, k + 1).len() <= steps_script(fed_by, off, n).len(),
        forall|i: int|
            0 <= i < step_script(fed_by[k], k, off[k]).len() ==> steps_script(
                fed_by,
                off,
                n,
            )[steps_script(fed_by, off, k).len() + i] == #[trigger] step_script(
                fed_by[k],
                k,
                off[k],
            )[i],
    decreases n,
{
    if k < n - 1 {
        script_has_its_steps(fed_by, off, k, n - 1);
    }
}

/// A block is worked off by its script, entry by entry, to the end. `off` says of each
/// step whether it is found switched off when it is at hand.
pub proof fn block_follows_its_script(p: Picture, out: Block, n: int, off: Seq<bool>, bypass: bool)
    requires
        sound(p),
        off.len() == p.fed_by.len(),
        match p.at {
            Cursor::Mixing { step, source } => bypass == off[step as int],
            Cursor::Processing { step } => !off[step as int],
            Cursor::Sending { source } => true,
        },
    ensures
        script_place(entered(p, out, 0, n).0, off) == 0,
        ({
            let (q, o, w) = next_work(p, out, n, bypass);
            let at = script_place(p, off);
            if w is Ready {
                at == block_script(p, off).len()
            } else {
                &&& 0 <= at < block_script(p, off).len()
                &&& entry(w) == block_script(p, off)[at]
                &&& script_place(q, off) == at + 1
                &&& block_script(q, off) == block_script(p, off)
            }
        }),
{
    let (q, o, w) = next_work(p, out, n, bypass);
    let all = p.fed_by.len() as int;
    let steps = steps_script(p.fed_by, off, all);
    match p.at {
        Cursor::Mixing { step, source } => {
            let i = step as int;
            script_has_its_steps(p.fed_by, off, i, all);
            let mine = step_script(p.fed_by[i], i, off[i]);
            let start = steps_script(p.fed_by, off, i).len() as int;
            assert(mine.len() == p.fed_by[i].len() + if off[i] {
                1int
            } else {
                2
            });
            if source < p.fed_by[i].len() {
                assert(0 <= p.fed_by[i][source as int] <= p.fed_by.len());
            }
            assert(entry(w) == mine[source as int]);
            assert(steps[start + source] == mine[source as int]);
        },
        Cursor::Processing { step } => {
            let i = step as int;
            script_has_its_steps(p.fed_by, off, i, all);
            let mine = step_script(p.fed_by[i], i, off[i]);
            let start = steps_script(p.fed_by, off, i).len() as int;
            let k = p.fed_by[i].len() as int;
            assert(mine.len() == k + 2);
            assert(entry(w) == mine[k + 1]);
            assert(steps[start + (k + 1)] == mine[k + 1]);
        },
        Cursor::Sending { source } => {
            if source < p.out_fed_by.len() {
                assert(0 <= p.out_fed_by[source as int] <= p.fed_by.len());
            }
        },
    }
}

proof fn next_keeps_sound(p: Picture, out: Block, n: int, bypass: bool)
    requires
        sound(p),
        0 <= n <= MAX_BLOCK,
    ensures
        sound(entered(p, out, 0, n).0),
        sound(next_work(p, out, n, bypass).0),
        next_work(p, out, n, bypass).0.fed_by == p.fed_by,
        next_work(p, out, n, bypass).0.out_fed_by == p.out_fed_by,
{
    match p.at {
        Cursor::Mixing { step, source } => {
            if source >= p.fed_by[step as int].len() && bypass {
                let m = passed_on(p, step as int, n);
                assert(m.bufs[step + 1].0.len() == MAX_BLOCK);
                assert(sound(settled(m, step as int, n)));
            }
        },
        Cursor::Processing { step } => {
            assert(sound(settled(p, step as int, n)));
        },
        Cursor::Sending { source } => {},
    }
}

/// Every scene of a run is sound, and has the cables of the first.
pub proof fn scenes_are_sound(run: Seq<Scene>, from: Scene, n: int, i: int, kit: Kit)
    requires
        sound(from.0),
        0 <= n <= MAX_BLOCK,
        worked_off(run, from, n, kit),
        0 <= i < run.len(),
    ensures
        sound(run[i].0),
        run[i].0.fed_by == from.0.fed_by,
        run[i].0.out_fed_by == from.0.out_fed_by,
    decreases i,
{
    next_keeps_sound(from.0, from.1, n, false);
    if i > 0 {
        scenes_are_sound(run, from, n, i - 1, kit);
        assert(linked(run, i - 1, n, kit));
        let a = run[i - 1];
        let b = run[i];
        let bypass = choose|bypass: bool| worked_with(a, b, n, bypass, kit);
        next_keeps_sound(a.0, a.1, n, bypass);
    }
}

/// Along a run there is less and less to do.
proof fn scenes_lead_on(run: Seq<Scene>, from: Scene, n: int, i: int, j: int, kit: Kit)
    requires
        sound(from.0),
        0 <= n <= MAX_BLOCK,
        worked_off(run, from, n, kit),
        0 <= i < j < run.len(),
    ensures
        works_left(run[j].0) < works_left(run[i].0),
    decreases j,
{
    let a = run[j - 1];
    let b = run[j];
    scenes_are_sound(run, from, n, j - 1, kit);
    assert(linked(run, j - 1, n, kit));
    let bypass = choose|bypass: bool| worked_with(a, b, n, bypass, kit);
    block_comes_to_an_end(a.0, a.1, n, bypass);
    works_left_is_the_same(next_work(a.0, a.1, n, bypass).0, b.0);
    if i < j - 1 {
        scenes_lead_on(run, from, n, i, j - 1, kit);
    }
}

/// In this scene of a run, all sources of a step have been mixed, and it is seen whether the
/// step is switched off.
spec fn decides(run: Seq<Scene>, step: int, i: int) -> bool {
    &&& 0 <= i < run.len() - 1
    &&& run[i].0.at is Mixing
    &&& run[i].0.at->Mixing_step == step
    &&& run[i].0.at->Mixing_source == run[i].0.fed_by[step].len()
}

/// A step was found switched off.
spec fn found_off(run: Seq<Scene>, step: int) -> bool {
    exists|i: int| #[trigger] decides(run, step, i) && !(run[i + 1].0.at is Processing)
}

proof fn decided_once(run: Seq<Scene>, from: Scene, n: int, step: int, i: int, kit: Kit)
    requires
        sound(from.0),
        0 <= n <= MAX_BLOCK,
        worked_off(run, from, n, kit),
        0 <= step < from.0.fed_by.len(),
        decides(run, step, i),
    ensures
        found_off(run, step) == !(run[i + 1].0.at is Processing),
{
    if found_off(run, step) {
        let j = choose|j: int| #[trigger] decides(run, step, j) && !(run[j + 1].0.at is Processing);
        scenes_are_sound(run, from, n, i, kit);
        scenes_are_sound(run, from, n, j, kit);
        if i != j {
            works_left_is_the_same(run[i].0, run[j].0);
            if i < j {
                scenes_lead_on(run, from, n, i, j, kit);
            } else {
                scenes_lead_on(run, from, n, j, i, kit);
            }
        }
    }
}

/// The work between two scenes was a certain entry of a script.
pub open spec fn done_as(a: Scene, b: Scene, n: int, e: (int, int), kit: Kit) -> bool {
    exists|bypass: bool| #[trigger]
        worked_with(a, b, n, bypass, kit) && entry(next_work(a.0, a.1, n, bypass).2) == e
}

/// The works of a run are those of a script, one for one.
pub open spec fn scripted(run: Seq<Scene>, script: Seq<(int, int)>, n: int, kit: Kit) -> bool {
    &&& run.len() == script.len() + 1
    &&& forall|i: int|
        0 <= i < script.len() ==> done_as(run[i], run[i + 1], n, #[trigger] script[i], kit)
}

proof fn scene_follows_script(
    run: Seq<Scene>,
    from: Scene,
    n: int,
    off: Seq<bool>,
    i: int,
    kit: Kit,
)
    requires
        sound(from.0),
        0 <= n <= MAX_BLOCK,
        worked_off(run, from, n, kit),
        off.len() == from.0.fed_by.len(),
        forall|s: int| 0 <= s < off.len() ==> #[trigger] off[s] == found_off(run, s),
        0 <= i < run.len(),
    ensures
        script_place(run[i].0, off) == i,
        i < run.len() - 1 ==> i < block_script(from.0, off).len() && done_as(
            run[i],
            run[i + 1],
            n,
            block_script(from.0, off)[i],
            kit,
        ),
        i == run.len() - 1 ==> i == block_script(from.0, off).len(),
    decreases i,
{
    let a = run[i];
    let script = block_script(from.0, off);
    scenes_are_sound(run, from, n, i, kit);
    assert(block_script(a.0, off) == script);
    // Where the scene stands in the script.
    if i == 0 {
        assert(script_place(entered(from.0, from.1, 0, n).0, off) == 0);
    } else {
        let z = run[i - 1];
        scene_follows_script(run, from, n, off, i - 1, kit);
        scenes_are_sound(run, from, n, i - 1, kit);
        assert(linked(run, i - 1, n, kit));
        let was = choose|was: bool| worked_with(z, a, n, was, kit);
        scene_meets_its_switch(run, from, n, off, i - 1, was, kit);
        block_follows_its_script(z.0, z.1, n, off, switch_at(z.0, off));
        assert(next_work(z.0, z.1, n, was) == next_work(z.0, z.1, n, switch_at(z.0, off)));
    }
    // What comes next.
    if i < run.len() - 1 {
        let b = run[i + 1];
        assert(linked(run, i, n, kit));
        let bypass = choose|bypass: bool| worked_with(a, b, n, bypass, kit);
        scene_meets_its_switch(run, from, n, off, i, bypass, kit);
        block_follows_its_script(a.0, a.1, n, off, switch_at(a.0, off));
        assert(next_work(a.0, a.1, n, bypass) == next_work(a.0, a.1, n, switch_at(a.0, off)));
        assert(worked_with(a, b, n, bypass, kit));
    } else {
        block_comes_to_an_end(a.0, a.1, n, false);
        ends_with_the_output(a.0);
        block_follows_its_script(a.0, a.1, n, off, false);
    }
}

/// Whether the step at hand is switched off, by a list.
spec fn switch_at(p: Picture, off: Seq<bool>) -> bool {
    p.at is Mixing && off[p.at->Mixing_step as int]
}

proof fn scene_meets_its_switch(
    run: Seq<Scene>,
    from: Scene,
    n: int,
    off: Seq<bool>,
    i: int,
    bypass: bool,
    kit: Kit,
)
    requires
        sound(from.0),
        0 <= n <= MAX_BLOCK,
        worked_off(run, from, n, kit),
        off.len() == from.0.fed_by.len(),
        forall|s: int| 0 <= s < off.len() ==> #[trigger] off[s] == found_off(run, s),
        0 <= i < run.len() - 1,
        worked_with(run[i], run[i + 1], n, bypass, kit),
    ensures
        next_work(run[i].0, run[i].1, n, bypass) == next_work(
            run[i].0,
            run[i].1,
            n,
            switch_at(run[i].0, off),
        ),
        run[i].0.at is Processing ==> !off[run[i].0.at->Processing_step as int],
{
    let a = run[i];
    scenes_are_sound(run, from, n, i, kit);
    match a.0.at {
        Cursor::Mixing { step, source } => {
            if source == a.0.fed_by[step as int].len() {
                assert(decides(run, step as int, i));
                decided_once(run, from, n, step as int, i, kit);
                assert(off[step as int] == found_off(run, step as int));
            }
        },
        Cursor::Processing { step } => {
            assert(i > 0);
            let z = run[i - 1];
            scenes_are_sound(run, from, n, i - 1, kit);
            assert(linked(run, i - 1, n, kit));
            let was = choose|was: bool| worked_with(z, a, n, was, kit);
            assert(decides(run, step as int, i - 1));
            decided_once(run, from, n, step as int, i - 1, kit);
            assert(off[step as int] == found_off(run, step as int));
        },
        Cursor::Sending { source } => {},
    }
}

/// However the switches are found, a block is worked off by a script: step after step, each
/// with all its sources in the order of the cables, then its processor unless it was found
/// switched off, then its settling; and in the end the sources of the output.
pub proof fn run_follows_a_script(run: Seq<Scene>, from: Scene, n: int, kit: Kit)
    requires
        sound(from.0),
        0 <= n <= MAX_BLOCK,
        worked_off(run, from, n, kit),
    ensures
        exists|off: Seq<bool>|
            off.len() == from.0.fed_by.len() && #[trigger] scripted(
                run,
                block_script(from.0, off),
                n,
                kit,
            ),
{
    let off = Seq::new(from.0.fed_by.len(), |s: int| found_off(run, s));
    let script = block_script(from.0, off);
    scene_follows_script(run, from, n, off, run.len() - 1, kit);
    assert forall|i: int| 0 <= i < script.len() implies done_as(
        run[i],
        run[i + 1],
        n,
        #[trigger] script[i],
        kit,
    ) by {
        scene_follows_script(run, from, n, off, i, kit);
    }
    assert(scripted(run, script, n, kit));
}

/// Silence, copying and cleaning reach the first `n` samples of both channels, and leave all
/// behind them as it was.
pub proof fn only_the_front_is_changed(b: Block, from: Block, n: int, i: int)
    requires
        b.0.len() == b.1.len(),
        0 <= i < b.0.len(),
    ensures
        silenced(b, n).0.len() == b.0.len() && silenced(b, n).1.len() == b.1.len(),
        copied(b, from, n).0.len() == b.0.len() && copied(b, from, n).1.len() == b.1.len(),
        cleaned_block(b, n).0.len() == b.0.len() && cleaned_block(b, n).1.len() == b.1.len(),
        i < n ==> {
            &&& silenced(b, n).0[i] == 0 && silenced(b, n).1[i] == 0
            &&& copied(b, from, n).0[i] == from.0[i] && copied(b, from, n).1[i] == from.1[i]
            &&& sample::finite(b.0[i]) ==> cleaned_block(b, n).0[i] == b.0[i]
            &&& sample::finite(b.1[i]) ==> cleaned_block(b, n).1[i] == b.1[i]
            &&& !sample::finite(b.0[i]) ==> cleaned_block(b, n).0[i] == 0
            &&& !sample::finite(b.1[i]) ==> cleaned_block(b, n).1[i] == 0
        },
        i >= n ==> {
            &&& silenced(b, n).0[i] == b.0[i] && silenced(b, n).1[i] == b.1[i]
            &&& copied(b, from, n).0[i] == b.0[i] && copied(b, from, n).1[i] == b.1[i]
            &&& cleaned_block(b, n).0[i] == b.0[i] && cleaned_block(b, n).1[i] == b.1[i]
        },
{
}

/// Whatever size a buffer was given, afterwards it has the size of a block again: what it holds
/// stays, as far as there is room, and silence fills the rest.
pub proof fn buffers_get_their_size_back(b: Block, i: int)
    requires
        0 <= i < MAX_BLOCK,
    ensures
        refitted_block(b).0.len() == MAX_BLOCK && refitted_block(b).1.len() == MAX_BLOCK,
        refitted_block(b).0[i] == if i < b.0.len() {
            b.0[i]
        } else {
            0
        },
        refitted_block(b).1[i] == if i < b.1.len() {
            b.1[i]
        } else {
            0
        },
{
}

/// The peak of a block is at least as loud as every sample among the first `n` of either
/// channel that is a number, and unless all is silent it is that of one of them.
pub proof fn block_peak_is_the_loudest(b: Block, n: int, i: int)
    requires
        0 <= i < n,
        n <= b.0.len(),
        n <= b.1.len(),
    ensures
        !sample::nan(b.0[i]) ==> sample::scaled(sample::magnitude(b.0[i])) <= sample::value(
            block_peak(b, n),
        ),
        !sample::nan(b.1[i]) ==> sample::scaled(sample::magnitude(b.1[i])) <= sample::value(
            block_peak(b, n),
        ),
        block_peak(b, n) == 0 || exists|k: int|
            0 <= k < n && (sample::magnitude(#[trigger] b.0[k]) == block_peak(b, n)
                || sample::magnitude(b.1[k]) == block_peak(b, n)),
{
    let s = b.0.take(n) + b.1.take(n);
    sample::peak_is_the_loudest(s);
    assert(s[i] == b.0[i]);
    assert(s[n + i] == b.1[i]);
    if block_peak(b, n) != 0 {
        let k = choose|k: int|
            0 <= k < s.len() && !sample::nan(#[trigger] s[k]) && sample::magnitude(s[k])
                == sample::peak_of(s);
        if k < n {
            assert(s[k] == b.0[k]);
        } else {
            assert(s[k] == b.1[k - n]);
            assert(sample::magnitude(b.0[k - n]) >= 0);
        }
    }
}

/// What has been added up differs from what was there only in the first `n` samples, and there
/// each is the sum of the two in its place, on its side.
pub proof fn sides_are_mixed_apart(
    flush: bool,
    acc: Block,
    from: Block,
    n: int,
    since: Block,
    i: int,
)
    requires
        mixed(flush, acc, from, n, since),
        0 <= i < acc.0.len(),
        acc.0.len() == acc.1.len(),
    ensures
        since.0.len() == acc.0.len() && since.1.len() == acc.1.len(),
        i < n ==> {
            &&& adding::adds_to(flush, acc.0[i], from.0[i], since.0[i])
            &&& adding::adds_to(flush, acc.1[i], from.1[i], since.1[i])
        },
        i >= n ==> since.0[i] == acc.0[i] && since.1[i] == acc.1[i],
{
}

/// The first channel of a buffer is the left side, the second the right side.
pub proof fn sides_keep_their_channels(b: Buf)
    ensures
        block_of(b).0 == b[0]@,
        block_of(b).1 == b[1]@,
{
}

} // verus!
