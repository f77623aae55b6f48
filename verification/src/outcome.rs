//! What a block comes to: how the output of every step, and that of the board, follows from
//! the input, without a look at the order of work.
use crate::adding;
use crate::block::{Block, Cursor, Kit, Picture, Scene};
use crate::block;
use crate::nodes::MAX_BLOCK;
use crate::nodes;
use crate::sample;
use vstd::prelude::*;

verus! {

/// Sums that begin at `start`, each of which adds the first `n` frames of one more source.
pub open spec fn adds_up(
    flush: bool,
    sums: Seq<Block>,
    start: Block,
    bufs: Seq<Block>,
    srcs: Seq<int>,
    n: int,
) -> bool {
    &&& sums.len() == srcs.len() + 1
    &&& sums[0] == start
    &&& forall|k: int|
        0 <= k < srcs.len() ==> block::mixed(
            flush,
            sums[k],
            bufs[#[trigger] srcs[k]],
            n,
            sums[k + 1],
        )
}

/// What comes of `start` when the first `n` frames of some buffers are added to it, one behind
/// the other.
pub open spec fn summed(
    flush: bool,
    start: Block,
    bufs: Seq<Block>,
    srcs: Seq<int>,
    n: int,
    since: Block,
) -> bool {
    exists|sums: Seq<Block>| #[trigger]
        adds_up(flush, sums, start, bufs, srcs, n) && sums.last() == since
}

/// What a step does with the sum of its sources: where it is switched off, its output is the sum
/// itself, and its processor is left alone; else its output is what its processor makes of the
/// sum. Then what is not finite is silent.
pub open spec fn step_makes(
    from: Picture,
    last: Picture,
    step: int,
    mix: Block,
    off: bool,
    n: int,
    kit: Kit,
) -> bool {
    if off {
        &&& last.bufs[step + 1] == block::cleaned_block(
            block::copied(from.bufs[step + 1], mix, n),
            n,
        )
        &&& last.procs[step] == from.procs[step]
    } else {
        exists|made: Block|
            {
                &&& #[trigger] block::processed(
                    from.procs,
                    step,
                    kit.cells[step],
                    mix,
                    from.bufs[step + 1],
                    n,
                    made,
                    last.procs[step].memory(),
                )
                &&& last.bufs[step + 1] == block::cleaned_block(made, n)
            }
    }
}

/// The output of a step is what the step makes of the sum of its sources, as its switch was
/// found, and its meter was raised to the peak of that.
pub open spec fn step_outcome(
    from: Picture,
    last: Picture,
    step: int,
    n: int,
    kit: Kit,
    off: bool,
) -> bool {
    &&& exists|mix: Block|
        {
            &&& #[trigger] step_makes(from, last, step, mix, off, n, kit)
            &&& summed(
                from.flush,
                block::silenced(from.scratch, n),
                last.bufs,
                from.fed_by[step],
                n,
                mix,
            )
        }
    &&& nodes::found_at(kit.switches[step], off)
    &&& nodes::raised_by(kit.meters[step].cell(), block::block_peak(last.bufs[step + 1], n))
}

/// What a block comes to when the steps are found switched off as `off` says: the input stays,
/// every step has its outcome, and the output is the sum of its sources.
pub open spec fn came_to(from: Scene, last: Scene, n: int, kit: Kit, off: Seq<bool>) -> bool {
    &&& off.len() == from.0.fed_by.len()
    &&& last.0.bufs.len() == from.0.bufs.len()
    &&& last.0.procs.len() == from.0.procs.len()
    &&& last.0.bufs[0] == from.0.bufs[0]
    &&& forall|step: int|
        0 <= step < from.0.fed_by.len() ==> #[trigger] step_outcome(
            from.0,
            last.0,
            step,
            n,
            kit,
            off[step],
        )
    &&& summed(
        from.0.flush,
        block::silenced(from.1, n),
        last.0.bufs,
        from.0.out_fed_by,
        n,
        last.1,
    )
}

/// What a block comes to, however the switches are found.
pub open spec fn block_outcome(from: Scene, last: Scene, n: int, kit: Kit) -> bool {
    exists|off: Seq<bool>| came_to(from, last, n, kit, off)
}

// ---------------------------------------------------------------- sums

proof fn nothing_summed(flush: bool, start: Block, bufs: Seq<Block>, n: int)
    ensures
        summed(flush, start, bufs, Seq::empty(), n, start),
{
    assert(adds_up(flush, seq![start], start, bufs, Seq::empty(), n));
}

proof fn one_more_summed(
    flush: bool,
    start: Block,
    bufs: Seq<Block>,
    srcs: Seq<int>,
    k: int,
    n: int,
    sum: Block,
    since: Block,
)
    requires
        0 <= k < srcs.len(),
        summed(flush, start, bufs, srcs.take(k), n, sum),
        block::mixed(flush, sum, bufs[srcs[k]], n, since),
    ensures
        summed(flush, start, bufs, srcs.take(k + 1), n, since),
{
    let few = srcs.take(k);
    let more = srcs.take(k + 1);
    let sums = choose|sums: Seq<Block>| #[trigger]
        adds_up(flush, sums, start, bufs, few, n) && sums.last() == sum;
    let longer = sums.push(since);
    assert forall|i: int| 0 <= i < more.len() implies block::mixed(
        flush,
        longer[i],
        bufs[#[trigger] more[i]],
        n,
        longer[i + 1],
    ) by {
        if i < k {
            assert(more[i] == few[i]);
        }
    }
    assert(adds_up(flush, longer, start, bufs, more, n));
}

proof fn sum_depends_on_its_sources(
    flush: bool,
    start: Block,
    was: Seq<Block>,
    bufs: Seq<Block>,
    srcs: Seq<int>,
    n: int,
    since: Block,
)
    requires
        summed(flush, start, was, srcs, n, since),
        forall|k: int| 0 <= k < srcs.len() ==> bufs[#[trigger] srcs[k]] == was[srcs[k]],
    ensures
        summed(flush, start, bufs, srcs, n, since),
{
    let sums = choose|sums: Seq<Block>| #[trigger]
        adds_up(flush, sums, start, was, srcs, n) && sums.last() == since;
    assert(adds_up(flush, sums, start, bufs, srcs, n));
}

proof fn mixing_keeps_the_rest(flush: bool, sum: Block, from: Block, n: int, since: Block)
    requires
        block::mixed(flush, sum, from, n, since),
    ensures
        block::silenced(since, n) == block::silenced(sum, n),
{
    assert(block::silenced(since, n).0 =~= block::silenced(sum, n).0);
    assert(block::silenced(since, n).1 =~= block::silenced(sum, n).1);
}

proof fn silence_stays_silent(b: Block, n: int)
    ensures
        block::silenced(block::silenced(b, n), n) == block::silenced(b, n),
{
    assert(block::silenced(block::silenced(b, n), n).0 =~= block::silenced(b, n).0);
    assert(block::silenced(block::silenced(b, n), n).1 =~= block::silenced(b, n).1);
}

/// A step has its outcome, as its switch was found.
spec fn step_done(from: Picture, last: Picture, step: int, n: int, kit: Kit) -> bool {
    exists|off: bool| step_outcome(from, last, step, n, kit, off)
}

proof fn outcome_stays(from: Picture, was: Picture, now: Picture, step: int, n: int, kit: Kit)
    requires
        block::in_order(from.fed_by),
        0 <= step < from.fed_by.len(),
        step_done(from, was, step, n, kit),
        forall|b: int| 0 <= b <= step + 1 ==> #[trigger] now.bufs[b] == was.bufs[b],
        now.procs[step] == was.procs[step],
    ensures
        step_done(from, now, step, n, kit),
{
    let off = choose|off: bool| step_outcome(from, was, step, n, kit, off);
    let start = block::silenced(from.scratch, n);
    let srcs = from.fed_by[step];
    let mix = choose|mix: Block|
        {
            &&& #[trigger] step_makes(from, was, step, mix, off, n, kit)
            &&& summed(from.flush, start, was.bufs, srcs, n, mix)
        };
    assert(now.bufs[step + 1] == was.bufs[step + 1]);
    assert forall|k: int| 0 <= k < srcs.len() implies now.bufs[#[trigger] srcs[k]]
        == was.bufs[srcs[k]] by {
        assert(0 <= from.fed_by[step][k] <= step);
    }
    sum_depends_on_its_sources(from.flush, start, was.bufs, now.bufs, srcs, n, mix);
    assert(step_makes(from, now, step, mix, off, n, kit));
    assert(step_outcome(from, now, step, n, kit, off));
}

// ---------------------------------------------------------------- along a run

/// What holds of a scene on the way.
spec fn on_the_way(from: Scene, a: Scene, n: int, kit: Kit) -> bool {
    let start = block::silenced(from.0.scratch, n);
    &&& a.0.fed_by == from.0.fed_by
    &&& a.0.out_fed_by == from.0.out_fed_by
    &&& a.0.flush == from.0.flush
    &&& a.0.bufs.len() == from.0.bufs.len()
    &&& a.0.procs.len() == from.0.procs.len()
    &&& a.0.bufs[0] == from.0.bufs[0]
    &&& block::silenced(a.0.scratch, n) == start
    &&& forall|step: int|
        0 <= step < block::steps_done(a.0) ==> #[trigger] step_done(from.0, a.0, step, n, kit)
    &&& match a.0.at {
        Cursor::Mixing { step, source } => {
            &&& a.1 == from.1
            &&& untouched(from.0, a.0, step as int)
            &&& summed(
                from.0.flush,
                start,
                a.0.bufs,
                from.0.fed_by[step as int].take(source as int),
                n,
                a.0.scratch,
            )
        },
        Cursor::Processing { step } => {
            &&& a.1 == from.1
            &&& untouched(from.0, a.0, step + 1)
            &&& summed(
                from.0.flush,
                start,
                a.0.bufs,
                from.0.fed_by[step as int],
                n,
                a.0.scratch,
            )
            &&& nodes::found_at(kit.switches[step as int], false)
            &&& block::processed(
                from.0.procs,
                step as int,
                kit.cells[step as int],
                a.0.scratch,
                from.0.bufs[step + 1],
                n,
                a.0.bufs[step + 1],
                a.0.procs[step as int].memory(),
            )
        },
        Cursor::Sending { source } => summed(
            from.0.flush,
            block::silenced(from.1, n),
            a.0.bufs,
            from.0.out_fed_by.take(source as int),
            n,
            a.1,
        ),
    }
}

/// The steps from `s` on have their processors and buffers as they were.
spec fn untouched(from: Picture, p: Picture, s: int) -> bool {
    &&& forall|i: int| s < i < from.bufs.len() ==> #[trigger] p.bufs[i] == from.bufs[i]
    &&& forall|i: int| s <= i < from.procs.len() ==> #[trigger] p.procs[i] == from.procs[i]
}

/// A step begins, or the output, when all steps before have their outcomes.
proof fn way_begins_anew(from: Scene, q: Picture, o: Block, step: int, n: int, kit: Kit)
    requires
        block::sound(from.0),
        0 <= step <= from.0.fed_by.len(),
        q.fed_by == from.0.fed_by,
        q.out_fed_by == from.0.out_fed_by,
        q.flush == from.0.flush,
        q.bufs.len() == from.0.bufs.len(),
        q.procs.len() == from.0.procs.len(),
        q.bufs[0] == from.0.bufs[0],
        block::silenced(q.scratch, n) == block::silenced(from.0.scratch, n),
        o == from.1,
        untouched(from.0, q, step),
        forall|s: int| 0 <= s < step ==> #[trigger] step_done(from.0, q, s, n, kit),
    ensures
        on_the_way(from, block::entered(q, o, step, n), n, kit),
{
    let a = block::entered(q, o, step, n);
    let flush = from.0.flush;
    silence_stays_silent(from.0.scratch, n);
    if step < from.0.fed_by.len() {
        let none = from.0.fed_by[step].take(0);
        assert(none =~= Seq::empty());
        nothing_summed(flush, block::silenced(from.0.scratch, n), a.0.bufs, n);
    } else {
        let none = from.0.out_fed_by.take(0);
        assert(none =~= Seq::empty());
        nothing_summed(flush, block::silenced(from.1, n), a.0.bufs, n);
    }
    assert forall|s: int| 0 <= s < block::steps_done(a.0) implies #[trigger] step_done(
        from.0,
        a.0,
        s,
        n,
        kit,
    ) by {
        assert(step_done(from.0, q, s, n, kit));
        same_outcome(from.0, q, a.0, s, n, kit);
    }
}

proof fn same_outcome(from: Picture, was: Picture, now: Picture, step: int, n: int, kit: Kit)
    requires
        step_done(from, was, step, n, kit),
        now.bufs == was.bufs,
        now.procs == was.procs,
    ensures
        step_done(from, now, step, n, kit),
{
    let off = choose|off: bool| step_outcome(from, was, step, n, kit, off);
    let mix = choose|mix: Block|
        {
            &&& #[trigger] step_makes(from, was, step, mix, off, n, kit)
            &&& summed(
                from.flush,
                block::silenced(from.scratch, n),
                was.bufs,
                from.fed_by[step],
                n,
                mix,
            )
        };
    assert(step_makes(from, now, step, mix, off, n, kit));
    assert(step_outcome(from, now, step, n, kit, off));
}

/// A step settles: its outcome is there.
proof fn step_settles(from: Scene, a: Scene, step: int, off: bool, made: Block, n: int, kit: Kit)
    requires
        block::sound(from.0),
        block::sound(a.0),
        block::in_order(from.0.fed_by),
        on_the_way(from, a, n, kit),
        0 <= step < from.0.fed_by.len(),
        block::steps_done(a.0) == step,
        a.1 == from.1,
        untouched(from.0, a.0, step + 1),
        summed(
            from.0.flush,
            block::silenced(from.0.scratch, n),
            a.0.bufs,
            from.0.fed_by[step],
            n,
            a.0.scratch,
        ),
        nodes::found_at(kit.switches[step], off),
        if off {
            &&& made == block::copied(from.0.bufs[step + 1], a.0.scratch, n)
            &&& a.0.procs[step] == from.0.procs[step]
        } else {
            block::processed(
                from.0.procs,
                step,
                kit.cells[step],
                a.0.scratch,
                from.0.bufs[step + 1],
                n,
                made,
                a.0.procs[step].memory(),
            )
        },
        nodes::raised_by(
            kit.meters[step].cell(),
            block::block_peak(block::cleaned_block(made, n), n),
        ),
    ensures
        ({
            let q = block::settled(
                Picture { bufs: a.0.bufs.update(step + 1, made), ..a.0 },
                step,
                n,
            );
            on_the_way(from, block::entered(q, a.1, step + 1, n), n, kit)
        }),
{
    let m = Picture { bufs: a.0.bufs.update(step + 1, made), ..a.0 };
    let q = block::settled(m, step, n);
    let flush = from.0.flush;
    let start = block::silenced(from.0.scratch, n);
    assert(q.bufs[step + 1] == block::cleaned_block(made, n));
    assert(q.procs == a.0.procs);
    assert forall|b: int| 0 <= b < q.bufs.len() && b != step + 1 implies #[trigger] q.bufs[b]
        == a.0.bufs[b] by {}
    assert forall|s: int| 0 <= s < step + 1 implies #[trigger] step_done(
        from.0,
        q,
        s,
        n,
        kit,
    ) by {
        if s < step {
            assert(step_done(from.0, a.0, s, n, kit));
            outcome_stays(from.0, a.0, q, s, n, kit);
        } else {
            let srcs = from.0.fed_by[step];
            assert forall|k: int| 0 <= k < srcs.len() implies q.bufs[#[trigger] srcs[k]]
                == a.0.bufs[srcs[k]] by {
                assert(0 <= from.0.fed_by[step][k] <= step);
            }
            sum_depends_on_its_sources(flush, start, a.0.bufs, q.bufs, srcs, n, a.0.scratch);
            assert(step_makes(from.0, q, step, a.0.scratch, off, n, kit));
            assert(step_outcome(from.0, q, step, n, kit, off));
        }
    }
    way_begins_anew(from, q, a.1, step + 1, n, kit);
}

/// One work keeps what holds on the way.
proof fn way_goes_on(from: Scene, a: Scene, b: Scene, n: int, bypass: bool, kit: Kit)
    requires
        block::sound(from.0),
        block::in_order(from.0.fed_by),
        block::sound(a.0),
        0 <= n <= MAX_BLOCK,
        on_the_way(from, a, n, kit),
        block::worked_with(a, b, n, bypass, kit),
    ensures
        on_the_way(from, b, n, kit),
{
    let flush = from.0.flush;
    let start = block::silenced(from.0.scratch, n);
    match a.0.at {
        Cursor::Mixing { step, source } => {
            let i = step as int;
            let srcs = from.0.fed_by[i];
            if source < srcs.len() {
                let mix = a.0.scratch;
                assert(0 <= a.0.fed_by[i][source as int] <= a.0.fed_by.len());
                mixing_keeps_the_rest(
                    flush,
                    mix,
                    a.0.bufs[srcs[source as int]],
                    n,
                    b.0.scratch,
                );
                one_more_summed(
                    flush,
                    start,
                    a.0.bufs,
                    srcs,
                    source as int,
                    n,
                    mix,
                    b.0.scratch,
                );
                assert forall|s: int| 0 <= s < i implies #[trigger] step_done(
                    from.0,
                    b.0,
                    s,
                    n,
                    kit,
                ) by {
                    assert(step_done(from.0, a.0, s, n, kit));
                    same_outcome(from.0, a.0, b.0, s, n, kit);
                }
            } else {
                assert(srcs.take(source as int) =~= srcs);
                assert(a.0.bufs[i + 1] == from.0.bufs[i + 1]);
                assert(a.0.procs[i] == from.0.procs[i]);
                if bypass {
                    let made = block::copied(a.0.bufs[i + 1], a.0.scratch, n);
                    step_settles(from, a, i, true, made, n, kit);
                } else {
                    assert forall|k: int| 0 <= k < srcs.len() implies b.0.bufs[#[trigger] srcs[k]]
                        == a.0.bufs[srcs[k]] by {
                        assert(0 <= from.0.fed_by[i][k] <= i);
                    }
                    sum_depends_on_its_sources(
                        flush,
                        start,
                        a.0.bufs,
                        b.0.bufs,
                        srcs,
                        n,
                        a.0.scratch,
                    );
                    assert forall|s: int| 0 <= s < i implies #[trigger] step_done(
                        from.0,
                        b.0,
                        s,
                        n,
                        kit,
                    ) by {
                        assert(step_done(from.0, a.0, s, n, kit));
                        outcome_stays(from.0, a.0, b.0, s, n, kit);
                    }
                }
            }
        },
        Cursor::Processing { step } => {
            let i = step as int;
            let made = a.0.bufs[i + 1];
            assert(a.0.bufs.update(i + 1, made) =~= a.0.bufs);
            step_settles(from, a, i, false, made, n, kit);
        },
        Cursor::Sending { source } => {
            let srcs = from.0.out_fed_by;
            assert(source < srcs.len());
            assert(0 <= a.0.out_fed_by[source as int] <= a.0.fed_by.len());
            one_more_summed(
                flush,
                block::silenced(from.1, n),
                a.0.bufs,
                srcs,
                source as int,
                n,
                a.1,
                b.1,
            );
            assert forall|s: int| 0 <= s < from.0.fed_by.len() implies #[trigger] step_done(
                from.0,
                b.0,
                s,
                n,
                kit,
            ) by {
                assert(step_done(from.0, a.0, s, n, kit));
                same_outcome(from.0, a.0, b.0, s, n, kit);
            }
        },
    }
}

proof fn scene_is_on_the_way(run: Seq<Scene>, from: Scene, n: int, i: int, kit: Kit)
    requires
        block::sound(from.0),
        block::in_order(from.0.fed_by),
        0 <= n <= MAX_BLOCK,
        block::worked_off(run, from, n, kit),
        0 <= i < run.len(),
    ensures
        on_the_way(from, run[i], n, kit),
    decreases i,
{
    if i == 0 {
        way_begins_anew(from, from.0, from.1, 0, n, kit);
    } else {
        scene_is_on_the_way(run, from, n, i - 1, kit);
        block::scenes_are_sound(run, from, n, i - 1, kit);
        assert(block::linked(run, i - 1, n, kit));
        let a = run[i - 1];
        let b = run[i];
        let bypass = choose|bypass: bool| block::worked_with(a, b, n, bypass, kit);
        way_goes_on(from, a, b, n, bypass, kit);
    }
}

// ---------------------------------------------------------------- laws

/// A board in order comes to its outcome: the output of every step is what its processor makes
/// of the sum of its sources, or the sum itself where it was found switched off, made finite;
/// its meter has been raised to the peak of that; and the output of the board is the sum of its
/// sources.
pub proof fn run_comes_to_its_outcome(run: Seq<Scene>, from: Scene, n: int, kit: Kit)
    requires
        block::sound(from.0),
        block::in_order(from.0.fed_by),
        0 <= n <= MAX_BLOCK,
        block::worked_off(run, from, n, kit),
    ensures
        block_outcome(from, run.last(), n, kit),
{
    let i = run.len() - 1;
    let last = run[i];
    scene_is_on_the_way(run, from, n, i, kit);
    block::scenes_are_sound(run, from, n, i, kit);
    block::ends_with_the_output(last.0);
    assert(from.0.out_fed_by.take(from.0.out_fed_by.len() as int) =~= from.0.out_fed_by);
    let off = Seq::new(
        from.0.fed_by.len(),
        |s: int| choose|off: bool| step_outcome(from.0, last.0, s, n, kit, off),
    );
    assert forall|s: int| 0 <= s < from.0.fed_by.len() implies #[trigger] step_outcome(
        from.0,
        last.0,
        s,
        n,
        kit,
        off[s],
    ) by {
        assert(step_done(from.0, last.0, s, n, kit));
    }
    assert(came_to(from, last, n, kit, off));
}

/// A sample that has come through: the same number, but that there is only one zero, and that
/// samples that are too small may count as zero.
pub open spec fn came_through(flush: bool, b: u32, r: u32) -> bool {
    let c = if flush {
        adding::flushed(b)
    } else {
        b
    };
    if sample::nan(c) {
        r == adding::NOT_A_NUMBER
    } else if c == 0x8000_0000 {
        r == sample::ZERO
    } else {
        r == c
    }
}

proof fn added_to_silence(flush: bool, b: u32, r: u32)
    requires
        adding::adds_to(flush, sample::ZERO, b, r),
    ensures
        came_through(flush, b, r),
{
    if flush {
        let c = adding::flushed(b);
        let q = choose|q: u32| #[trigger]
            adding::sums_to(adding::flushed(sample::ZERO), c, q) && r == adding::flushed(q);
        if !sample::nan(c) {
            adding::silence_adds_nothing(c, q);
        }
    } else if !sample::nan(b) {
        adding::silence_adds_nothing(b, r);
    }
}

/// Where the output has one source, that comes through as it is.
pub proof fn single_source_comes_through(from: Scene, last: Scene, n: int, kit: Kit, src: int)
    requires
        0 <= n <= from.1.0.len(),
        n <= from.1.1.len(),
        from.0.out_fed_by == seq![src],
        block_outcome(from, last, n, kit),
    ensures
        last.1.0.len() == from.1.0.len(),
        last.1.1.len() == from.1.1.len(),
        forall|i: int|
            0 <= i < n ==> came_through(
                from.0.flush,
                last.0.bufs[src].0[i],
                #[trigger] last.1.0[i],
            ),
        forall|i: int|
            0 <= i < n ==> came_through(
                from.0.flush,
                last.0.bufs[src].1[i],
                #[trigger] last.1.1[i],
            ),
{
    let flush = from.0.flush;
    let srcs = from.0.out_fed_by;
    let start = block::silenced(from.1, n);
    let off = choose|off: Seq<bool>| came_to(from, last, n, kit, off);
    let sums = choose|sums: Seq<Block>| #[trigger]
        adds_up(flush, sums, start, last.0.bufs, srcs, n) && sums.last() == last.1;
    assert(srcs[0] == src);
    assert(block::mixed(flush, start, last.0.bufs[src], n, last.1));
    assert forall|i: int| 0 <= i < n implies came_through(
        flush,
        last.0.bufs[src].0[i],
        #[trigger] last.1.0[i],
    ) by {
        added_to_silence(flush, last.0.bufs[src].0[i], last.1.0[i]);
    }
    assert forall|i: int| 0 <= i < n implies came_through(
        flush,
        last.0.bufs[src].1[i],
        #[trigger] last.1.1[i],
    ) by {
        added_to_silence(flush, last.0.bufs[src].1[i], last.1.1[i]);
    }
}

/// A step that is switched off passes its only source on: its output is what came in, as far as
/// that is finite, and its processor is left as it was.
pub proof fn switched_off_step_passes_on(
    from: Scene,
    last: Scene,
    n: int,
    kit: Kit,
    off: Seq<bool>,
    step: int,
    src: int,
    i: int,
)
    requires
        came_to(from, last, n, kit, off),
        0 <= step < from.0.fed_by.len(),
        off[step],
        from.0.fed_by[step] == seq![src],
        0 <= i < n,
        n <= from.0.scratch.0.len(),
        n <= from.0.scratch.1.len(),
        n <= from.0.bufs[step + 1].0.len(),
        n <= from.0.bufs[step + 1].1.len(),
    ensures
        nodes::found_at(kit.switches[step], true),
        last.0.procs[step] == from.0.procs[step],
        exists|r: u32|
            #[trigger] came_through(from.0.flush, last.0.bufs[src].0[i], r) && last.0.bufs[step
                + 1].0[i] == sample::cleaned(r),
        exists|r: u32|
            #[trigger] came_through(from.0.flush, last.0.bufs[src].1[i], r) && last.0.bufs[step
                + 1].1[i] == sample::cleaned(r),
{
    let flush = from.0.flush;
    let start = block::silenced(from.0.scratch, n);
    assert(step_outcome(from.0, last.0, step, n, kit, off[step]));
    let mix = choose|mix: Block|
        {
            &&& #[trigger] step_makes(from.0, last.0, step, mix, off[step], n, kit)
            &&& summed(flush, start, last.0.bufs, from.0.fed_by[step], n, mix)
        };
    let srcs = from.0.fed_by[step];
    let sums = choose|sums: Seq<Block>| #[trigger]
        adds_up(flush, sums, start, last.0.bufs, srcs, n) && sums.last() == mix;
    assert(srcs[0] == src);
    assert(block::mixed(flush, start, last.0.bufs[src], n, mix));
    assert(adding::adds_to(flush, start.0[i], last.0.bufs[src].0[i], mix.0[i]));
    assert(adding::adds_to(flush, start.1[i], last.0.bufs[src].1[i], mix.1[i]));
    added_to_silence(flush, last.0.bufs[src].0[i], mix.0[i]);
    added_to_silence(flush, last.0.bufs[src].1[i], mix.1[i]);
}

/// An output without a source is silent.
pub proof fn nothing_connected_is_silent(from: Scene, last: Scene, n: int, kit: Kit, i: int)
    requires
        block_outcome(from, last, n, kit),
        from.0.out_fed_by.len() == 0,
        0 <= i < n,
        n <= from.1.0.len(),
        n <= from.1.1.len(),
    ensures
        last.1.0[i] == 0,
        last.1.1[i] == 0,
{
    let off = choose|off: Seq<bool>| came_to(from, last, n, kit, off);
    let sums = choose|sums: Seq<Block>| #[trigger]
        adds_up(
            from.0.flush,
            sums,
            block::silenced(from.1, n),
            last.0.bufs,
            from.0.out_fed_by,
            n,
        ) && sums.last() == last.1;
    assert(sums.last() == sums[0]);
}

/// A step that is switched on is what its processor makes of the mix of its sources, with the
/// knobs of its node and what it remembers, as far as that is finite; and the meter of its node
/// is raised to the peak of that.
pub proof fn playing_step_is_what_its_processor_makes(
    from: Scene,
    last: Scene,
    n: int,
    kit: Kit,
    off: Seq<bool>,
    step: int,
)
    requires
        came_to(from, last, n, kit, off),
        0 <= step < from.0.fed_by.len(),
        !off[step],
    ensures
        nodes::found_at(kit.switches[step], false),
        nodes::raised_by(kit.meters[step].cell(), block::block_peak(last.0.bufs[step + 1], n)),
        exists|mix: Block, made: Block|
            {
                &&& #[trigger] from.0.procs[step].may_turn(
                    kit.cells[step],
                    mix,
                    from.0.bufs[step + 1],
                    n,
                    made,
                    last.0.procs[step].memory(),
                )
                &&& last.0.bufs[step + 1] == block::cleaned_block(block::refitted_block(made), n)
                &&& summed(
                    from.0.flush,
                    block::silenced(from.0.scratch, n),
                    last.0.bufs,
                    from.0.fed_by[step],
                    n,
                    mix,
                )
            },
{
    assert(step_outcome(from.0, last.0, step, n, kit, off[step]));
    let mix = choose|mix: Block|
        {
            &&& #[trigger] step_makes(from.0, last.0, step, mix, off[step], n, kit)
            &&& summed(
                from.0.flush,
                block::silenced(from.0.scratch, n),
                last.0.bufs,
                from.0.fed_by[step],
                n,
                mix,
            )
        };
    let b = choose|b: Block|
        {
            &&& #[trigger] block::processed(
                from.0.procs,
                step,
                kit.cells[step],
                mix,
                from.0.bufs[step + 1],
                n,
                b,
                last.0.procs[step].memory(),
            )
            &&& last.0.bufs[step + 1] == block::cleaned_block(b, n)
        };
    let made = choose|made: Block|
        {
            &&& #[trigger] from.0.procs[step].may_turn(
                kit.cells[step],
                mix,
                from.0.bufs[step + 1],
                n,
                made,
                last.0.procs[step].memory(),
            )
            &&& b == block::refitted_block(made)
        };
    assert(from.0.procs[step].may_turn(
        kit.cells[step],
        mix,
        from.0.bufs[step + 1],
        n,
        made,
        last.0.procs[step].memory(),
    ));
}

/// Sources are added up one after the other, in their order: with two of them, each sample of the
/// output is the sum of theirs.
pub proof fn two_sources_are_added(
    from: Scene,
    last: Scene,
    n: int,
    kit: Kit,
    a: int,
    b: int,
    i: int,
)
    requires
        block_outcome(from, last, n, kit),
        from.0.out_fed_by == seq![a, b],
        0 <= i < n,
        n <= from.1.0.len(),
        n <= from.1.1.len(),
    ensures
        exists|r: u32|
            #[trigger] came_through(from.0.flush, last.0.bufs[a].0[i], r) && adding::adds_to(
                from.0.flush,
                r,
                last.0.bufs[b].0[i],
                last.1.0[i],
            ),
        exists|r: u32|
            #[trigger] came_through(from.0.flush, last.0.bufs[a].1[i], r) && adding::adds_to(
                from.0.flush,
                r,
                last.0.bufs[b].1[i],
                last.1.1[i],
            ),
{
    let flush = from.0.flush;
    let srcs = from.0.out_fed_by;
    let start = block::silenced(from.1, n);
    let off = choose|off: Seq<bool>| came_to(from, last, n, kit, off);
    let sums = choose|sums: Seq<Block>| #[trigger]
        adds_up(flush, sums, start, last.0.bufs, srcs, n) && sums.last() == last.1;
    assert(srcs[0] == a && srcs[1] == b);
    assert(block::mixed(flush, start, last.0.bufs[a], n, sums[1]));
    assert(block::mixed(flush, sums[1], last.0.bufs[b], n, last.1));
    added_to_silence(flush, last.0.bufs[a].0[i], sums[1].0[i]);
    added_to_silence(flush, last.0.bufs[a].1[i], sums[1].1[i]);
}

} // verus!
