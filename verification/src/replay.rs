//! What becomes of the same input a second time: on another schedule that was built alike, or
//! on one that gets it in parts.
//!
//! What a processor makes is its own matter. So these laws are about processors that go the same
//! way when they remember the same, and about processors that make no difference between a block
//! and its two parts; and about switches that are found the same both times.
use crate::adding;
use crate::block::{Block, Kit, Picture, Scene};
use crate::block;
use crate::nodes::{AtomicF32, Processor, MAX_BLOCK};
use crate::outcome;
use crate::sample;
use vstd::prelude::*;

verus! {

/// The frames of `x` from `at` on are the first `len` frames of `y`.
pub open spec fn agree(x: Block, at: int, y: Block, len: int) -> bool {
    forall|i: int|
        #![trigger y.0[i]]
        #![trigger y.1[i]]
        0 <= i < len ==> x.0[at + i] == y.0[i] && x.1[at + i] == y.1[i]
}

/// A block of full size.
pub open spec fn full(b: Block) -> bool {
    b.0.len() == MAX_BLOCK && b.1.len() == MAX_BLOCK
}

/// Two schedules have the same cables, and add alike.
pub open spec fn same_board(x: Picture, y: Picture) -> bool {
    x.fed_by == y.fed_by && x.out_fed_by == y.out_fed_by && x.flush == y.flush
}

/// One block: a schedule and an output before it, and both after it.
pub type Turnover = (Scene, Scene);

/// A block of `n` frames that was worked off, with the steps found switched off as `off` says.
pub open spec fn worked_out(t: Turnover, n: int, kit: Kit, off: Seq<bool>) -> bool {
    &&& block::sound(t.0.0)
    &&& block::in_order(t.0.0.fed_by)
    &&& full(t.0.1)
    &&& 0 <= n <= MAX_BLOCK
    &&& outcome::came_to(t.0, t.1, n, kit, off)
}

/// Two processors go the same way: whatever they may make of the same `n` frames, it is the
/// same, and they then remember the same.
pub open spec fn go_the_same_way(
    x: Seq<Box<dyn Processor>>,
    y: Seq<Box<dyn Processor>>,
    step: int,
    xs: Seq<AtomicF32>,
    ys: Seq<AtomicF32>,
    n: int,
) -> bool {
    forall|
        xi: Block,
        xb: Block,
        xo: Block,
        xm: Seq<u32>,
        yi: Block,
        yb: Block,
        yo: Block,
        ym: Seq<u32>,
    |
        #![trigger x[step].may_turn(xs, xi, xb, n, xo, xm), y[step].may_turn(ys, yi, yb, n, yo, ym)]
        x[step].may_turn(xs, xi, xb, n, xo, xm) && y[step].may_turn(ys, yi, yb, n, yo, ym) && agree(
            xi,
            0,
            yi,
            n,
        ) ==> agree(block::refitted_block(xo), 0, block::refitted_block(yo), n) && xm == ym
}

/// A processor makes no difference between a block of `n` frames and its parts of `a` and `b`
/// frames: what `x` may make of the whole is what `y` and then `z` may make of the parts, where
/// `z` remembers what `y` then does; and in the end the same is remembered.
pub open spec fn takes_it_in_parts(
    x: Seq<Box<dyn Processor>>,
    y: Seq<Box<dyn Processor>>,
    z: Seq<Box<dyn Processor>>,
    step: int,
    xs: Seq<AtomicF32>,
    ys: Seq<AtomicF32>,
    zs: Seq<AtomicF32>,
    n: int,
    a: int,
    b: int,
) -> bool {
    forall|
        xi: Block,
        xb: Block,
        xo: Block,
        xm: Seq<u32>,
        yi: Block,
        yb: Block,
        yo: Block,
        zi: Block,
        zb: Block,
        zo: Block,
        zm: Seq<u32>,
    |
        #![trigger x[step].may_turn(xs, xi, xb, n, xo, xm), y[step].may_turn(ys, yi, yb, a, yo, z[step].memory()), z[step].may_turn(zs, zi, zb, b, zo, zm)]
        {
            &&& x[step].may_turn(xs, xi, xb, n, xo, xm)
            &&& y[step].may_turn(ys, yi, yb, a, yo, z[step].memory())
            &&& z[step].may_turn(zs, zi, zb, b, zo, zm)
            &&& agree(xi, 0, yi, a)
            &&& agree(xi, a, zi, b)
        } ==> {
            &&& agree(block::refitted_block(xo), 0, block::refitted_block(yo), a)
            &&& agree(block::refitted_block(xo), a, block::refitted_block(zo), b)
            &&& xm == zm
        }
}

// ---------------------------------------------------------------- sums

/// A sum among others, on two schedules.
proof fn sums_agree_so_far(
    flush: bool,
    xs: Seq<Block>,
    x: Block,
    xb: Seq<Block>,
    xn: int,
    at: int,
    ys: Seq<Block>,
    y: Block,
    yb: Seq<Block>,
    yn: int,
    len: int,
    srcs: Seq<int>,
    k: int,
)
    requires
        outcome::adds_up(flush, xs, x, xb, srcs, xn),
        outcome::adds_up(flush, ys, y, yb, srcs, yn),
        full(x),
        full(y),
        0 <= at,
        0 <= len,
        at + len <= xn <= MAX_BLOCK,
        len <= yn <= MAX_BLOCK,
        agree(x, at, y, len),
        forall|j: int|
            0 <= j < srcs.len() ==> agree(xb[#[trigger] srcs[j]], at, yb[srcs[j]], len),
        0 <= k <= srcs.len(),
    ensures
        full(xs[k]),
        full(ys[k]),
        agree(xs[k], at, ys[k], len),
    decreases k,
{
    if k > 0 {
        let j = k - 1;
        sums_agree_so_far(flush, xs, x, xb, xn, at, ys, y, yb, yn, len, srcs, j);
        let s = srcs[j];
        assert(block::mixed(flush, xs[j], xb[s], xn, xs[k]));
        assert(block::mixed(flush, ys[j], yb[s], yn, ys[k]));
        assert(agree(xb[s], at, yb[s], len));
        let xt = xs[k];
        let yt = ys[k];
        assert forall|i: int|
            #![trigger yt.0[i]]
            #![trigger yt.1[i]]
            0 <= i < len implies xt.0[at + i] == yt.0[i] && xt.1[at + i] == yt.1[i] by {
            assert(xs[j].0[at + i] == ys[j].0[i] && xs[j].1[at + i] == ys[j].1[i]);
            assert(xb[s].0[at + i] == yb[s].0[i] && xb[s].1[at + i] == yb[s].1[i]);
            adding::flushed_sum_is_unique(
                flush,
                ys[j].0[i],
                yb[s].0[i],
                xt.0[at + i],
                yt.0[i],
            );
            adding::flushed_sum_is_unique(
                flush,
                ys[j].1[i],
                yb[s].1[i],
                xt.1[at + i],
                yt.1[i],
            );
        }
    }
}

/// Where the sources agree, so do their sums.
proof fn sums_agree(
    flush: bool,
    x: Block,
    xb: Seq<Block>,
    xn: int,
    xsum: Block,
    at: int,
    y: Block,
    yb: Seq<Block>,
    yn: int,
    ysum: Block,
    len: int,
    srcs: Seq<int>,
)
    requires
        outcome::summed(flush, block::silenced(x, xn), xb, srcs, xn, xsum),
        outcome::summed(flush, block::silenced(y, yn), yb, srcs, yn, ysum),
        full(x),
        full(y),
        0 <= at,
        0 <= len,
        at + len <= xn <= MAX_BLOCK,
        len <= yn <= MAX_BLOCK,
        forall|j: int|
            0 <= j < srcs.len() ==> agree(xb[#[trigger] srcs[j]], at, yb[srcs[j]], len),
    ensures
        agree(xsum, at, ysum, len),
{
    let x0 = block::silenced(x, xn);
    let y0 = block::silenced(y, yn);
    let xs = choose|xs: Seq<Block>| #[trigger]
        outcome::adds_up(flush, xs, x0, xb, srcs, xn) && xs.last() == xsum;
    let ys = choose|ys: Seq<Block>| #[trigger]
        outcome::adds_up(flush, ys, y0, yb, srcs, yn) && ys.last() == ysum;
    sums_agree_so_far(
        flush,
        xs,
        x0,
        xb,
        xn,
        at,
        ys,
        y0,
        yb,
        yn,
        len,
        srcs,
        srcs.len() as int,
    );
}

/// What a step makes its output of.
spec fn mix_of(t: Turnover, step: int, n: int, kit: Kit, off: bool) -> Block {
    choose|mix: Block|
        {
            &&& #[trigger] outcome::step_makes(t.0.0, t.1.0, step, mix, off, n, kit)
            &&& outcome::summed(
                t.0.0.flush,
                block::silenced(t.0.0.scratch, n),
                t.1.0.bufs,
                t.0.0.fed_by[step],
                n,
                mix,
            )
        }
}

proof fn mix_is_there(t: Turnover, step: int, n: int, kit: Kit, off: Seq<bool>)
    requires
        worked_out(t, n, kit, off),
        0 <= step < t.0.0.fed_by.len(),
    ensures
        outcome::step_makes(t.0.0, t.1.0, step, mix_of(t, step, n, kit, off[step]), off[step], n, kit),
        outcome::summed(
            t.0.0.flush,
            block::silenced(t.0.0.scratch, n),
            t.1.0.bufs,
            t.0.0.fed_by[step],
            n,
            mix_of(t, step, n, kit, off[step]),
        ),
{
    assert(outcome::step_outcome(t.0.0, t.1.0, step, n, kit, off[step]));
}

/// Where the sources of a step agree, so does what it makes its output of.
proof fn mixes_agree(
    x: Turnover,
    xn: int,
    xk: Kit,
    at: int,
    y: Turnover,
    yn: int,
    yk: Kit,
    len: int,
    off: Seq<bool>,
    step: int,
)
    requires
        worked_out(x, xn, xk, off),
        worked_out(y, yn, yk, off),
        same_board(x.0.0, y.0.0),
        0 <= at,
        0 <= len <= yn,
        at + len <= xn,
        0 <= step < x.0.0.fed_by.len(),
        forall|b: int| 0 <= b <= step ==> agree(#[trigger] x.1.0.bufs[b], at, y.1.0.bufs[b], len),
    ensures
        agree(mix_of(x, step, xn, xk, off[step]), at, mix_of(y, step, yn, yk, off[step]), len),
{
    mix_is_there(x, step, xn, xk, off);
    mix_is_there(y, step, yn, yk, off);
    let srcs = x.0.0.fed_by[step];
    assert forall|j: int| 0 <= j < srcs.len() implies agree(
        x.1.0.bufs[#[trigger] srcs[j]],
        at,
        y.1.0.bufs[srcs[j]],
        len,
    ) by {
        assert(0 <= x.0.0.fed_by[step][j] <= step);
    }
    sums_agree(
        x.0.0.flush,
        x.0.0.scratch,
        x.1.0.bufs,
        xn,
        mix_of(x, step, xn, xk, off[step]),
        at,
        y.0.0.scratch,
        y.1.0.bufs,
        yn,
        mix_of(y, step, yn, yk, off[step]),
        len,
        srcs,
    );
}

/// What is made finite agrees where it did before.
proof fn cleaned_agree(x: Block, xn: int, at: int, y: Block, yn: int, len: int)
    requires
        full(x),
        full(y),
        0 <= at,
        0 <= len <= yn <= MAX_BLOCK,
        at + len <= xn <= MAX_BLOCK,
        agree(x, at, y, len),
    ensures
        agree(block::cleaned_block(x, xn), at, block::cleaned_block(y, yn), len),
{
    let xc = block::cleaned_block(x, xn);
    let yc = block::cleaned_block(y, yn);
    assert forall|i: int| 0 <= i < len implies xc.0[at + i] == #[trigger] yc.0[i] && xc.1[at + i]
        == #[trigger] yc.1[i] by {
        assert(x.0[at + i] == y.0[i] && x.1[at + i] == y.1[i]);
    }
}

/// The output of a step that is switched off agrees where its mix does.
proof fn passed_on_agree(
    x: Block,
    xm: Block,
    xn: int,
    at: int,
    y: Block,
    ym: Block,
    yn: int,
    len: int,
)
    requires
        full(x),
        full(y),
        0 <= at,
        0 <= len <= yn <= MAX_BLOCK,
        at + len <= xn <= MAX_BLOCK,
        agree(xm, at, ym, len),
    ensures
        agree(
            block::cleaned_block(block::copied(x, xm, xn), xn),
            at,
            block::cleaned_block(block::copied(y, ym, yn), yn),
            len,
        ),
{
    let xc = block::copied(x, xm, xn);
    let yc = block::copied(y, ym, yn);
    assert forall|i: int| 0 <= i < len implies xc.0[at + i] == #[trigger] yc.0[i] && xc.1[at + i]
        == #[trigger] yc.1[i] by {
        assert(xm.0[at + i] == ym.0[i] && xm.1[at + i] == ym.1[i]);
    }
    cleaned_agree(xc, xn, at, yc, yn, len);
}

/// The outputs of the board agree where those of the steps do.
proof fn outputs_agree(
    x: Turnover,
    xn: int,
    xk: Kit,
    at: int,
    y: Turnover,
    yn: int,
    yk: Kit,
    len: int,
    off: Seq<bool>,
)
    requires
        worked_out(x, xn, xk, off),
        worked_out(y, yn, yk, off),
        same_board(x.0.0, y.0.0),
        0 <= at,
        0 <= len <= yn,
        at + len <= xn,
        forall|b: int|
            0 <= b <= x.0.0.fed_by.len() ==> agree(
                #[trigger] x.1.0.bufs[b],
                at,
                y.1.0.bufs[b],
                len,
            ),
    ensures
        agree(x.1.1, at, y.1.1, len),
{
    let srcs = x.0.0.out_fed_by;
    assert forall|j: int| 0 <= j < srcs.len() implies agree(
        x.1.0.bufs[#[trigger] srcs[j]],
        at,
        y.1.0.bufs[srcs[j]],
        len,
    ) by {
        assert(0 <= x.0.0.out_fed_by[j] <= x.0.0.fed_by.len());
    }
    sums_agree(
        x.0.0.flush,
        x.0.1,
        x.1.0.bufs,
        xn,
        x.1.1,
        at,
        y.0.1,
        y.1.0.bufs,
        yn,
        y.1.1,
        len,
        srcs,
    );
}

// ---------------------------------------------------------------- peaks

/// The louder of two peaks.
pub open spec fn louder_peak(p: u32, q: u32) -> u32 {
    if p < q {
        q
    } else {
        p
    }
}

proof fn peak_of_two(s: Seq<u32>, t: Seq<u32>)
    ensures
        sample::peak_of(s + t) == louder_peak(sample::peak_of(s), sample::peak_of(t)),
    decreases t.len(),
{
    if t.len() == 0 {
        assert(s + t =~= s);
    } else {
        peak_of_two(s, t.drop_last());
        assert((s + t).drop_last() =~= s + t.drop_last());
        assert((s + t).last() == t.last());
    }
}

proof fn peak_of_parts(x: Block, a: int, b: int, y: Block, z: Block)
    requires
        0 <= a,
        0 <= b,
        a + b <= x.0.len(),
        a + b <= x.1.len(),
        a <= y.0.len(),
        a <= y.1.len(),
        b <= z.0.len(),
        b <= z.1.len(),
        agree(x, 0, y, a),
        agree(x, a, z, b),
    ensures
        block::block_peak(x, a + b) == louder_peak(
            block::block_peak(y, a),
            block::block_peak(z, b),
        ),
{
    let l = y.0.take(a);
    let r = y.1.take(a);
    let m = z.0.take(b);
    let s = z.1.take(b);
    assert forall|i: int| 0 <= i < a + b implies #[trigger] x.0.take(a + b)[i] == (l + m)[i] by {
        if i < a {
            assert(x.0[0 + i] == y.0[i]);
        } else {
            assert(x.0[a + (i - a)] == z.0[i - a]);
        }
    }
    assert(x.0.take(a + b) =~= l + m);
    assert forall|i: int| 0 <= i < a + b implies #[trigger] x.1.take(a + b)[i] == (r + s)[i] by {
        if i < a {
            assert(x.1[0 + i] == y.1[i]);
        } else {
            assert(x.1[a + (i - a)] == z.1[i - a]);
        }
    }
    assert(x.1.take(a + b) =~= r + s);
    peak_of_two(l + m, r + s);
    peak_of_two(l, m);
    peak_of_two(r, s);
    peak_of_two(l, r);
    peak_of_two(m, s);
}

/// The output of a step has full size.
proof fn output_is_full(t: Turnover, n: int, kit: Kit, off: Seq<bool>, step: int)
    requires
        worked_out(t, n, kit, off),
        0 <= step < t.0.0.fed_by.len(),
    ensures
        full(t.1.0.bufs[step + 1]),
{
    mix_is_there(t, step, n, kit, off);
}

// ---------------------------------------------------------------- the same again

proof fn steps_agree(
    x: Turnover,
    xk: Kit,
    y: Turnover,
    yk: Kit,
    n: int,
    off: Seq<bool>,
    k: int,
)
    requires
        worked_out(x, n, xk, off),
        worked_out(y, n, yk, off),
        same_board(x.0.0, y.0.0),
        agree(x.0.0.bufs[0], 0, y.0.0.bufs[0], n),
        remember_the_same(x.0.0, y.0.0),
        forall|s: int|
            0 <= s < off.len() && !(#[trigger] off[s]) ==> go_the_same_way(
                x.0.0.procs,
                y.0.0.procs,
                s,
                xk.cells[s],
                yk.cells[s],
                n,
            ),
        0 <= k <= x.0.0.fed_by.len(),
    ensures
        forall|b: int| 0 <= b <= k ==> agree(#[trigger] x.1.0.bufs[b], 0, y.1.0.bufs[b], n),
        forall|s: int|
            0 <= s < k ==> #[trigger] x.1.0.procs[s].memory() == y.1.0.procs[s].memory(),
    decreases k,
{
    if k > 0 {
        let s = k - 1;
        steps_agree(x, xk, y, yk, n, off, s);
        mix_is_there(x, s, n, xk, off);
        mix_is_there(y, s, n, yk, off);
        mixes_agree(x, n, xk, 0, y, n, yk, n, off, s);
        let xm = mix_of(x, s, n, xk, off[s]);
        let ym = mix_of(y, s, n, yk, off[s]);
        let xb = x.0.0.bufs[k];
        let yb = y.0.0.bufs[k];
        assert(full(xb) && full(yb));
        if off[s] {
            passed_on_agree(xb, xm, n, 0, yb, ym, n, n);
            assert(x.0.0.procs[s].memory() == y.0.0.procs[s].memory());
        } else {
            let xo = made_by(x, s, n, xk);
            let yo = made_by(y, s, n, yk);
            let xr = raw_by(x, s, n, xk);
            let yr = raw_by(y, s, n, yk);
            made_is_there(x, s, n, xk, off);
            made_is_there(y, s, n, yk, off);
            assert(go_the_same_way(x.0.0.procs, y.0.0.procs, s, xk.cells[s], yk.cells[s], n));
            assert(agree(xo, 0, yo, n));
            cleaned_agree(xo, n, 0, yo, n, n);
        }
    }
}

/// What a processor has made, brought to full size.
spec fn made_by(t: Turnover, step: int, n: int, kit: Kit) -> Block {
    block::refitted_block(raw_by(t, step, n, kit))
}

/// What a processor has made.
spec fn raw_by(t: Turnover, step: int, n: int, kit: Kit) -> Block {
    choose|raw: Block|
        {
            &&& #[trigger] t.0.0.procs[step].may_turn(
                kit.cells[step],
                mix_of(t, step, n, kit, false),
                t.0.0.bufs[step + 1],
                n,
                raw,
                t.1.0.procs[step].memory(),
            )
            &&& t.1.0.bufs[step + 1] == block::cleaned_block(block::refitted_block(raw), n)
        }
}

proof fn made_is_there(t: Turnover, step: int, n: int, kit: Kit, off: Seq<bool>)
    requires
        worked_out(t, n, kit, off),
        0 <= step < t.0.0.fed_by.len(),
        !off[step],
    ensures
        t.0.0.procs[step].may_turn(
            kit.cells[step],
            mix_of(t, step, n, kit, false),
            t.0.0.bufs[step + 1],
            n,
            raw_by(t, step, n, kit),
            t.1.0.procs[step].memory(),
        ),
        t.1.0.bufs[step + 1] == block::cleaned_block(made_by(t, step, n, kit), n),
{
    mix_is_there(t, step, n, kit, off);
    let made = choose|made: Block|
        {
            &&& #[trigger] block::processed(
                t.0.0.procs,
                step,
                kit.cells[step],
                mix_of(t, step, n, kit, false),
                t.0.0.bufs[step + 1],
                n,
                made,
                t.1.0.procs[step].memory(),
            )
            &&& t.1.0.bufs[step + 1] == block::cleaned_block(made, n)
        };
    let raw = choose|raw: Block|
        {
            &&& #[trigger] t.0.0.procs[step].may_turn(
                kit.cells[step],
                mix_of(t, step, n, kit, false),
                t.0.0.bufs[step + 1],
                n,
                raw,
                t.1.0.procs[step].memory(),
            )
            &&& made == block::refitted_block(raw)
        };
    assert(t.1.0.bufs[step + 1] == block::cleaned_block(block::refitted_block(raw), n));
}

/// The processors of two schedules remember the same.
pub open spec fn remember_the_same(x: Picture, y: Picture) -> bool {
    &&& x.procs.len() == y.procs.len()
    &&& forall|s: int|
        0 <= s < x.procs.len() ==> #[trigger] x.procs[s].memory() == y.procs[s].memory()
}

/// The same input makes the same output on two schedules of one board whose processors remember
/// the same, and in the end they remember the same again; and every meter is raised to the same
/// peak.
pub proof fn same_input_makes_the_same_output(
    x: Turnover,
    xk: Kit,
    y: Turnover,
    yk: Kit,
    n: int,
    off: Seq<bool>,
)
    requires
        worked_out(x, n, xk, off),
        worked_out(y, n, yk, off),
        same_board(x.0.0, y.0.0),
        agree(x.0.0.bufs[0], 0, y.0.0.bufs[0], n),
        remember_the_same(x.0.0, y.0.0),
        forall|s: int|
            0 <= s < off.len() && !(#[trigger] off[s]) ==> go_the_same_way(
                x.0.0.procs,
                y.0.0.procs,
                s,
                xk.cells[s],
                yk.cells[s],
                n,
            ),
    ensures
        agree(x.1.1, 0, y.1.1, n),
        remember_the_same(x.1.0, y.1.0),
        forall|s: int|
            0 <= s < off.len() ==> block::block_peak(#[trigger] x.1.0.bufs[s + 1], n)
                == block::block_peak(y.1.0.bufs[s + 1], n),
{
    let all = x.0.0.fed_by.len() as int;
    steps_agree(x, xk, y, yk, n, off, all);
    outputs_agree(x, n, xk, 0, y, n, yk, n, off);
    assert forall|s: int| 0 <= s < off.len() implies block::block_peak(
        #[trigger] x.1.0.bufs[s + 1],
        n,
    ) == block::block_peak(y.1.0.bufs[s + 1], n) by {
        let xb = x.1.0.bufs[s + 1];
        let yb = y.1.0.bufs[s + 1];
        output_is_full(x, n, xk, off, s);
        output_is_full(y, n, yk, off, s);
        assert(agree(xb, 0, yb, n));
        assert forall|i: int| 0 <= i < n implies xb.0[i] == #[trigger] yb.0[i] && xb.1[i]
            == #[trigger] yb.1[i] by {
            assert(xb.0[0 + i] == yb.0[i]);
        }
        assert(xb.0.take(n) =~= yb.0.take(n));
        assert(xb.1.take(n) =~= yb.1.take(n));
    }
}

/// The blocks that a schedule has worked off, one behind the other: each begins with the
/// processors that the one before has left.
pub open spec fn history(h: Seq<Turnover>, ns: Seq<int>, kit: Kit, offs: Seq<Seq<bool>>) -> bool {
    &&& h.len() == ns.len()
    &&& h.len() == offs.len()
    &&& forall|t: int| 0 <= t < h.len() ==> worked_out(#[trigger] h[t], ns[t], kit, offs[t])
    &&& forall|t: int| 0 < t < h.len() ==> (#[trigger] h[t]).0.0.procs == h[t - 1].1.0.procs
}

/// A schedule built anew behaves as another did: fed the same blocks from the start, it gives
/// the same outputs, block for block. This is so when both begin with processors that remember
/// the same, as new ones do, and two processors that remember the same go the same way.
pub proof fn built_anew_behaves_the_same(
    x: Seq<Turnover>,
    xk: Kit,
    y: Seq<Turnover>,
    yk: Kit,
    ns: Seq<int>,
    offs: Seq<Seq<bool>>,
    t: int,
)
    requires
        history(x, ns, xk, offs),
        history(y, ns, yk, offs),
        forall|i: int| 0 <= i < x.len() ==> same_board((#[trigger] x[i]).0.0, y[i].0.0),
        forall|i: int|
            0 <= i < x.len() ==> agree((#[trigger] x[i]).0.0.bufs[0], 0, y[i].0.0.bufs[0], ns[i]),
        x.len() > 0 ==> remember_the_same(x[0].0.0, y[0].0.0),
        forall|i: int, s: int|
            0 <= i < x.len() && 0 <= s < offs[i].len() && !(#[trigger] offs[i][s])
                && x[i].0.0.procs[s].memory() == y[i].0.0.procs[s].memory() ==> go_the_same_way(
                x[i].0.0.procs,
                y[i].0.0.procs,
                s,
                xk.cells[s],
                yk.cells[s],
                ns[i],
            ),
        0 <= t < x.len(),
    ensures
        agree(x[t].1.1, 0, y[t].1.1, ns[t]),
        remember_the_same(x[t].1.0, y[t].1.0),
    decreases t,
{
    if t > 0 {
        built_anew_behaves_the_same(x, xk, y, yk, ns, offs, t - 1);
        assert(x[t].0.0.procs == x[t - 1].1.0.procs);
        assert(y[t].0.0.procs == y[t - 1].1.0.procs);
    }
    assert(remember_the_same(x[t].0.0, y[t].0.0));
    assert(worked_out(x[t], ns[t], xk, offs[t]));
    assert forall|s: int| 0 <= s < offs[t].len() && !(#[trigger] offs[t][s]) implies
        go_the_same_way(
        x[t].0.0.procs,
        y[t].0.0.procs,
        s,
        xk.cells[s],
        yk.cells[s],
        ns[t],
    ) by {
        assert(x[t].0.0.procs[s].memory() == y[t].0.0.procs[s].memory());
    }
    assert(same_board(x[t].0.0, y[t].0.0));
    same_input_makes_the_same_output(x[t], xk, y[t], yk, ns[t], offs[t]);
}

// ---------------------------------------------------------------- in parts

proof fn steps_agree_in_parts(
    x: Turnover,
    xk: Kit,
    y: Turnover,
    yk: Kit,
    z: Turnover,
    zk: Kit,
    a: int,
    b: int,
    off: Seq<bool>,
    k: int,
)
    requires
        worked_out(x, a + b, xk, off),
        worked_out(y, a, yk, off),
        worked_out(z, b, zk, off),
        same_board(x.0.0, y.0.0),
        same_board(x.0.0, z.0.0),
        z.0.0.procs == y.1.0.procs,
        agree(x.0.0.bufs[0], 0, y.0.0.bufs[0], a),
        agree(x.0.0.bufs[0], a, z.0.0.bufs[0], b),
        remember_the_same(x.0.0, y.0.0),
        forall|s: int|
            0 <= s < off.len() && !(#[trigger] off[s]) ==> takes_it_in_parts(
                x.0.0.procs,
                y.0.0.procs,
                z.0.0.procs,
                s,
                xk.cells[s],
                yk.cells[s],
                zk.cells[s],
                a + b,
                a,
                b,
            ),
        0 <= k <= x.0.0.fed_by.len(),
    ensures
        forall|i: int| 0 <= i <= k ==> agree(#[trigger] x.1.0.bufs[i], 0, y.1.0.bufs[i], a),
        forall|i: int| 0 <= i <= k ==> agree(#[trigger] x.1.0.bufs[i], a, z.1.0.bufs[i], b),
        forall|s: int|
            0 <= s < k ==> #[trigger] x.1.0.procs[s].memory() == z.1.0.procs[s].memory(),
    decreases k,
{
    let n = a + b;
    if k > 0 {
        let s = k - 1;
        steps_agree_in_parts(x, xk, y, yk, z, zk, a, b, off, s);
        mix_is_there(x, s, n, xk, off);
        mix_is_there(y, s, a, yk, off);
        mix_is_there(z, s, b, zk, off);
        mixes_agree(x, n, xk, 0, y, a, yk, a, off, s);
        mixes_agree(x, n, xk, a, z, b, zk, b, off, s);
        let xm = mix_of(x, s, n, xk, off[s]);
        let ym = mix_of(y, s, a, yk, off[s]);
        let zm = mix_of(z, s, b, zk, off[s]);
        let xb = x.0.0.bufs[k];
        let yb = y.0.0.bufs[k];
        let zb = z.0.0.bufs[k];
        assert(full(xb) && full(yb) && full(zb));
        if off[s] {
            passed_on_agree(xb, xm, n, 0, yb, ym, a, a);
            passed_on_agree(xb, xm, n, a, zb, zm, b, b);
            assert(x.0.0.procs[s].memory() == y.0.0.procs[s].memory());
        } else {
            let xo = made_by(x, s, n, xk);
            let yo = made_by(y, s, a, yk);
            let zo = made_by(z, s, b, zk);
            made_is_there(x, s, n, xk, off);
            made_is_there(y, s, a, yk, off);
            made_is_there(z, s, b, zk, off);
            assert(takes_it_in_parts(
                x.0.0.procs,
                y.0.0.procs,
                z.0.0.procs,
                s,
                xk.cells[s],
                yk.cells[s],
                zk.cells[s],
                n,
                a,
                b,
            ));
            assert(y.0.0.procs[s].may_turn(
                yk.cells[s],
                ym,
                yb,
                a,
                raw_by(y, s, a, yk),
                z.0.0.procs[s].memory(),
            ));
            assert(agree(xo, 0, yo, a) && agree(xo, a, zo, b));
            cleaned_agree(xo, n, 0, yo, a, a);
            cleaned_agree(xo, n, a, zo, b, b);
        }
    }
}

/// A block in two parts makes what it makes in one: the outputs of the parts, one behind the
/// other, are the output of the whole; in the end the same is remembered; and every meter is
/// raised to the same peak. This is so for processors that take a block in parts.
pub proof fn parts_make_the_whole(
    x: Turnover,
    xk: Kit,
    y: Turnover,
    yk: Kit,
    z: Turnover,
    zk: Kit,
    a: int,
    b: int,
    off: Seq<bool>,
)
    requires
        worked_out(x, a + b, xk, off),
        worked_out(y, a, yk, off),
        worked_out(z, b, zk, off),
        same_board(x.0.0, y.0.0),
        same_board(x.0.0, z.0.0),
        z.0.0.procs == y.1.0.procs,
        agree(x.0.0.bufs[0], 0, y.0.0.bufs[0], a),
        agree(x.0.0.bufs[0], a, z.0.0.bufs[0], b),
        remember_the_same(x.0.0, y.0.0),
        forall|s: int|
            0 <= s < off.len() && !(#[trigger] off[s]) ==> takes_it_in_parts(
                x.0.0.procs,
                y.0.0.procs,
                z.0.0.procs,
                s,
                xk.cells[s],
                yk.cells[s],
                zk.cells[s],
                a + b,
                a,
                b,
            ),
    ensures
        agree(x.1.1, 0, y.1.1, a),
        agree(x.1.1, a, z.1.1, b),
        remember_the_same(x.1.0, z.1.0),
        forall|s: int|
            0 <= s < off.len() ==> block::block_peak(#[trigger] x.1.0.bufs[s + 1], a + b)
                == louder_peak(
                block::block_peak(y.1.0.bufs[s + 1], a),
                block::block_peak(z.1.0.bufs[s + 1], b),
            ),
{
    let n = a + b;
    let all = x.0.0.fed_by.len() as int;
    steps_agree_in_parts(x, xk, y, yk, z, zk, a, b, off, all);
    outputs_agree(x, n, xk, 0, y, a, yk, a, off);
    outputs_agree(x, n, xk, a, z, b, zk, b, off);
    assert forall|s: int| 0 <= s < off.len() implies block::block_peak(
        #[trigger] x.1.0.bufs[s + 1],
        a + b,
    ) == louder_peak(
        block::block_peak(y.1.0.bufs[s + 1], a),
        block::block_peak(z.1.0.bufs[s + 1], b),
    ) by {
        output_is_full(x, n, xk, off, s);
        output_is_full(y, a, yk, off, s);
        output_is_full(z, b, zk, off, s);
        peak_of_parts(x.1.0.bufs[s + 1], a, b, y.1.0.bufs[s + 1], z.1.0.bufs[s + 1]);
    }
}

} // verus!
