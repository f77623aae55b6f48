//! The built-in nodes: their parameters, and what their processors share with the
//! schedule. A processor does arithmetic on samples; the tables, ranges and buffers
//! that it works with are described here.
use crate::adding;
use crate::block;
use crate::sample;
use std::sync::atomic::{AtomicBool, AtomicU32, Ordering};
use vstd::prelude::*;

verus! {

/// The most frames that are processed in one go.
pub const MAX_BLOCK: usize = 512;

/// A filter works out its coefficients anew after this many frames.
pub const SUB: usize = 32;

/// Stereo block buffer, each channel has `MAX_BLOCK` samples.
pub type Buf = [Vec<u32>; 2];

/// Both channels have room for a whole block.
pub open spec fn full_size(b: Buf) -> bool {
    b[0]@.len() == MAX_BLOCK && b[1]@.len() == MAX_BLOCK
}

/// A silent buffer.
pub fn new_buf() -> (r: Buf)
    ensures
        full_size(r),
        forall|ch: int, i: int|
            0 <= ch < 2 && 0 <= i < MAX_BLOCK ==> #[trigger] r[ch]@[i] == sample::ZERO,
{
    [vec![sample::ZERO; MAX_BLOCK], vec![sample::ZERO; MAX_BLOCK]]
}

/// Where the part of a run that begins at `s` ends, when it is cut into parts of
/// `size` frames.
pub open spec fn part_end(s: int, n: int, size: int) -> int {
    if s + size <= n {
        s + size
    } else {
        n
    }
}

/// Where the part of a run that begins at `s` ends.
pub fn end_of_part(s: usize, n: usize, size: usize) -> (r: usize)
    requires
        s <= n,
    ensures
        r == part_end(s as int, n as int, size as int),
{
    if size <= n - s {
        s + size
    } else {
        n
    }
}

/// A number shared between the control side and the audio side, as its pattern.
/// Reads and writes are single atomic operations. Another thread may write at any
/// moment, so of what a read gives it is said only which operation on which cell gave it.
#[derive(Debug, Default)]
pub struct AtomicF32 {
    bits: AtomicU32,
}

/// A cell that `AtomicU32::new` made of `v`.
pub open spec fn made_of(v: u32, cell: AtomicU32) -> bool {
    call_ensures(AtomicU32::new, (v,), cell)
}

/// A value that a relaxed `AtomicU32::load` gave of a cell.
pub open spec fn loaded_from(cell: AtomicU32, r: u32) -> bool {
    call_ensures(AtomicU32::load, (&cell, Ordering::Relaxed), r)
}

/// A value that a relaxed `AtomicU32::swap` took out of a cell when it put `v` there.
pub open spec fn swapped_out(cell: AtomicU32, v: u32, r: u32) -> bool {
    call_ensures(AtomicU32::swap, (&cell, v, Ordering::Relaxed), r)
}

/// `v` has been put into a cell by a relaxed `AtomicU32::store`.
pub open spec fn stored_in(cell: AtomicU32, v: u32) -> bool {
    call_ensures(AtomicU32::store, (&cell, v, Ordering::Relaxed), ())
}

/// A cell has been counted up by one, by a relaxed `AtomicU32::fetch_add`.
pub open spec fn counted_up(cell: AtomicU32) -> bool {
    exists|r: u32|
        call_ensures(AtomicU32::fetch_add, (&cell, 1u32, Ordering::Relaxed), r)
}

/// A cell has been raised to `v`, if it was lower, by `AtomicU32::fetch_update` with
/// [`raised`].
pub closed spec fn raised_by(cell: AtomicU32, v: u32) -> bool {
    call_ensures(update_to_larger, (&cell, v), ())
}

/// A switch that `AtomicBool::new` made.
pub open spec fn switch_made(on: bool, switch: AtomicBool) -> bool {
    call_ensures(AtomicBool::new, (on,), switch)
}

/// What a relaxed `AtomicBool::load` found a switch at.
pub open spec fn found_at(switch: AtomicBool, r: bool) -> bool {
    call_ensures(AtomicBool::load, (&switch, Ordering::Relaxed), r)
}

/// A switch has been turned by a relaxed `AtomicBool::store`.
pub open spec fn turned_to(switch: AtomicBool, on: bool) -> bool {
    call_ensures(AtomicBool::store, (&switch, on, Ordering::Relaxed), ())
}

/// What to store for a new reading, when a cell keeps the largest one seen.
pub fn raised(current: u32, v: u32) -> (r: Option<u32>)
    ensures
        r == if sample::lt(current, v) {
            Some(v)
        } else {
            None
        },
{
    if sample::less(current, v) {
        Some(v)
    } else {
        None
    }
}

/// Calls `AtomicU32::fetch_update`, which stores what [`raised`] makes of the current
/// value and `v`, or leaves the cell alone where that is nothing. The contract claims
/// nothing of it.
#[verifier::external_body]
fn update_to_larger(cell: &AtomicU32, v: u32) {
    let _ = cell.fetch_update(Ordering::Relaxed, Ordering::Relaxed, |current| raised(current, v));
}

impl AtomicF32 {
    /// The cell that holds the pattern.
    pub closed spec fn cell(&self) -> AtomicU32 {
        self.bits
    }

    /// A cell that holds `v`.
    pub fn new(v: u32) -> (r: Self)
        ensures
            made_of(v, r.cell()),
    {
        AtomicF32 { bits: AtomicU32::new(v) }
    }

    /// What the cell holds now.
    pub fn get(&self) -> (r: u32)
        ensures
            loaded_from(self.cell(), r),
    {
        self.bits.load(Ordering::Relaxed)
    }

    /// Stores `v`.
    pub fn set(&self, v: u32)
        ensures
            stored_in(self.cell(), v),
    {
        self.bits.store(v, Ordering::Relaxed)
    }

    /// Stores the maximum (used for peak meters).
    pub fn max(&self, v: u32)
        ensures
            raised_by(self.cell(), v),
    {
        update_to_larger(&self.bits, v)
    }

    /// Reads and resets to zero.
    pub fn take(&self) -> (r: u32)
        ensures
            swapped_out(self.cell(), sample::ZERO, r),
    {
        self.bits.swap(sample::ZERO, Ordering::Relaxed)
    }
}

/// What a user can set on a node, and within which limits. The numbers are patterns.
#[derive(Debug, Clone)]
pub struct ParamSpec {
    pub id: &'static str,
    pub name: &'static str,
    pub min: u32,
    pub max: u32,
    pub default: u32,
    pub unit: &'static str,
    /// Logarithmic UI mapping.
    pub log: bool,
    /// Stepped/enum values; empty = continuous.
    pub options: Vec<&'static str>,
}

/// What a parameter description says.
#[verifier::ext_equal]
pub ghost struct ParamView {
    pub id: Seq<char>,
    pub name: Seq<char>,
    pub min: u32,
    pub max: u32,
    pub default: u32,
    pub unit: Seq<char>,
    pub log: bool,
    pub options: Seq<Seq<char>>,
}

impl View for ParamSpec {
    type V = ParamView;

    open spec fn view(&self) -> ParamView {
        ParamView {
            id: self.id@,
            name: self.name@,
            min: self.min,
            max: self.max,
            default: self.default,
            unit: self.unit@,
            log: self.log,
            options: self.options@.map_values(|s: &'static str| s@),
        }
    }
}

impl ParamView {
    /// The limits are numbers, in order.
    pub open spec fn has_range(&self) -> bool {
        !sample::nan(self.min) && !sample::nan(self.max) && sample::value(self.min)
            <= sample::value(self.max)
    }

    /// What a parameter becomes when it is set to `v`: the default for what is no
    /// number, else the nearest number in range, and a whole one among options.
    pub open spec fn setting(&self, v: u32) -> u32 {
        if !sample::finite(v) {
            self.default
        } else if self.options.len() == 0 {
            sample::clamped(v, self.min, self.max)
        } else {
            sample::rounded(sample::clamped(v, self.min, self.max))
        }
    }
}

impl ParamSpec {
    /// What this parameter becomes when it is set to `v`.
    pub fn clamp(&self, v: u32) -> (r: u32)
        requires
            sample::finite(v) ==> self@.has_range(),
        ensures
            r == self@.setting(v),
    {
        if !sample::is_finite(v) {
            return self.default;
        }
        let c = sample::clamp(v, self.min, self.max);
        if self.options.len() == 0 {
            c
        } else {
            sample::round(c)
        }
    }
}

/// A parameter without steps.
pub open spec fn smooth(
    id: Seq<char>,
    name: Seq<char>,
    min: u32,
    max: u32,
    default: u32,
    unit: Seq<char>,
    log: bool,
) -> ParamView {
    ParamView { id, name, min, max, default, unit, log, options: Seq::empty() }
}

fn p(
    id: &'static str,
    name: &'static str,
    min: u32,
    max: u32,
    default: u32,
    unit: &'static str,
    log: bool,
) -> (r: ParamSpec)
    ensures
        r@ == smooth(id@, name@, min, max, default, unit@, log),
{
    let r = ParamSpec { id, name, min, max, default, unit, log, options: Vec::new() };
    assert(r@.options =~= Seq::<Seq<char>>::empty());
    r
}

/// The kinds of node.
#[derive(Debug, Clone, Copy, PartialEq, Eq, Hash, Structural)]
pub enum NodeKind {
    Gain,
    Filter,
    Drive,
    Delay,
    Tremolo,
}

/// What the user interface shows of a kind of node.
#[derive(Debug, Clone)]
pub struct NodeInfo {
    pub kind: NodeKind,
    pub name: &'static str,
    pub category: &'static str,
    pub params: Vec<ParamSpec>,
}

/// The name of a kind of node.
pub open spec fn kind_name(kind: NodeKind) -> Seq<char> {
    match kind {
        NodeKind::Gain => "Gain"@,
        NodeKind::Filter => "Filter / EQ"@,
        NodeKind::Drive => "Drive"@,
        NodeKind::Delay => "Delay"@,
        NodeKind::Tremolo => "Tremolo"@,
    }
}

/// The category that a kind of node is listed under.
pub open spec fn kind_category(kind: NodeKind) -> Seq<char> {
    match kind {
        NodeKind::Gain => "Utility"@,
        NodeKind::Filter => "Filter"@,
        NodeKind::Drive => "Distortion"@,
        NodeKind::Delay => "Time"@,
        NodeKind::Tremolo => "Modulation"@,
    }
}

/// The parameters of a kind of node. Minimum, maximum and default are patterns.
pub open spec fn kind_params(kind: NodeKind) -> Seq<ParamView> {
    match kind {
        NodeKind::Gain => seq![
            // from -60 to 24, 0
            smooth("gain"@, "Gain"@, 0xc270_0000, 0x41c0_0000, 0x0000_0000, "dB"@, false),
        ],
        NodeKind::Filter => seq![
            ParamView {
                id: "mode"@,
                name: "Mode"@,
                min: 0x0000_0000,
                max: 0x4040_0000,
                default: 0x0000_0000,
                unit: ""@,
                log: false,
                options: seq!["Low-pass"@, "High-pass"@, "Band-pass"@, "Peak"@],
            },
            // from 20 to 20000, 1000
            smooth("freq"@, "Frequency"@, 0x41a0_0000, 0x469c_4000, 0x447a_0000, "Hz"@, true),
            // from 0.1 to 18, 0.707
            smooth("q"@, "Q"@, 0x3dcc_cccd, 0x4190_0000, 0x3f34_fdf4, ""@, true),
            // from -24 to 24, 0
            smooth("gain"@, "Gain"@, 0xc1c0_0000, 0x41c0_0000, 0x0000_0000, "dB"@, false),
        ],
        NodeKind::Drive => seq![
            // from 0 to 40, 12
            smooth("drive"@, "Drive"@, 0x0000_0000, 0x4220_0000, 0x4140_0000, "dB"@, false),
            // from 500 to 12000, 4000
            smooth("tone"@, "Tone"@, 0x43fa_0000, 0x463b_8000, 0x457a_0000, "Hz"@, true),
            // from -40 to 6, -6
            smooth("level"@, "Level"@, 0xc220_0000, 0x40c0_0000, 0xc0c0_0000, "dB"@, false),
            // from 0 to 1, 1
            smooth("mix"@, "Mix"@, 0x0000_0000, 0x3f80_0000, 0x3f80_0000, ""@, false),
        ],
        NodeKind::Delay => seq![
            // from 1 to 2000, 350
            smooth("time"@, "Time"@, 0x3f80_0000, 0x44fa_0000, 0x43af_0000, "ms"@, true),
            // from 0 to 0.95, 0.35
            smooth("feedback"@, "Feedback"@, 0x0000_0000, 0x3f73_3333, 0x3eb3_3333, ""@, false),
            // from 500 to 16000, 6000
            smooth("tone"@, "Tone"@, 0x43fa_0000, 0x467a_0000, 0x45bb_8000, "Hz"@, true),
            // from 0 to 1, 0.3
            smooth("mix"@, "Mix"@, 0x0000_0000, 0x3f80_0000, 0x3e99_999a, ""@, false),
        ],
        NodeKind::Tremolo => seq![
            // from 0.1 to 20, 5
            smooth("rate"@, "Rate"@, 0x3dcc_cccd, 0x41a0_0000, 0x40a0_0000, "Hz"@, true),
            // from 0 to 1, 0.5
            smooth("depth"@, "Depth"@, 0x0000_0000, 0x3f80_0000, 0x3f00_0000, ""@, false),
        ],
    }
}

/// What a list of parameter descriptions says.
pub open spec fn views(s: Seq<ParamSpec>) -> Seq<ParamView> {
    s.map_values(|p: ParamSpec| p@)
}

impl NodeKind {
    /// Every kind, in the order in which the user interface lists them.
    pub fn all() -> (r: Vec<NodeKind>)
        ensures
            r@ == seq![
                NodeKind::Gain,
                NodeKind::Filter,
                NodeKind::Drive,
                NodeKind::Delay,
                NodeKind::Tremolo,
            ],
    {
        vec![
            NodeKind::Gain,
            NodeKind::Filter,
            NodeKind::Drive,
            NodeKind::Delay,
            NodeKind::Tremolo,
        ]
    }

    /// What the user interface shows of this kind.
    pub fn info(self) -> (r: NodeInfo)
        ensures
            r.kind == self,
            r.name@ == kind_name(self),
            r.category@ == kind_category(self),
            views(r.params@) == kind_params(self),
    {
        let (name, category) = match self {
            NodeKind::Gain => ("Gain", "Utility"),
            NodeKind::Filter => ("Filter / EQ", "Filter"),
            NodeKind::Drive => ("Drive", "Distortion"),
            NodeKind::Delay => ("Delay", "Time"),
            NodeKind::Tremolo => ("Tremolo", "Modulation"),
        };
        NodeInfo { kind: self, name, category, params: self.params() }
    }

    /// The parameters of this kind.
    pub fn params(self) -> (r: Vec<ParamSpec>)
        ensures
            views(r@) == kind_params(self),
    {
        let r = match self {
            NodeKind::Gain => vec![
                p("gain", "Gain", 0xc270_0000, 0x41c0_0000, 0x0000_0000, "dB", false),
            ],
            NodeKind::Filter => vec![
                ParamSpec {
                    id: "mode",
                    name: "Mode",
                    min: 0x0000_0000,
                    max: 0x4040_0000,
                    default: 0x0000_0000,
                    unit: "",
                    log: false,
                    options: vec!["Low-pass", "High-pass", "Band-pass", "Peak"],
                },
                p("freq", "Frequency", 0x41a0_0000, 0x469c_4000, 0x447a_0000, "Hz", true),
                p("q", "Q", 0x3dcc_cccd, 0x4190_0000, 0x3f34_fdf4, "", true),
                p("gain", "Gain", 0xc1c0_0000, 0x41c0_0000, 0x0000_0000, "dB", false),
            ],
            NodeKind::Drive => vec![
                p("drive", "Drive", 0x0000_0000, 0x4220_0000, 0x4140_0000, "dB", false),
                p("tone", "Tone", 0x43fa_0000, 0x463b_8000, 0x457a_0000, "Hz", true),
                p("level", "Level", 0xc220_0000, 0x40c0_0000, 0xc0c0_0000, "dB", false),
                p("mix", "Mix", 0x0000_0000, 0x3f80_0000, 0x3f80_0000, "", false),
            ],
            NodeKind::Delay => vec![
                p("time", "Time", 0x3f80_0000, 0x44fa_0000, 0x43af_0000, "ms", true),
                p("feedback", "Feedback", 0x0000_0000, 0x3f73_3333, 0x3eb3_3333, "", false),
                p("tone", "Tone", 0x43fa_0000, 0x467a_0000, 0x45bb_8000, "Hz", true),
                p("mix", "Mix", 0x0000_0000, 0x3f80_0000, 0x3e99_999a, "", false),
            ],
            NodeKind::Tremolo => vec![
                p("rate", "Rate", 0x3dcc_cccd, 0x41a0_0000, 0x40a0_0000, "Hz", true),
                p("depth", "Depth", 0x0000_0000, 0x3f80_0000, 0x3f00_0000, "", false),
            ],
        };
        assert(views(r@) =~~= kind_params(self));
        r
    }
}

/// A processor turns one block of samples into another, and may remember what it needs for
/// the next.
pub trait Processor: Send {
    /// What the processor remembers from block to block. One that does not say otherwise tells
    /// nothing of it.
    open spec fn memory(&self) -> Seq<u32> {
        Seq::empty()
    }

    /// What the first `n` frames of `input` may be turned into, where the output held
    /// `before`, and what the processor may then remember. This is the processor's own matter:
    /// one that does not say otherwise may make of them what it likes.
    open spec fn may_turn(
        &self,
        params: Seq<AtomicF32>,
        input: block::Block,
        before: block::Block,
        n: int,
        since: block::Block,
        memory: Seq<u32>,
    ) -> bool {
        true
    }

    /// Must not allocate, lock or block.
    fn process(&mut self, params: &Vec<AtomicF32>, input: &Buf, output: &mut Buf, n: usize)
        ensures
            old(self).may_turn(
                params@,
                block::block_of(*input),
                block::block_of(*old(output)),
                n as int,
                block::block_of(*final(output)),
                final(self).memory(),
            ),
    ;
}

// ---------------------------------------------------------------- laws

/// The limits of a parameter are finite and in order, and where there are options they
/// count up from zero.
pub open spec fn sound_limits(p: ParamView) -> bool {
    &&& sample::finite(p.min)
    &&& sample::finite(p.max)
    &&& sample::finite(p.default)
    &&& sample::value(p.min) <= sample::value(p.default) <= sample::value(p.max)
    &&& p.options.len() > 0 ==> p.min == sample::ZERO && p.default == sample::ZERO
        && sample::value(p.max) == (p.options.len() - 1) * sample::unit()
}

proof fn patterns_in_order(a: u32, b: u32)
    requires
        sample::negative(a) ==> (sample::negative(b) ==> sample::magnitude(a)
            >= sample::magnitude(b)),
        !sample::negative(a) ==> !sample::negative(b) && a <= b,
    ensures
        sample::value(a) <= sample::value(b),
{
    sample::magnitude_orders_values(sample::magnitude(a), sample::magnitude(b));
    sample::magnitude_orders_values(sample::magnitude(b), sample::magnitude(a));
}

/// The limits of every parameter of every kind are sound.
pub proof fn every_parameter_is_sound(kind: NodeKind, i: int)
    requires
        0 <= i < kind_params(kind).len(),
    ensures
        sound_limits(kind_params(kind)[i]),
        kind_params(kind)[i].has_range(),
{
    let p = kind_params(kind)[i];
    patterns_in_order(p.min, p.default);
    patterns_in_order(p.default, p.max);
    if p.options.len() > 0 {
        assert(p.max == 0x4040_0000u32 && p.options.len() == 4);
        vstd::arithmetic::power2::lemma_pow2_adds(22, 127);
        vstd::arithmetic::power2::lemma2_to64();
        assert(sample::value(p.max) == 0xc0_0000 * vstd::arithmetic::power2::pow2(127));
    }
}

/// A parameter never leaves its range, and setting it to what it is changes nothing.
pub proof fn settings_stay_in_range(kind: NodeKind, i: int, v: u32)
    requires
        0 <= i < kind_params(kind).len(),
    ensures
        sample::finite(kind_params(kind)[i].setting(v)),
        sample::value(kind_params(kind)[i].min) <= sample::value(kind_params(kind)[i].setting(v))
            <= sample::value(kind_params(kind)[i].max),
        kind_params(kind)[i].setting(kind_params(kind)[i].setting(v))
            == kind_params(kind)[i].setting(v),
{
    let p = kind_params(kind)[i];
    every_parameter_is_sound(kind, i);
    let u = sample::unit();
    vstd::arithmetic::power2::lemma_pow2_pos(149);
    if p.options.len() == 0 {
    } else if !sample::finite(v) {
        sample::rounding_is_to_nearest(0);
        sample::magnitude_orders_values(sample::rounded_magnitude(0), 0);
        assert((0 + u / 2) / u * u == 0) by (nonlinear_arith)
            requires
                u > 0,
        ;
    } else {
        let c = sample::clamped(v, p.min, p.max);
        let m = sample::magnitude(c);
        sample::magnitude_orders_values(m, 0);
        sample::rounding_is_to_nearest(m);
        let k = p.options.len() - 1;
        let x = sample::scaled(m);
        let q = (x + u / 2) / u;
        assert(x == sample::value(c));
        assert(0 <= q <= k) by (nonlinear_arith)
            requires
                0 <= x <= k * u,
                u > 0,
                q == (x + u / 2) / u,
        ;
        let r = sample::rounded(c);
        let rm = sample::rounded_magnitude(m);
        assert(sample::magnitude(r) == rm);
        assert(0 <= q * u <= k * u) by (nonlinear_arith)
            requires
                0 <= q <= k,
                u > 0,
        ;
        sample::magnitude_orders_values(rm, 0);
        assert(sample::negative(c) ==> x == 0);
        if sample::negative(c) {
            assert(m == 0);
            assert((0 + u / 2) / u * u == 0) by (nonlinear_arith)
                requires
                    u > 0,
            ;
            assert(rm == 0);
        }
        assert(sample::value(r) == q * u);
        sample::rounding_is_to_nearest(rm);
        assert((q * u + u / 2) / u == q) by (nonlinear_arith)
            requires
                u > 0,
        ;
        sample::magnitude_orders_values(sample::rounded_magnitude(rm), rm);
        assert(sample::clamped(r, p.min, p.max) == r);
    }
}

/// A default is a setting: setting a parameter to its default gives its default.
pub proof fn defaults_are_settings(kind: NodeKind, i: int)
    requires
        0 <= i < kind_params(kind).len(),
    ensures
        kind_params(kind)[i].setting(kind_params(kind)[i].default) == kind_params(kind)[i].default,
{
    let p = kind_params(kind)[i];
    every_parameter_is_sound(kind, i);
    if p.options.len() > 0 {
        let u = sample::unit();
        vstd::arithmetic::power2::lemma_pow2_pos(149);
        sample::rounding_is_to_nearest(0);
        sample::magnitude_orders_values(sample::rounded_magnitude(0), 0);
        assert((0 + u / 2) / u * u == 0) by (nonlinear_arith)
            requires
                u > 0,
        ;
    }
}

/// Setting a parameter sets it to the nearest value that it can have: without steps that is the
/// number itself, or the limit that it is beyond; with steps it is a whole number within the
/// limits, and none is nearer. What is no number sets it to its default.
pub proof fn settings_are_nearest(kind: NodeKind, i: int, v: u32)
    requires
        0 <= i < kind_params(kind).len(),
    ensures
        ({
            let p = kind_params(kind)[i];
            let s = p.setting(v);
            let x = sample::value(v);
            &&& !sample::finite(v) ==> s == p.default
            &&& sample::finite(v) ==> {
                &&& x < sample::value(p.min) ==> sample::value(s) == sample::value(p.min)
                &&& x > sample::value(p.max) ==> sample::value(s) == sample::value(p.max)
                &&& p.options.len() == 0 && sample::value(p.min) <= x <= sample::value(p.max)
                    ==> s == v
                &&& p.options.len() > 0 ==> exists|q: int|
                    {
                        &&& 0 <= q < p.options.len()
                        &&& sample::value(s) == #[trigger] steps_up(q)
                        &&& forall|k: int|
                            0 <= k < p.options.len() ==> adding::apart(steps_up(q), x)
                                <= adding::apart(#[trigger] steps_up(k), x)
                    }
            }
        }),
{
    let p = kind_params(kind)[i];
    every_parameter_is_sound(kind, i);
    if p.options.len() > 0 && sample::finite(v) {
        nearest_option(kind, i, v);
    }
}

/// A whole number in the units that samples are measured in.
pub open spec fn steps_up(k: int) -> int {
    k * sample::unit()
}

proof fn nearest_option(kind: NodeKind, i: int, v: u32)
    requires
        0 <= i < kind_params(kind).len(),
        kind_params(kind)[i].options.len() > 0,
        sample::finite(v),
    ensures
        ({
            let p = kind_params(kind)[i];
            let s = p.setting(v);
            let x = sample::value(v);
            let top = p.options.len() - 1;
            &&& x < 0 ==> sample::value(s) == 0
            &&& x > top * sample::unit() ==> sample::value(s) == top * sample::unit()
            &&& exists|q: int|
                {
                    &&& 0 <= q < p.options.len()
                    &&& sample::value(s) == #[trigger] steps_up(q)
                    &&& forall|k: int|
                        0 <= k < p.options.len() ==> adding::apart(steps_up(q), x)
                            <= adding::apart(#[trigger] steps_up(k), x)
                }
        }),
{
    let p = kind_params(kind)[i];
    every_parameter_is_sound(kind, i);
    let u = sample::unit();
    vstd::arithmetic::power2::lemma_pow2_pos(149);
    vstd::arithmetic::power2::lemma_pow2_unfold(149);
    let top = p.options.len() - 1;
    let x = sample::value(v);
    let c = sample::clamped(v, p.min, p.max);
    let m = sample::magnitude(c);
    let y = sample::scaled(m);
    let q = (y + u / 2) / u;
    sample::magnitude_orders_values(m, 0);
    sample::magnitude_orders_values(0, m);
    sample::rounding_is_to_nearest(m);
    assert(0 <= top * u) by (nonlinear_arith)
        requires
            top >= 0,
            u > 0,
    ;
    assert(sample::value(c) == y) by {
        assert(sample::negative(c) ==> y == 0);
    }
    assert(0 <= q <= top && (y == 0 ==> q == 0) && (y == top * u ==> q == top)) by (nonlinear_arith)
        requires
            0 <= y <= top * u,
            u > 0,
            top >= 0,
            q == (y + u / 2) / u,
    ;
    let r = sample::rounded(c);
    let rm = sample::rounded_magnitude(m);
    assert(sample::magnitude(r) == rm);
    assert(0 <= q * u) by (nonlinear_arith)
        requires
            0 <= q,
            u > 0,
    ;
    sample::magnitude_orders_values(rm, 0);
    assert(sample::value(r) == q * u);
    assert(0 * u == 0) by (nonlinear_arith);
    assert(steps_up(q) == q * u);
    assert forall|k: int| 0 <= k < p.options.len() implies adding::apart(steps_up(q), x)
        <= adding::apart(#[trigger] steps_up(k), x) by {
        nearest_whole(y, q, k, u);
        assert(0 <= k * u <= top * u) by (nonlinear_arith)
            requires
                0 <= k <= top,
                u > 0,
        ;
    }
}

proof fn nearest_whole(y: int, q: int, k: int, u: int)
    requires
        u > 0,
        u % 2 == 0,
        q == (y + u / 2) / u,
    ensures
        adding::apart(q * u, y) <= adding::apart(k * u, y),
{
    vstd::arithmetic::div_mod::lemma_fundamental_div_mod(y + u / 2, u);
    vstd::arithmetic::div_mod::lemma_mod_bound(y + u / 2, u);
    assert(u * q == q * u) by (nonlinear_arith);
    let d = y - q * u;
    assert(-(u / 2) <= d < u - u / 2);
    if k > q {
        assert(k * u >= q * u + u) by (nonlinear_arith)
            requires
                k >= q + 1,
                u > 0,
        ;
    } else if k < q {
        assert(k * u <= q * u - u) by (nonlinear_arith)
            requires
                k <= q - 1,
                u > 0,
        ;
    }
}

/// The parts that a run is cut into come one behind the other: a part begins where it should,
/// has at least one frame, none is longer than it may be, and only the last is shorter.
pub proof fn parts_follow_each_other(s: int, n: int, size: int)
    requires
        0 <= s < n,
        size > 0,
    ensures
        s < part_end(s, n, size) <= n,
        part_end(s, n, size) - s <= size,
        part_end(s, n, size) < n ==> part_end(s, n, size) - s == size,
{
}

/// What the user interface calls the kinds of node, and what it lists them under.
pub proof fn kinds_have_their_names()
    ensures
        kind_name(NodeKind::Gain) == "Gain"@ && kind_category(NodeKind::Gain) == "Utility"@,
        kind_name(NodeKind::Filter) == "Filter / EQ"@ && kind_category(NodeKind::Filter)
            == "Filter"@,
        kind_name(NodeKind::Drive) == "Drive"@ && kind_category(NodeKind::Drive) == "Distortion"@,
        kind_name(NodeKind::Delay) == "Delay"@ && kind_category(NodeKind::Delay) == "Time"@,
        kind_name(NodeKind::Tremolo) == "Tremolo"@ && kind_category(NodeKind::Tremolo)
            == "Modulation"@,
{
}

/// The description of a parameter leaves nothing out.
pub proof fn parameters_tell_everything(p: ParamSpec, i: int)
    ensures
        p@.id == p.id@ && p@.name == p.name@ && p@.unit == p.unit@,
        p@.min == p.min && p@.max == p.max && p@.default == p.default && p@.log == p.log,
        p@.options.len() == p.options@.len(),
        0 <= i < p.options@.len() ==> p@.options[i] == p.options@[i]@,
{
}

/// A meter only rises: it is raised just where what there is to show is above what it shows, and
/// then to that.
pub proof fn meters_only_rise(current: u32, v: u32, r: Option<u32>)
    requires
        call_ensures(raised, (current, v), r),
        !sample::nan(current),
        !sample::nan(v),
    ensures
        sample::value(current) < sample::value(v) ==> r == Some(v),
        sample::value(current) >= sample::value(v) ==> r is None,
{
}

} // verus!
