//! What is known of audio devices, and which of their configurations are used.
use crate::nodes::AtomicF32;
use crate::nodes;
use crate::sample;
use crate::text;
use std::sync::atomic::{AtomicU32, Ordering};
use vstd::prelude::*;

verus! {

/// The devices that the user wants.
#[derive(Debug, Clone)]
pub struct AudioConfig {
    pub host: Option<String>,
    pub input: Option<String>,
    pub output: Option<String>,
    /// Requested buffer size in frames (None = driver default).
    pub buffer: Option<u32>,
    /// Disable input (output-only use).
    pub no_input: bool,
}

impl Default for AudioConfig {
    /// The default devices of the default host.
    fn default() -> (r: Self)
        ensures
            r.host is None,
            r.input is None,
            r.output is None,
            r.buffer is None,
            !r.no_input,
    {
        AudioConfig { host: None, input: None, output: None, buffer: None, no_input: false }
    }
}

/// The devices of one host.
#[derive(Debug, Clone)]
pub struct HostDevices {
    pub host: String,
    pub inputs: Vec<String>,
    pub outputs: Vec<String>,
    pub default_input: Option<String>,
    pub default_output: Option<String>,
}

/// What is running.
#[derive(Debug)]
pub struct RunningInfo {
    pub host: String,
    pub input: Option<String>,
    pub output: String,
    pub sample_rate: u32,
    pub buffer: Option<u32>,
    pub out_channels: u16,
    pub in_channels: u16,
}

/// The text of a name that may be missing.
pub open spec fn maybe(s: Option<String>) -> Option<Seq<char>> {
    match s {
        Some(t) => Some(t@),
        None => None,
    }
}

/// What running information says.
pub ghost struct InfoView {
    pub host: Seq<char>,
    pub input: Option<Seq<char>>,
    pub output: Seq<char>,
    pub sample_rate: u32,
    pub buffer: Option<u32>,
    pub out_channels: u16,
    pub in_channels: u16,
}

impl View for RunningInfo {
    type V = InfoView;

    open spec fn view(&self) -> InfoView {
        InfoView {
            host: self.host@,
            input: maybe(self.input),
            output: self.output@,
            sample_rate: self.sample_rate,
            buffer: self.buffer,
            out_channels: self.out_channels,
            in_channels: self.in_channels,
        }
    }
}

/// A copy of a name that may be missing.
pub fn copy_name(s: &Option<String>) -> (r: Option<String>)
    ensures
        maybe(r) == maybe(*s),
{
    match s {
        Some(t) => Some(t.clone()),
        None => None,
    }
}

impl Clone for RunningInfo {
    fn clone(&self) -> (r: Self)
        ensures
            r@ == self@,
    {
        RunningInfo {
            host: self.host.clone(),
            input: copy_name(&self.input),
            output: self.output.clone(),
            sample_rate: self.sample_rate,
            buffer: self.buffer,
            out_channels: self.out_channels,
            in_channels: self.in_channels,
        }
    }
}

/// Meters and stats written by the audio thread.
#[derive(Debug, Default)]
pub struct EngineStats {
    pub in_peak: [AtomicF32; 2],
    pub out_peak: [AtomicF32; 2],
    /// DSP load 0..1 (peak since last read)
    pub load: AtomicF32,
    pub xruns: AtomicU32,
    pub callback_frames: AtomicU32,
}

/// A load as the meter shows it: moved into the range from 0 to 1.
pub open spec fn shown_load(load: u32) -> u32 {
    sample::clamped(load, sample::ZERO, sample::ONE)
}

/// A meter that shows a load from 0 to 1 goes on to do so, and never falls, when it is raised to
/// another load as [`nodes::raised`] says.
pub proof fn load_stays_in_range(current: u32, load: u32, raised: Option<u32>)
    requires
        !sample::nan(current),
        0 <= sample::value(current) <= sample::unit(),
        raised == if sample::lt(current, shown_load(load)) {
            Some(shown_load(load))
        } else {
            None
        },
    ensures
        ({
            let since = match raised {
                Some(v) => v,
                None => current,
            };
            &&& !sample::nan(since)
            &&& sample::value(current) <= sample::value(since) <= sample::unit()
        }),
{
    sample::one_is_the_unit();
    sample::magnitude_orders_values(0, 0);
    vstd::arithmetic::power2::lemma_pow2_pos(149);
}

impl EngineStats {
    /// Raises the meters of the input. Another thread may read and reset them at any moment,
    /// so it is said which cells were raised, and not what they hold since.
    pub fn show_input(&self, left: u32, right: u32)
        ensures
            nodes::raised_by(self.in_peak[0].cell(), left),
            nodes::raised_by(self.in_peak[1].cell(), right),
    {
        self.in_peak[0].max(left);
        self.in_peak[1].max(right);
    }

    /// Raises the meters of the output.
    pub fn show_output(&self, left: u32, right: u32)
        ensures
            nodes::raised_by(self.out_peak[0].cell(), left),
            nodes::raised_by(self.out_peak[1].cell(), right),
    {
        self.out_peak[0].max(left);
        self.out_peak[1].max(right);
    }

    /// Raises the meter of the load, which goes from 0 to 1, and notes how many frames the last
    /// callback had.
    pub fn show_callback(&self, load: u32, frames: u32)
        ensures
            nodes::raised_by(self.load.cell(), shown_load(load)),
            nodes::stored_in(self.callback_frames, frames),
    {
        proof {
            sample::one_is_the_unit();
            vstd::arithmetic::power2::lemma_pow2_pos(149);
            sample::magnitude_orders_values(0, 0);
        }
        self.load.max(sample::clamp(load, sample::ZERO, sample::ONE));
        self.callback_frames.store(frames, Ordering::Relaxed);
    }

    /// Counts a callback that did not get what it needed.
    pub fn count_xrun(&self)
        ensures
            nodes::counted_up(self.xruns),
    {
        let _ = self.xruns.fetch_add(1, Ordering::Relaxed);
    }
}

// ---------------------------------------------------------------- formats

/// How a device wants its samples. All but the first four are foreign to this engine.
#[derive(Debug, Clone, Copy, PartialEq, Eq, Structural)]
pub enum SampleFormat {
    F32,
    I32,
    I16,
    U16,
    Other,
}

/// How good a format is; the lower the better, and 99 cannot be used.
pub open spec fn rank_of(f: SampleFormat) -> int {
    match f {
        SampleFormat::F32 => 0,
        SampleFormat::I32 => 1,
        SampleFormat::I16 => 2,
        SampleFormat::U16 => 3,
        SampleFormat::Other => 99,
    }
}

/// How good a format is.
pub fn fmt_rank(f: SampleFormat) -> (r: u8)
    ensures
        r == rank_of(f),
{
    match f {
        SampleFormat::F32 => 0,
        SampleFormat::I32 => 1,
        SampleFormat::I16 => 2,
        SampleFormat::U16 => 3,
        SampleFormat::Other => 99,
    }
}

/// A range of configurations that a device supports.
#[derive(Debug, Clone, Copy, PartialEq, Eq, Structural)]
pub struct StreamRange {
    pub min_rate: u32,
    pub max_rate: u32,
    pub format: SampleFormat,
    pub channels: u16,
}

/// A range that has a rate, in a format that can be used.
pub open spec fn usable(r: StreamRange, rate: u32) -> bool {
    r.min_rate <= rate <= r.max_rate && rank_of(r.format) < 99
}

/// How far from stereo a range is.
pub open spec fn from_stereo(r: StreamRange) -> int {
    if r.channels >= 2 {
        r.channels - 2
    } else {
        2 - r.channels
    }
}

/// A range is better than another: in a better format, or in the same format and nearer
/// to stereo.
pub open spec fn better(a: StreamRange, b: StreamRange) -> bool {
    rank_of(a.format) < rank_of(b.format) || rank_of(a.format) == rank_of(b.format)
        && from_stereo(a) < from_stereo(b)
}

fn is_better(a: &StreamRange, b: &StreamRange) -> (r: bool)
    ensures
        r == better(*a, *b),
{
    let ra = fmt_rank(a.format);
    let rb = fmt_rank(b.format);
    let da: u16 = if a.channels >= 2 {
        a.channels - 2
    } else {
        2 - a.channels
    };
    let db: u16 = if b.channels >= 2 {
        b.channels - 2
    } else {
        2 - b.channels
    };
    ra < rb || (ra == rb && da < db)
}

/// A range is the best that has a rate: no other is better, and those before it are worse.
pub open spec fn best_at(ranges: Seq<StreamRange>, rate: u32, i: int) -> bool {
    &&& 0 <= i < ranges.len()
    &&& usable(ranges[i], rate)
    &&& forall|j: int|
        0 <= j < ranges.len() && usable(#[trigger] ranges[j], rate) ==> !better(
            ranges[j],
            ranges[i],
        )
    &&& forall|j: int|
        0 <= j < i && usable(#[trigger] ranges[j], rate) ==> better(ranges[i], ranges[j])
}

/// Where the best range that has a rate stands, if there is one.
pub open spec fn best_index(ranges: Seq<StreamRange>, rate: u32) -> Option<int> {
    if exists|i: int| best_at(ranges, rate, i) {
        Some(choose|i: int| best_at(ranges, rate, i))
    } else {
        None
    }
}

/// There is a best range wherever there is a usable one.
pub proof fn some_range_is_best(ranges: Seq<StreamRange>, rate: u32, k: int)
    requires
        0 <= k < ranges.len(),
        usable(ranges[k], rate),
    ensures
        best_index(ranges, rate) is Some,
    decreases rank_of(ranges[k].format), from_stereo(ranges[k]), k,
{
    if !best_at(ranges, rate, k) {
        if exists|j: int|
            0 <= j < ranges.len() && usable(#[trigger] ranges[j], rate) && better(
                ranges[j],
                ranges[k],
            ) {
            let j = choose|j: int|
                0 <= j < ranges.len() && usable(#[trigger] ranges[j], rate) && better(
                    ranges[j],
                    ranges[k],
                );
            some_range_is_best(ranges, rate, j);
        } else {
            let j = choose|j: int|
                0 <= j < k && usable(#[trigger] ranges[j], rate) && !better(ranges[k], ranges[j]);
            some_range_is_best(ranges, rate, j);
        }
    }
}

/// The best range that has a rate: the first of those that no other is better than.
pub fn best_range(ranges: &Vec<StreamRange>, rate: u32) -> (r: Option<usize>)
    ensures
        match r {
            Some(i) => best_at(ranges@, rate, i as int) && best_index(ranges@, rate) == Some(
                i as int,
            ),
            None => best_index(ranges@, rate) is None,
        },
{
    let mut best: Option<usize> = None;
    let mut k: usize = 0;
    while k < ranges.len()
        invariant
            k <= ranges@.len(),
            match best {
                Some(i) => {
                    &&& i < k
                    &&& usable(ranges@[i as int], rate)
                    &&& forall|j: int|
                        0 <= j < k && usable(#[trigger] ranges@[j], rate) ==> !better(
                            ranges@[j],
                            ranges@[i as int],
                        )
                    &&& forall|j: int|
                        0 <= j < i && usable(#[trigger] ranges@[j], rate) ==> better(
                            ranges@[i as int],
                            ranges@[j],
                        )
                },
                None => forall|j: int| 0 <= j < k ==> !usable(#[trigger] ranges@[j], rate),
            },
        decreases ranges@.len() - k,
    {
        let c = &ranges[k];
        if c.min_rate <= rate && c.max_rate >= rate && fmt_rank(c.format) < 99 {
            best = match best {
                None => Some(k),
                Some(i) => if is_better(c, &ranges[i]) {
                    Some(k)
                } else {
                    Some(i)
                },
            };
        }
        k += 1;
    }
    proof {
        match best {
            Some(i) => {
                assert(best_at(ranges@, rate, i as int));
                let b = choose|b: int| best_at(ranges@, rate, b);
                assert(usable(ranges@[b], rate) && usable(ranges@[i as int], rate));
            },
            None => {},
        }
    }
    best
}

/// Names that may be missing, as text.
pub open spec fn name_texts(names: Seq<Option<String>>) -> Seq<Option<Seq<char>>> {
    names.map_values(|s: Option<String>| maybe(s))
}

/// The first of some names that is `wanted`, where a name may be unknown.
pub open spec fn device_at(names: Seq<Option<Seq<char>>>, wanted: Seq<char>, i: int) -> bool {
    &&& 0 <= i < names.len()
    &&& names[i] == Some(wanted)
    &&& forall|j: int| 0 <= j < i ==> #[trigger] names[j] != Some(wanted)
}

/// Where a device of that name stands, if there is one.
pub open spec fn device_index(names: Seq<Option<Seq<char>>>, wanted: Seq<char>) -> Option<int> {
    if exists|i: int| device_at(names, wanted, i) {
        Some(choose|i: int| device_at(names, wanted, i))
    } else {
        None
    }
}

/// Finds a device by its name.
pub fn find_device(names: &Vec<Option<String>>, wanted: &str) -> (r: Option<usize>)
    ensures
        match r {
            Some(i) => device_at(name_texts(names@), wanted@, i as int) && device_index(
                name_texts(names@),
                wanted@,
            ) == Some(i as int),
            None => device_index(name_texts(names@), wanted@) is None,
        },
{
    let ghost all = name_texts(names@);
    let mut i: usize = 0;
    while i < names.len()
        invariant
            i <= names@.len(),
            all == name_texts(names@),
            forall|j: int| 0 <= j < i ==> #[trigger] all[j] != Some(wanted@),
        decreases names@.len() - i,
    {
        assert(all[i as int] == maybe(names@[i as int]));
        match &names[i] {
            Some(s) => {
                if text::same(s.as_str(), wanted) {
                    proof {
                        assert(device_at(all, wanted@, i as int));
                        let k = choose|k: int| device_at(all, wanted@, k);
                        assert(all[k] == Some(wanted@));
                    }
                    return Some(i);
                }
            },
            None => {},
        }
        i += 1;
    }
    None
}

/// A name that is `wanted` but for the case of its letters.
pub open spec fn is_host(name: Option<Seq<char>>, wanted: Seq<char>) -> bool {
    match name {
        Some(s) => text::same_but_case(s, wanted),
        None => false,
    }
}

/// The first of some names that is `wanted` but for the case of its letters.
pub open spec fn host_at(names: Seq<Option<Seq<char>>>, wanted: Seq<char>, i: int) -> bool {
    &&& 0 <= i < names.len()
    &&& is_host(names[i], wanted)
    &&& forall|j: int| 0 <= j < i ==> !is_host(#[trigger] names[j], wanted)
}

/// Where a host of that name stands, if there is one.
pub open spec fn host_index(names: Seq<Option<Seq<char>>>, wanted: Seq<char>) -> Option<int> {
    if exists|i: int| host_at(names, wanted, i) {
        Some(choose|i: int| host_at(names, wanted, i))
    } else {
        None
    }
}

/// Finds a host by its name; the case of letters does not matter.
pub fn find_host(names: &Vec<Option<String>>, wanted: &str) -> (r: Option<usize>)
    ensures
        match r {
            Some(i) => host_at(name_texts(names@), wanted@, i as int) && host_index(
                name_texts(names@),
                wanted@,
            ) == Some(i as int),
            None => host_index(name_texts(names@), wanted@) is None,
        },
{
    let ghost all = name_texts(names@);
    let mut i: usize = 0;
    while i < names.len()
        invariant
            i <= names@.len(),
            all == name_texts(names@),
            forall|j: int| 0 <= j < i ==> !is_host(#[trigger] all[j], wanted@),
        decreases names@.len() - i,
    {
        assert(all[i as int] == maybe(names@[i as int]));
        match &names[i] {
            Some(s) => {
                if text::equal_ignoring_case(s.as_str(), wanted) {
                    proof {
                        assert(host_at(all, wanted@, i as int));
                        let k = choose|k: int| host_at(all, wanted@, k);
                        assert(is_host(all[k], wanted@));
                    }
                    return Some(i);
                }
            },
            None => {},
        }
        i += 1;
    }
    None
}

/// The names that are known, in their order.
pub open spec fn known_names(names: Seq<Option<Seq<char>>>) -> Seq<Seq<char>>
    decreases names.len(),
{
    if names.len() == 0 {
        Seq::empty()
    } else {
        match names.last() {
            Some(n) => known_names(names.drop_last()).push(n),
            None => known_names(names.drop_last()),
        }
    }
}

/// Some texts.
pub open spec fn texts(s: Seq<String>) -> Seq<Seq<char>> {
    s.map_values(|t: String| t@)
}

/// A list of devices that may not be had, as text: nothing, where it is not.
pub open spec fn listed(names: Option<Vec<Option<String>>>) -> Seq<Seq<char>> {
    match names {
        Some(v) => known_names(name_texts(v@)),
        None => Seq::empty(),
    }
}

fn known(names: &Option<Vec<Option<String>>>) -> (r: Vec<String>)
    ensures
        texts(r@) == listed(*names),
{
    let mut r: Vec<String> = Vec::new();
    assert(texts(r@) =~= Seq::empty());
    match names {
        Some(v) => {
            let ghost all = name_texts(v@);
            let mut i: usize = 0;
            assert(all.take(0) =~= Seq::empty());
            while i < v.len()
                invariant
                    i <= v@.len(),
                    all == name_texts(v@),
                    texts(r@) == known_names(all.take(i as int)),
                decreases v@.len() - i,
            {
                let ghost had = r@;
                proof {
                    assert(all.take(i + 1).drop_last() =~= all.take(i as int));
                    assert(all.take(i + 1).last() == maybe(v@[i as int]));
                }
                match &v[i] {
                    Some(n) => {
                        r.push(n.clone());
                        assert(texts(r@) =~= texts(had).push(n@));
                    },
                    None => {},
                }
                i += 1;
            }
            assert(all.take(v@.len() as int) =~= all);
        },
        None => {},
    }
    r
}

impl HostDevices {
    /// What there is to say of a host: its devices as far as they have names, and none where
    /// the list cannot be had.
    pub fn describe(
        host: String,
        inputs: &Option<Vec<Option<String>>>,
        outputs: &Option<Vec<Option<String>>>,
        default_input: Option<String>,
        default_output: Option<String>,
    ) -> (r: Self)
        ensures
            r.host == host,
            texts(r.inputs@) == listed(*inputs),
            texts(r.outputs@) == listed(*outputs),
            r.default_input == default_input,
            r.default_output == default_output,
    {
        HostDevices {
            host,
            inputs: known(inputs),
            outputs: known(outputs),
            default_input,
            default_output,
        }
    }
}

// ---------------------------------------------------------------- laws

/// The best range has the rate, in a format that can be used, and against every other such range
/// it holds its own: floats are preferred to whole numbers, longer whole numbers to shorter ones,
/// and signed ones to unsigned ones; in one format it is the nearest to two channels, and of those
/// that are equally near the first.
pub proof fn best_range_is_nearest_to_stereo(
    ranges: Seq<StreamRange>,
    rate: u32,
    i: int,
    j: int,
)
    requires
        best_at(ranges, rate, i),
        0 <= j < ranges.len(),
        ranges[j].min_rate <= rate <= ranges[j].max_rate,
        ranges[j].format != SampleFormat::Other,
    ensures
        ({
            let best = ranges[i];
            let other = ranges[j];
            let a = best.channels - 2;
            let b = other.channels - 2;
            &&& best.min_rate <= rate <= best.max_rate
            &&& best.format != SampleFormat::Other
            &&& other.format == SampleFormat::F32 ==> best.format == SampleFormat::F32
            &&& other.format == SampleFormat::I32 ==> best.format == SampleFormat::F32
                || best.format == SampleFormat::I32
            &&& other.format == SampleFormat::I16 ==> best.format != SampleFormat::U16
            &&& other.format == best.format ==> -b <= a <= b || b <= a <= -b
            &&& other.format == best.format && j < i ==> -b < a < b || b < a < -b
            &&& other.format == best.format && other.channels == 2 ==> best.channels == 2
        }),
{
    assert(usable(ranges[j], rate));
}

/// There is a best range just where some range has the rate in a format that can be used, and
/// there is only one.
pub proof fn best_range_is_found(ranges: Seq<StreamRange>, rate: u32)
    ensures
        match best_index(ranges, rate) {
            Some(i) => {
                &&& best_at(ranges, rate, i)
                &&& forall|k: int| #[trigger] best_at(ranges, rate, k) ==> k == i
            },
            None => forall|j: int|
                0 <= j < ranges.len() && (#[trigger] ranges[j]).min_rate <= rate
                    <= ranges[j].max_rate ==> ranges[j].format == SampleFormat::Other,
        },
{
    match best_index(ranges, rate) {
        Some(i) => {
            assert forall|k: int| #[trigger] best_at(ranges, rate, k) implies k == i by {
                assert(usable(ranges[k], rate) && usable(ranges[i], rate));
            }
        },
        None => {
            assert forall|j: int|
                0 <= j < ranges.len() && (#[trigger] ranges[j]).min_rate <= rate
                    <= ranges[j].max_rate implies ranges[j].format == SampleFormat::Other by {
                if ranges[j].format != SampleFormat::Other {
                    some_range_is_best(ranges, rate, j);
                }
            }
        },
    }
}

proof fn some_device_is_first(names: Seq<Option<Seq<char>>>, wanted: Seq<char>, k: int)
    requires
        0 <= k < names.len(),
        names[k] == Some(wanted),
    ensures
        exists|i: int| device_at(names, wanted, i),
    decreases k,
{
    if !device_at(names, wanted, k) {
        let j = choose|j: int| 0 <= j < k && #[trigger] names[j] == Some(wanted);
        some_device_is_first(names, wanted, j);
    }
}

/// A device is found by exactly its name, and of two with one name the first; none is found just
/// where none has that name.
pub proof fn device_is_found_by_its_name(names: Seq<Option<Seq<char>>>, wanted: Seq<char>)
    ensures
        match device_index(names, wanted) {
            Some(i) => {
                &&& 0 <= i < names.len()
                &&& names[i] == Some(wanted)
                &&& !names.take(i).contains(Some(wanted))
            },
            None => !names.contains(Some(wanted)),
        },
{
    if names.contains(Some(wanted)) {
        let k = choose|k: int| 0 <= k < names.len() && names[k] == Some(wanted);
        some_device_is_first(names, wanted, k);
    }
}

proof fn some_host_is_first(names: Seq<Option<Seq<char>>>, wanted: Seq<char>, k: int)
    requires
        0 <= k < names.len(),
        is_host(names[k], wanted),
    ensures
        exists|i: int| host_at(names, wanted, i),
    decreases k,
{
    if !host_at(names, wanted, k) {
        let j = choose|j: int| 0 <= j < k && is_host(#[trigger] names[j], wanted);
        some_host_is_first(names, wanted, j);
    }
}

/// A host is found by its name, whatever the case of the letters, and of two the first; none is
/// found just where none has that name.
pub proof fn host_is_found_by_its_name(
    names: Seq<Option<Seq<char>>>,
    wanted: Seq<char>,
    name: Seq<char>,
)
    requires
        text::same_but_case(name, wanted),
    ensures
        match host_index(names, wanted) {
            Some(i) => {
                &&& 0 <= i < names.len()
                &&& names[i] is Some
                &&& text::same_but_case(names[i]->0, wanted)
                &&& !names.take(i).contains(Some(name))
            },
            None => !names.contains(Some(name)),
        },
{
    if names.contains(Some(name)) {
        let k = choose|k: int| 0 <= k < names.len() && names[k] == Some(name);
        some_host_is_first(names, wanted, k);
    }
    match host_index(names, wanted) {
        Some(i) => {
            if names.take(i).contains(Some(name)) {
                let k = choose|k: int| 0 <= k < i && names.take(i)[k] == Some(name);
                assert(is_host(names[k], wanted));
            }
        },
        None => {},
    }
}

/// Devices are listed in their order, and those without a name are left out.
pub proof fn named_devices_are_listed(names: Seq<Option<Seq<char>>>, name: Seq<char>)
    ensures
        known_names(Seq::empty()) == Seq::<Seq<char>>::empty(),
        known_names(names.push(Some(name))) == known_names(names).push(name),
        known_names(names.push(None)) == known_names(names),
{
    assert(names.push(Some(name)).drop_last() =~= names);
    assert(names.push(None).drop_last() =~= names);
}

/// A load from 0 to 1 is shown as it is, one above as 1 and one below as 0.
pub proof fn load_is_shown_in_range(load: u32)
    requires
        !sample::nan(load),
    ensures
        0 <= sample::value(load) <= sample::unit() ==> shown_load(load) == load,
        sample::value(load) > sample::unit() ==> shown_load(load) == sample::ONE,
        sample::value(load) < 0 ==> shown_load(load) == sample::ZERO,
{
    sample::one_is_the_unit();
    sample::magnitude_orders_values(0, 0);
    vstd::arithmetic::power2::lemma_pow2_pos(149);
}

/// What is said of running audio leaves nothing out.
pub proof fn info_tells_everything(info: RunningInfo)
    ensures
        info@.host == info.host@,
        info@.input is Some <==> info.input is Some,
        info.input is Some ==> info@.input->0 == info.input->0@,
        info@.output == info.output@,
        info@.sample_rate == info.sample_rate,
        info@.buffer == info.buffer,
        info@.out_channels == info.out_channels,
        info@.in_channels == info.in_channels,
{
}

/// The devices of a host are listed as the system gives them, and none where it gives none.
pub proof fn hosts_list_what_there_is(names: Vec<Option<String>>, i: int)
    ensures
        listed(None) == Seq::<Seq<char>>::empty(),
        listed(Some(names)) == known_names(name_texts(names@)),
        name_texts(names@).len() == names@.len(),
        0 <= i < names@.len() ==> {
            &&& name_texts(names@)[i] is Some <==> names@[i] is Some
            &&& names@[i] is Some ==> name_texts(names@)[i]->0 == names@[i]->0@
        },
{
}

/// Whichever range is found to be the best has the rate, in a format that can be used, and of the
/// ranges in its format that have the rate none is nearer to two channels; where none is found,
/// none has the rate in such a format.
pub proof fn found_range_is_nearest_to_stereo(
    ranges: &Vec<StreamRange>,
    rate: u32,
    r: Option<usize>,
    j: int,
)
    requires
        call_ensures(best_range, (ranges, rate), r),
        0 <= j < ranges@.len(),
        ranges@[j].min_rate <= rate <= ranges@[j].max_rate,
        ranges@[j].format != SampleFormat::Other,
    ensures
        r is Some,
        ({
            let best = ranges@[r->0 as int];
            let other = ranges@[j];
            let a = best.channels - 2;
            let b = other.channels - 2;
            &&& best.min_rate <= rate <= best.max_rate
            &&& best.format != SampleFormat::Other
            &&& other.format == best.format ==> -b <= a <= b || b <= a <= -b
            &&& other.format == SampleFormat::F32 ==> best.format == SampleFormat::F32
        }),
{
    best_range_is_found(ranges@, rate);
    best_range_is_nearest_to_stereo(ranges@, rate, r->0 as int, j);
}

} // verus!
