//! Opening the streams, as a machine that asks one question after the other about hosts and
//! devices and makes something of each reply. Whoever runs it talks to the audio system.
use crate::audio::{best_range, copy_name, find_device, find_host, AudioConfig, RunningInfo, SampleFormat, StreamRange};
use crate::audio;
use crate::text;
use vstd::prelude::*;

verus! {

/// How a stream is to be built.
#[derive(Debug, Clone, Copy)]
pub struct Settings {
    pub format: SampleFormat,
    pub channels: u16,
    pub rate: u32,
    /// The buffer size in frames, or else that of the driver.
    pub buffer: Option<u32>,
}

/// A question to the audio system, or something that it is to do.
#[derive(Debug, Clone, Copy)]
pub enum Ask {
    /// What are the hosts called?
    ListHosts,
    /// Open the host that stands there in the list, or the default one.
    OpenHost { at: Option<usize> },
    /// What are the output devices of the host called?
    ListOutputs,
    /// Take the output device that stands there in the list, or the default one.
    TakeOutput { at: Option<usize> },
    /// What is the default configuration of the output device?
    OutputDefault,
    /// What configurations does the output device support?
    OutputRanges,
    /// What are the input devices of the host called?
    ListInputs,
    /// Take the input device that stands there in the list, or the default one.
    TakeInput { at: Option<usize> },
    /// What configurations does the input device support?
    InputRanges,
    /// Build the stream from the input device.
    BuildInput { settings: Settings },
    /// Build the stream to the output device, fed by an input stream or not.
    BuildOutput { settings: Settings, with_input: bool },
    /// Set the input stream going.
    PlayInput,
    /// Set the output stream going.
    PlayOutput,
}

/// What comes back.
pub enum Reply {
    /// It went wrong.
    Failed,
    /// It is done.
    Done,
    /// There is no such device.
    Absent,
    /// It is open, and this is its name, if it has one.
    Named { name: Option<String> },
    /// The names, as far as they are known.
    Names { names: Vec<Option<String>> },
    /// The default configuration. `label` is what the system calls the format.
    Config { rate: u32, format: SampleFormat, channels: u16, label: String },
    /// The supported configurations.
    Ranges { ranges: Vec<StreamRange> },
}

/// How it goes on.
pub enum Outcome {
    /// With another question.
    Asking { ask: Ask },
    /// It is done, and this is running.
    Finished { info: RunningInfo },
    /// Not at all, for a reason of ours.
    Refused { reason: String },
    /// Not at all, since something went wrong; this is what it was about.
    Failed { context: Option<&'static str> },
}

/// What a reply says.
pub ghost enum ReplyView {
    Failed,
    Done,
    Absent,
    Named { name: Option<Seq<char>> },
    Names { names: Seq<Option<Seq<char>>> },
    Config { rate: u32, format: SampleFormat, channels: u16, label: Seq<char> },
    Ranges { ranges: Seq<StreamRange> },
}

impl View for Reply {
    type V = ReplyView;

    open spec fn view(&self) -> ReplyView {
        match self {
            Reply::Failed => ReplyView::Failed,
            Reply::Done => ReplyView::Done,
            Reply::Absent => ReplyView::Absent,
            Reply::Named { name } => ReplyView::Named { name: audio::maybe(*name) },
            Reply::Names { names } => ReplyView::Names { names: audio::name_texts(names@) },
            Reply::Config { rate, format, channels, label } => ReplyView::Config {
                rate: *rate,
                format: *format,
                channels: *channels,
                label: label@,
            },
            Reply::Ranges { ranges } => ReplyView::Ranges { ranges: ranges@ },
        }
    }
}

/// What an outcome says.
pub ghost enum OutcomeView {
    Asking { ask: Ask },
    Finished { info: audio::InfoView },
    Refused { reason: Seq<char> },
    Failed { context: Option<Seq<char>> },
}

impl View for Outcome {
    type V = OutcomeView;

    open spec fn view(&self) -> OutcomeView {
        match self {
            Outcome::Asking { ask } => OutcomeView::Asking { ask: *ask },
            Outcome::Finished { info } => OutcomeView::Finished { info: info@ },
            Outcome::Refused { reason } => OutcomeView::Refused { reason: reason@ },
            Outcome::Failed { context } => OutcomeView::Failed {
                context: match context {
                    Some(c) => Some(c@),
                    None => None,
                },
            },
        }
    }
}

/// The opening of streams: what is wanted, what has been learnt, and what was asked last.
pub struct Opening {
    cfg: AudioConfig,
    host: String,
    output: String,
    rate: u32,
    format: SampleFormat,
    channels: u16,
    label: String,
    input: Option<String>,
    in_channels: u16,
    has_input: bool,
    asked: Ask,
}

/// What an opening holds.
pub ghost struct Setup {
    pub want_host: Option<Seq<char>>,
    pub want_input: Option<Seq<char>>,
    pub want_output: Option<Seq<char>>,
    pub buffer: Option<u32>,
    pub no_input: bool,
    pub host: Seq<char>,
    pub output: Seq<char>,
    pub rate: u32,
    pub format: SampleFormat,
    pub channels: u16,
    pub label: Seq<char>,
    pub input: Option<Seq<char>>,
    pub in_channels: u16,
    pub has_input: bool,
    pub asked: Ask,
}

/// A name, or no text where it is missing.
pub open spec fn or_nothing(name: Option<Seq<char>>) -> Seq<char> {
    match name {
        Some(s) => s,
        None => ""@,
    }
}

/// It goes on with a question.
pub open spec fn asking(s: Setup, ask: Ask) -> (Setup, OutcomeView) {
    (Setup { asked: ask, ..s }, OutcomeView::Asking { ask })
}

/// It does not go on.
pub open spec fn refused(s: Setup, reason: Seq<char>) -> (Setup, OutcomeView) {
    (s, OutcomeView::Refused { reason })
}

/// Something went wrong.
pub open spec fn failed(s: Setup, context: Option<Seq<char>>) -> (Setup, OutcomeView) {
    (s, OutcomeView::Failed { context })
}

/// With the host open, the output device is next.
pub open spec fn to_output(s: Setup) -> (Setup, OutcomeView) {
    match s.want_output {
        Some(n) => asking(s, Ask::ListOutputs),
        None => asking(s, Ask::TakeOutput { at: None }),
    }
}

/// With the output device known, the input device is next, unless none is wanted.
pub open spec fn to_input(s: Setup) -> (Setup, OutcomeView) {
    if s.no_input {
        to_output_stream(s)
    } else {
        match s.want_input {
            Some(n) => asking(s, Ask::ListInputs),
            None => asking(s, Ask::TakeInput { at: None }),
        }
    }
}

/// With the input settled, the output stream is next, if its format can be used.
pub open spec fn to_output_stream(s: Setup) -> (Setup, OutcomeView) {
    if s.format == SampleFormat::Other {
        refused(s, "unsupported output sample format "@ + s.label)
    } else {
        asking(
            s,
            Ask::BuildOutput {
                settings: Settings {
                    format: s.format,
                    channels: s.channels,
                    rate: s.rate,
                    buffer: s.buffer,
                },
                with_input: s.has_input,
            },
        )
    }
}

/// What is running.
pub open spec fn running(s: Setup) -> audio::InfoView {
    audio::InfoView {
        host: s.host,
        input: s.input,
        output: s.output,
        sample_rate: s.rate,
        buffer: s.buffer,
        out_channels: s.channels,
        in_channels: s.in_channels,
    }
}

/// What a reply makes of an opening. A reply that does not fit what was asked means that
/// something went wrong.
pub open spec fn answered(s: Setup, reply: ReplyView) -> (Setup, OutcomeView) {
    match (s.asked, reply) {
        (Ask::ListHosts, ReplyView::Names { names }) => {
            let wanted = or_nothing(s.want_host);
            match audio::host_index(names, wanted) {
                Some(i) => asking(s, Ask::OpenHost { at: Some(i as usize) }),
                None => refused(s, "audio host '"@ + wanted + "' not available"@),
            }
        },
        (Ask::OpenHost { at }, ReplyView::Named { name }) => to_output(
            Setup { host: or_nothing(name), ..s },
        ),
        (Ask::ListOutputs, ReplyView::Names { names }) => {
            let wanted = or_nothing(s.want_output);
            match audio::device_index(names, wanted) {
                Some(i) => asking(s, Ask::TakeOutput { at: Some(i as usize) }),
                None => refused(s, "output device '"@ + wanted + "' not found"@),
            }
        },
        (Ask::TakeOutput { at }, ReplyView::Named { name }) => asking(
            Setup { output: or_nothing(name), ..s },
            Ask::OutputDefault,
        ),
        (Ask::TakeOutput { at }, ReplyView::Absent) => refused(s, "no default output device"@),
        (Ask::OutputDefault, ReplyView::Config { rate, format, channels, label }) => asking(
            Setup { rate, format, channels, label, ..s },
            Ask::OutputRanges,
        ),
        (Ask::OutputDefault, ReplyView::Failed) => failed(s, Some("output config"@)),
        (Ask::OutputRanges, ReplyView::Ranges { ranges }) => match audio::best_index(
            ranges,
            s.rate,
        ) {
            Some(i) => to_input(
                Setup { format: ranges[i].format, channels: ranges[i].channels, ..s },
            ),
            None => to_input(s),
        },
        (Ask::OutputRanges, ReplyView::Failed) => to_input(s),
        (Ask::ListInputs, ReplyView::Names { names }) => {
            let wanted = or_nothing(s.want_input);
            match audio::device_index(names, wanted) {
                Some(i) => asking(s, Ask::TakeInput { at: Some(i as usize) }),
                None => refused(s, "input device '"@ + wanted + "' not found"@),
            }
        },
        (Ask::TakeInput { at }, ReplyView::Absent) => to_output_stream(s),
        (Ask::TakeInput { at }, ReplyView::Named { name }) => asking(
            Setup { input: name, ..s },
            Ask::InputRanges,
        ),
        (Ask::InputRanges, ReplyView::Ranges { ranges }) => match audio::best_index(
            ranges,
            s.rate,
        ) {
            Some(i) => asking(
                Setup { in_channels: ranges[i].channels, ..s },
                Ask::BuildInput {
                    settings: Settings {
                        format: ranges[i].format,
                        channels: ranges[i].channels,
                        rate: s.rate,
                        buffer: s.buffer,
                    },
                },
            ),
            None => refused(
                s,
                "input device does not support "@ + text::decimal(s.rate as nat)
                    + " Hz (output rate)"@,
            ),
        },
        (Ask::BuildInput { settings }, ReplyView::Done) => to_output_stream(
            Setup { has_input: true, ..s },
        ),
        (Ask::BuildOutput { settings, with_input }, ReplyView::Done) => if s.has_input {
            asking(s, Ask::PlayInput)
        } else {
            asking(s, Ask::PlayOutput)
        },
        (Ask::PlayInput, ReplyView::Done) => asking(s, Ask::PlayOutput),
        (Ask::PlayOutput, ReplyView::Done) => (s, OutcomeView::Finished { info: running(s) }),
        _ => failed(s, None),
    }
}

/// An opening that has just begun: with the host that is wanted, or else the default one.
pub open spec fn begun(s: Setup) -> bool {
    &&& !s.has_input
    &&& s.input is None
    &&& s.in_channels == 0
    &&& s.asked == match s.want_host {
        Some(n) => Ask::ListHosts,
        None => Ask::OpenHost { at: None },
    }
}

fn quoted(before: &str, name: &Option<String>, behind: &str) -> (r: String)
    ensures
        r@ == before@ + or_nothing(audio::maybe(*name)) + behind@,
{
    match name {
        Some(n) => text::joined(text::joined(before, n.as_str()).as_str(), behind),
        None => text::joined(text::joined(before, "").as_str(), behind),
    }
}

fn text_or_nothing(name: Option<String>) -> (r: String)
    ensures
        r@ == or_nothing(audio::maybe(name)),
{
    match name {
        Some(n) => n,
        None => "".to_owned(),
    }
}

/// The name as it is, or no text.
fn plain(name: &Option<String>) -> (r: &str)
    ensures
        r@ == or_nothing(audio::maybe(*name)),
{
    match name {
        Some(n) => n.as_str(),
        None => "",
    }
}

impl Opening {
    /// What this opening holds.
    pub closed spec fn setup(&self) -> Setup {
        Setup {
            want_host: audio::maybe(self.cfg.host),
            want_input: audio::maybe(self.cfg.input),
            want_output: audio::maybe(self.cfg.output),
            buffer: self.cfg.buffer,
            no_input: self.cfg.no_input,
            host: self.host@,
            output: self.output@,
            rate: self.rate,
            format: self.format,
            channels: self.channels,
            label: self.label@,
            input: audio::maybe(self.input),
            in_channels: self.in_channels,
            has_input: self.has_input,
            asked: self.asked,
        }
    }

    /// Begins to open what is wanted.
    pub fn begin(cfg: &AudioConfig) -> (r: (Opening, Ask))
        ensures
            begun(r.0.setup()),
            r.0.setup().asked == r.1,
            r.0.setup().want_host == audio::maybe(cfg.host),
            r.0.setup().want_input == audio::maybe(cfg.input),
            r.0.setup().want_output == audio::maybe(cfg.output),
            r.0.setup().buffer == cfg.buffer,
            r.0.setup().no_input == cfg.no_input,
    {
        let asked = match &cfg.host {
            Some(_) => Ask::ListHosts,
            None => Ask::OpenHost { at: None },
        };
        let o = Opening {
            cfg: AudioConfig {
                host: copy_name(&cfg.host),
                input: copy_name(&cfg.input),
                output: copy_name(&cfg.output),
                buffer: cfg.buffer,
                no_input: cfg.no_input,
            },
            host: "".to_owned(),
            output: "".to_owned(),
            rate: 0,
            format: SampleFormat::Other,
            channels: 0,
            label: "".to_owned(),
            input: None,
            in_channels: 0,
            has_input: false,
            asked,
        };
        (o, asked)
    }

    fn ask(&mut self, ask: Ask) -> (r: Outcome)
        ensures
            (final(self).setup(), r@) == asking(old(self).setup(), ask),
    {
        self.asked = ask;
        Outcome::Asking { ask }
    }

    fn go_to_output_stream(&mut self) -> (r: Outcome)
        ensures
            (final(self).setup(), r@) == to_output_stream(old(self).setup()),
    {
        if self.format == SampleFormat::Other {
            return Outcome::Refused {
                reason: text::joined("unsupported output sample format ", self.label.as_str()),
            };
        }
        let settings = Settings {
            format: self.format,
            channels: self.channels,
            rate: self.rate,
            buffer: self.cfg.buffer,
        };
        self.ask(Ask::BuildOutput { settings, with_input: self.has_input })
    }

    fn go_to_input(&mut self) -> (r: Outcome)
        ensures
            (final(self).setup(), r@) == to_input(old(self).setup()),
    {
        if self.cfg.no_input {
            return self.go_to_output_stream();
        }
        if self.cfg.input.is_some() {
            self.ask(Ask::ListInputs)
        } else {
            self.ask(Ask::TakeInput { at: None })
        }
    }

    /// Makes of a reply what there is to make of it.
    pub fn reply(&mut self, reply: Reply) -> (r: Outcome)
        ensures
            (final(self).setup(), r@) == answered(old(self).setup(), reply@),
    {
        match (self.asked, reply) {
            (Ask::ListHosts, Reply::Names { names }) => match find_host(
                &names,
                plain(&self.cfg.host),
            ) {
                Some(i) => self.ask(Ask::OpenHost { at: Some(i) }),
                None => Outcome::Refused {
                    reason: quoted("audio host '", &self.cfg.host, "' not available"),
                },
            },
            (Ask::OpenHost { at: _ }, Reply::Named { name }) => {
                self.host = text_or_nothing(name);
                if self.cfg.output.is_some() {
                    self.ask(Ask::ListOutputs)
                } else {
                    self.ask(Ask::TakeOutput { at: None })
                }
            },
            (Ask::ListOutputs, Reply::Names { names }) => match find_device(
                &names,
                plain(&self.cfg.output),
            ) {
                Some(i) => self.ask(Ask::TakeOutput { at: Some(i) }),
                None => Outcome::Refused {
                    reason: quoted("output device '", &self.cfg.output, "' not found"),
                },
            },
            (Ask::TakeOutput { at: _ }, Reply::Named { name }) => {
                self.output = text_or_nothing(name);
                self.ask(Ask::OutputDefault)
            },
            (Ask::TakeOutput { at: _ }, Reply::Absent) => Outcome::Refused {
                reason: "no default output device".to_owned(),
            },
            (Ask::OutputDefault, Reply::Config { rate, format, channels, label }) => {
                self.rate = rate;
                self.format = format;
                self.channels = channels;
                self.label = label;
                self.ask(Ask::OutputRanges)
            },
            (Ask::OutputDefault, Reply::Failed) => Outcome::Failed {
                context: Some("output config"),
            },
            (Ask::OutputRanges, Reply::Ranges { ranges }) => {
                // Prefer the best sample format at the device's default rate.
                match best_range(&ranges, self.rate) {
                    Some(i) => {
                        self.format = ranges[i].format;
                        self.channels = ranges[i].channels;
                    },
                    None => {},
                }
                self.go_to_input()
            },
            (Ask::OutputRanges, Reply::Failed) => self.go_to_input(),
            (Ask::ListInputs, Reply::Names { names }) => match find_device(
                &names,
                plain(&self.cfg.input),
            ) {
                Some(i) => self.ask(Ask::TakeInput { at: Some(i) }),
                None => Outcome::Refused {
                    reason: quoted("input device '", &self.cfg.input, "' not found"),
                },
            },
            (Ask::TakeInput { at: _ }, Reply::Absent) => self.go_to_output_stream(),
            (Ask::TakeInput { at: _ }, Reply::Named { name }) => {
                self.input = name;
                self.ask(Ask::InputRanges)
            },
            (Ask::InputRanges, Reply::Ranges { ranges }) => match best_range(&ranges, self.rate) {
                Some(i) => {
                    let settings = Settings {
                        format: ranges[i].format,
                        channels: ranges[i].channels,
                        rate: self.rate,
                        buffer: self.cfg.buffer,
                    };
                    self.in_channels = settings.channels;
                    self.ask(Ask::BuildInput { settings })
                },
                None => Outcome::Refused {
                    reason: text::joined(
                        text::numbered("input device does not support ", self.rate).as_str(),
                        " Hz (output rate)",
                    ),
                },
            },
            (Ask::BuildInput { settings: _ }, Reply::Done) => {
                self.has_input = true;
                self.go_to_output_stream()
            },
            (Ask::BuildOutput { settings: _, with_input: _ }, Reply::Done) => if self.has_input {
                self.ask(Ask::PlayInput)
            } else {
                self.ask(Ask::PlayOutput)
            },
            (Ask::PlayInput, Reply::Done) => self.ask(Ask::PlayOutput),
            (Ask::PlayOutput, Reply::Done) => Outcome::Finished {
                info: RunningInfo {
                    host: self.host.clone(),
                    input: copy_name(&self.input),
                    output: self.output.clone(),
                    sample_rate: self.rate,
                    buffer: self.cfg.buffer,
                    out_channels: self.channels,
                    in_channels: self.in_channels,
                },
            },
            _ => Outcome::Failed { context: None },
        }
    }
}

// ---------------------------------------------------------------- laws

/// How far an opening has come.
pub open spec fn depth(ask: Ask) -> int {
    match ask {
        Ask::ListHosts => 0,
        Ask::OpenHost { at } => 1,
        Ask::ListOutputs => 2,
        Ask::TakeOutput { at } => 3,
        Ask::OutputDefault => 4,
        Ask::OutputRanges => 5,
        Ask::ListInputs => 6,
        Ask::TakeInput { at } => 7,
        Ask::InputRanges => 8,
        Ask::BuildInput { settings } => 9,
        Ask::BuildOutput { settings, with_input } => 10,
        Ask::PlayInput => 11,
        Ask::PlayOutput => 12,
    }
}

/// Every opening comes to an end: no question is asked twice, and there are thirteen.
pub proof fn opening_comes_to_an_end(s: Setup, reply: ReplyView)
    ensures
        0 <= depth(s.asked) <= 12,
        answered(s, reply).1 is Asking ==> {
            &&& answered(s, reply).0.asked == answered(s, reply).1->Asking_ask
            &&& depth(answered(s, reply).0.asked) > depth(s.asked)
        },
{
}

/// A format that streams can be built with.
pub open spec fn proper(settings: Settings) -> bool {
    audio::rank_of(settings.format) < 99
}

/// Both streams are built in a format that can be used, at one rate, that of the output
/// device, and with the buffer that was asked for.
pub proof fn streams_share_one_rate(s: Setup, reply: ReplyView)
    ensures
        match answered(s, reply).1 {
            OutcomeView::Asking { ask } => match ask {
                Ask::BuildInput { settings } => {
                    &&& proper(settings)
                    &&& settings.rate == s.rate
                    &&& settings.buffer == s.buffer
                },
                Ask::BuildOutput { settings, with_input } => {
                    &&& proper(settings)
                    &&& settings.rate == s.rate
                    &&& settings.buffer == s.buffer
                    &&& with_input == answered(s, reply).0.has_input
                },
                _ => true,
            },
            OutcomeView::Finished { info } => info.sample_rate == s.rate && info.buffer
                == s.buffer,
            _ => true,
        },
        depth(s.asked) >= 5 ==> answered(s, reply).0.rate == s.rate,
        answered(s, reply).0.buffer == s.buffer,
{
    match (s.asked, reply) {
        (Ask::InputRanges, ReplyView::Ranges { ranges }) => {
            if audio::best_index(ranges, s.rate) is Some {
                let i = choose|i: int| audio::best_at(ranges, s.rate, i);
                assert(audio::usable(ranges[i], s.rate));
            }
        },
        _ => {},
    }
}

/// A question about the input.
pub open spec fn about_input(ask: Ask) -> bool {
    6 <= depth(ask) <= 9 || ask is PlayInput
}

/// Where no input is wanted, none is asked about, built or set going.
pub proof fn unwanted_input_is_left_alone(s: Setup, reply: ReplyView)
    requires
        s.no_input,
        !s.has_input,
        !about_input(s.asked),
    ensures
        answered(s, reply).0.no_input,
        !answered(s, reply).0.has_input,
        !about_input(answered(s, reply).0.asked),
        answered(s, reply).0.input == s.input,
        answered(s, reply).0.in_channels == s.in_channels,
{
}

/// Success comes only in the end, when the output stream has been set going.
pub proof fn success_comes_last(s: Setup, reply: ReplyView)
    ensures
        answered(s, reply).1 is Finished <==> s.asked is PlayOutput && reply is Done,
        answered(s, reply).1 is Finished ==> answered(s, reply).1->info == running(s),
        answered(s, reply).0.asked is PlayOutput && !(s.asked is PlayOutput) ==> reply is Done && (
        s.asked is PlayInput || s.asked is BuildOutput && !s.has_input),
{
}

/// What is wanted stays as it was said in the beginning, and each reply teaches just what it was
/// asked for: the name of the host, of the output device or of the input device, the default
/// configuration, or that the input stream stands.
pub proof fn replies_teach_what_was_asked(s: Setup, reply: ReplyView)
    ensures
        ({
            let t = answered(s, reply).0;
            &&& t.want_host == s.want_host
            &&& t.want_input == s.want_input
            &&& t.want_output == s.want_output
            &&& t.buffer == s.buffer
            &&& t.no_input == s.no_input
            &&& reply matches ReplyView::Named { name } ==> (s.asked is OpenHost && name is Some
                ==> t.host == name->0)
            &&& reply == (ReplyView::Named { name: None }) && s.asked is OpenHost ==> t.host
                == ""@
            &&& !(reply is Named && s.asked is OpenHost) ==> t.host == s.host
            &&& reply matches ReplyView::Named { name } ==> (s.asked is TakeOutput && name is Some
                ==> t.output == name->0)
            &&& reply == (ReplyView::Named { name: None }) && s.asked is TakeOutput ==> t.output
                == ""@
            &&& !(reply is Named && s.asked is TakeOutput) ==> t.output == s.output
            &&& reply matches ReplyView::Named { name } ==> (s.asked is TakeInput ==> t.input
                == name)
            &&& !(reply is Named && s.asked is TakeInput) ==> t.input == s.input
            &&& reply matches ReplyView::Config { rate, format, channels, label } ==> (s.asked
                is OutputDefault ==> t.rate == rate && t.format == format && t.channels == channels
                && t.label == label)
            &&& !(reply is Config && s.asked is OutputDefault) ==> t.rate == s.rate && t.label
                == s.label
            &&& !(reply is Config && s.asked is OutputDefault) && !(reply is Ranges && s.asked
                is OutputRanges) ==> t.format == s.format && t.channels == s.channels
            &&& !(reply is Ranges && s.asked is InputRanges) ==> t.in_channels == s.in_channels
            &&& t.has_input == (s.has_input || s.asked is BuildInput && reply is Done)
        }),
{
}

/// The output stream is built as the best range at the default rate of the device says, or else
/// as its default configuration does.
pub proof fn output_takes_the_best_range(s: Setup, ranges: Seq<StreamRange>, i: int)
    requires
        s.asked is OutputRanges,
    ensures
        ({
            let t = answered(s, ReplyView::Ranges { ranges }).0;
            &&& audio::best_at(ranges, s.rate, i) ==> t.format == ranges[i].format && t.channels
                == ranges[i].channels
            &&& (forall|j: int| #![trigger ranges[j]]
                0 <= j < ranges.len() ==> !(ranges[j].min_rate <= s.rate <= ranges[j].max_rate)
                    || ranges[j].format == SampleFormat::Other) ==> t.format == s.format
                && t.channels == s.channels
        }),
        answered(s, ReplyView::Failed).0.format == s.format,
        answered(s, ReplyView::Failed).0.channels == s.channels,
{
    audio::best_range_is_found(ranges, s.rate);
    if audio::best_index(ranges, s.rate) is Some {
        let k = audio::best_index(ranges, s.rate)->0;
        assert(audio::usable(ranges[k], s.rate));
    }
    if audio::best_at(ranges, s.rate, i) {
        assert(audio::best_index(ranges, s.rate) is Some);
    }
}

/// The input stream is built as the best range at the rate of the output says; where no range
/// has that rate, the opening is refused, and it is said which rate that is.
pub proof fn input_takes_the_best_range(s: Setup, ranges: Seq<StreamRange>, i: int)
    requires
        s.asked is InputRanges,
    ensures
        ({
            let (t, o) = answered(s, ReplyView::Ranges { ranges });
            &&& audio::best_at(ranges, s.rate, i) ==> {
                &&& t.in_channels == ranges[i].channels
                &&& o == (OutcomeView::Asking {
                    ask: Ask::BuildInput {
                        settings: Settings {
                            format: ranges[i].format,
                            channels: ranges[i].channels,
                            rate: s.rate,
                            buffer: s.buffer,
                        },
                    },
                })
            }
            &&& (forall|j: int| #![trigger ranges[j]]
                0 <= j < ranges.len() ==> !(ranges[j].min_rate <= s.rate <= ranges[j].max_rate)
                    || ranges[j].format == SampleFormat::Other) ==> o == (OutcomeView::Refused {
                reason: "input device does not support "@ + text::decimal(s.rate as nat)
                    + " Hz (output rate)"@,
            })
        }),
{
    audio::best_range_is_found(ranges, s.rate);
    if audio::best_index(ranges, s.rate) is Some {
        let k = audio::best_index(ranges, s.rate)->0;
        assert(audio::usable(ranges[k], s.rate));
    }
    if audio::best_at(ranges, s.rate, i) {
        assert(audio::best_index(ranges, s.rate) is Some);
    }
}

/// A device that is wanted by name is the first of that name in the list; where none has it, the
/// opening is refused, and it is said which device was not found.
pub proof fn wanted_devices_are_taken(s: Setup, names: Seq<Option<Seq<char>>>, wanted: Seq<char>)
    requires
        s.asked is ListOutputs && s.want_output == Some(wanted) || s.asked is ListInputs
            && s.want_input == Some(wanted),
        names.len() <= usize::MAX,
    ensures
        ({
            let o = answered(s, ReplyView::Names { names }).1;
            if names.contains(Some(wanted)) {
                exists|i: usize|
                    {
                        &&& i < names.len()
                        &&& #[trigger] names[i as int] == Some(wanted)
                        &&& !names.take(i as int).contains(Some(wanted))
                        &&& s.asked is ListOutputs ==> o == (OutcomeView::Asking {
                            ask: Ask::TakeOutput { at: Some(i) },
                        })
                        &&& s.asked is ListInputs ==> o == (OutcomeView::Asking {
                            ask: Ask::TakeInput { at: Some(i) },
                        })
                    }
            } else {
                &&& s.asked is ListOutputs ==> o == (OutcomeView::Refused {
                    reason: "output device '"@ + wanted + "' not found"@,
                })
                &&& s.asked is ListInputs ==> o == (OutcomeView::Refused {
                    reason: "input device '"@ + wanted + "' not found"@,
                })
            }
        }),
{
    audio::device_is_found_by_its_name(names, wanted);
    match audio::device_index(names, wanted) {
        Some(i) => {
            let k = i as usize;
            assert(names[k as int] == Some(wanted));
            assert(names.contains(Some(wanted)));
        },
        None => {},
    }
}

/// A host that is wanted by name is the first in the list that has the name, whatever the case of
/// its letters; where none has it, the opening is refused, and it is said which host is not
/// available.
pub proof fn wanted_host_is_opened(
    s: Setup,
    names: Seq<Option<Seq<char>>>,
    wanted: Seq<char>,
    name: Seq<char>,
)
    requires
        s.asked is ListHosts,
        s.want_host == Some(wanted),
        names.len() <= usize::MAX,
        text::same_but_case(name, wanted),
    ensures
        ({
            let o = answered(s, ReplyView::Names { names }).1;
            &&& names.contains(Some(name)) ==> o is Asking
            &&& match o {
                OutcomeView::Asking { ask: Ask::OpenHost { at: Some(i) } } => {
                    &&& i < names.len()
                    &&& names[i as int] is Some
                    &&& text::same_but_case(names[i as int]->0, wanted)
                    &&& !names.take(i as int).contains(Some(name))
                },
                OutcomeView::Refused { reason } => reason == "audio host '"@ + wanted
                    + "' not available"@,
                _ => false,
            }
        }),
{
    audio::host_is_found_by_its_name(names, wanted, name);
}

/// One question leads to the next: from the host to the output device and its configuration,
/// from there to the input device and its stream, unless none is wanted or there is none, and
/// then to the output stream, which is refused only in a format that cannot be used.
pub proof fn questions_come_in_order(s: Setup, reply: ReplyView)
    ensures
        ({
            let (t, o) = answered(s, reply);
            let output_stream = if t.format == SampleFormat::Other {
                OutcomeView::Refused { reason: "unsupported output sample format "@ + t.label }
            } else {
                OutcomeView::Asking {
                    ask: Ask::BuildOutput {
                        settings: Settings {
                            format: t.format,
                            channels: t.channels,
                            rate: t.rate,
                            buffer: t.buffer,
                        },
                        with_input: t.has_input,
                    },
                }
            };
            match s.asked {
                Ask::ListHosts => true,
                Ask::OpenHost { at } => reply is Named ==> o == (OutcomeView::Asking {
                    ask: if s.want_output is Some {
                        Ask::ListOutputs
                    } else {
                        Ask::TakeOutput { at: None }
                    },
                }),
                Ask::ListOutputs => true,
                Ask::TakeOutput { at } => {
                    &&& reply is Named ==> o == (OutcomeView::Asking { ask: Ask::OutputDefault })
                    &&& reply is Absent ==> o == (OutcomeView::Refused {
                        reason: "no default output device"@,
                    })
                },
                Ask::OutputDefault => reply is Config ==> o == (OutcomeView::Asking {
                    ask: Ask::OutputRanges,
                }),
                Ask::OutputRanges => reply is Ranges || reply is Failed ==> o == if s.no_input {
                    output_stream
                } else if s.want_input is Some {
                    OutcomeView::Asking { ask: Ask::ListInputs }
                } else {
                    OutcomeView::Asking { ask: Ask::TakeInput { at: None } }
                },
                Ask::ListInputs => true,
                Ask::TakeInput { at } => {
                    &&& reply is Named ==> o == (OutcomeView::Asking { ask: Ask::InputRanges })
                    &&& reply is Absent ==> o == output_stream
                },
                Ask::InputRanges => true,
                Ask::BuildInput { settings } => reply is Done ==> o == output_stream,
                Ask::BuildOutput { settings, with_input } => reply is Done ==> o == (
                OutcomeView::Asking {
                    ask: if s.has_input {
                        Ask::PlayInput
                    } else {
                        Ask::PlayOutput
                    },
                }),
                Ask::PlayInput => reply is Done ==> o == (OutcomeView::Asking {
                    ask: Ask::PlayOutput,
                }),
                Ask::PlayOutput => reply is Done ==> o == (OutcomeView::Finished {
                    info: audio::InfoView {
                        host: s.host,
                        input: s.input,
                        output: s.output,
                        sample_rate: s.rate,
                        buffer: s.buffer,
                        out_channels: s.channels,
                        in_channels: s.in_channels,
                    },
                }),
            }
        }),
{
}

/// Whatever goes wrong ends the opening, and it is said what it was about where that is the
/// configuration of the output; only the list of its configurations can be done without.
pub proof fn failures_end_the_opening(s: Setup)
    ensures
        s.asked is OutputDefault ==> answered(s, ReplyView::Failed).1 == (OutcomeView::Failed {
            context: Some("output config"@),
        }),
        !(s.asked is OutputDefault) && !(s.asked is OutputRanges) ==> answered(
            s,
            ReplyView::Failed,
        ).1 == (OutcomeView::Failed { context: None }),
{
}

/// Replies and outcomes are taken as they are.
pub proof fn replies_are_taken_as_they_are(reply: Reply, outcome: Outcome)
    ensures
        match reply {
            Reply::Failed => reply@ is Failed,
            Reply::Done => reply@ is Done,
            Reply::Absent => reply@ is Absent,
            Reply::Named { name } => reply@ == (ReplyView::Named { name: audio::maybe(name) }),
            Reply::Names { names } => reply@ matches ReplyView::Names { names: v } && v.len()
                == names@.len() && forall|i: int|
                0 <= i < v.len() ==> #[trigger] v[i] == audio::maybe(names@[i]),
            Reply::Config { rate, format, channels, label } => reply@ == (ReplyView::Config {
                rate,
                format,
                channels,
                label: label@,
            }),
            Reply::Ranges { ranges } => reply@ == (ReplyView::Ranges { ranges: ranges@ }),
        },
        match outcome {
            Outcome::Asking { ask } => outcome@ == (OutcomeView::Asking { ask }),
            Outcome::Finished { info } => outcome@ == (OutcomeView::Finished { info: info@ }),
            Outcome::Refused { reason } => outcome@ == (OutcomeView::Refused { reason: reason@ }),
            Outcome::Failed { context } => outcome@ is Failed && (outcome@->context is Some
                <==> context is Some) && (context is Some ==> outcome@->context->0 == context->0@),
        },
{
}

/// An opening begins with the host: where one is wanted the hosts are listed, and else the
/// default one is opened. Nothing is known of an input yet.
pub proof fn openings_begin_with_the_host(s: Setup)
    requires
        begun(s),
    ensures
        s.want_host is Some ==> s.asked is ListHosts,
        s.want_host is None ==> s.asked == (Ask::OpenHost { at: None }),
        !s.has_input,
        s.input is None,
        s.in_channels == 0,
{
}

} // verus!
