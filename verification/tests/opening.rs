//! Streams opened against an audio system that answers as told.
use steroidsoundboard::audio::{
    best_range, find_device, find_host, fmt_rank, AudioConfig, HostDevices, SampleFormat, StreamRange,
};
use steroidsoundboard::opening::{Ask, Opening, Outcome, Reply, Settings};

fn range(format: SampleFormat, channels: u16) -> StreamRange {
    StreamRange { min_rate: 44100, max_rate: 96000, format, channels }
}

fn names(list: &[&str]) -> Reply {
    Reply::Names { names: list.iter().map(|s| Some(s.to_string())).collect() }
}

fn named(name: &str) -> Reply {
    Reply::Named { name: Some(name.to_string()) }
}

fn config(rate: u32, format: SampleFormat, label: &str) -> Reply {
    Reply::Config { rate, format, channels: 2, label: label.to_string() }
}

fn ask(o: Outcome) -> Ask {
    match o {
        Outcome::Asking { ask } => ask,
        Outcome::Refused { reason } => panic!("refused: {reason}"),
        Outcome::Finished { info } => panic!("finished: {info:?}"),
        Outcome::Failed { context } => panic!("failed: {context:?}"),
    }
}

fn refusal(o: Outcome) -> String {
    match o {
        Outcome::Refused { reason } => reason,
        _ => panic!("not refused"),
    }
}

fn wanted() -> AudioConfig {
    AudioConfig {
        host: Some("alsa".to_string()),
        input: Some("mic".to_string()),
        output: Some("speaker".to_string()),
        buffer: Some(128),
        no_input: false,
    }
}

#[test]
fn formats_have_their_rank() {
    let ranks: Vec<u8> =
        [SampleFormat::F32, SampleFormat::I32, SampleFormat::I16, SampleFormat::U16, SampleFormat::Other]
            .iter()
            .map(|f| fmt_rank(*f))
            .collect();
    assert_eq!(ranks, vec![0, 1, 2, 3, 99]);
}

#[test]
fn best_range_is_the_best_format_near_stereo() {
    let all = vec![
        range(SampleFormat::Other, 2),
        range(SampleFormat::I16, 2),
        range(SampleFormat::F32, 8),
        range(SampleFormat::F32, 1),
        range(SampleFormat::F32, 3),
        range(SampleFormat::I32, 2),
    ];
    // One channel and three are equally far from stereo: the first of the two it is.
    assert_eq!(best_range(&all, 48000), Some(3));
    assert_eq!(best_range(&all, 44100), Some(3));
    assert_eq!(best_range(&all, 96000), Some(3));
    assert_eq!(best_range(&all, 44099), None);
    assert_eq!(best_range(&all, 96001), None);
    assert_eq!(best_range(&all[..1].to_vec(), 48000), None);
    assert_eq!(best_range(&all[..2].to_vec(), 48000), Some(1));
    assert_eq!(best_range(&Vec::new(), 48000), None);
}

#[test]
fn devices_are_found_by_name() {
    let list = vec![None, Some("a".to_string()), Some("A".to_string()), Some("a".to_string())];
    assert_eq!(find_device(&list, "a"), Some(1));
    assert_eq!(find_device(&list, "A"), Some(2));
    assert_eq!(find_device(&list, "b"), None);
    assert_eq!(find_host(&list, "A"), Some(1));
    assert_eq!(find_host(&list, "b"), None);
    let h = HostDevices::describe("h".to_string(), &Some(list), &None, None, Some("a".to_string()));
    assert_eq!(h.inputs, vec!["a", "A", "a"]);
    assert!(h.outputs.is_empty());
    assert_eq!(h.default_output, Some("a".to_string()));
}

#[test]
fn everything_that_is_wanted_is_opened() {
    let (mut o, first) = Opening::begin(&wanted());
    assert!(matches!(first, Ask::ListHosts));
    assert!(matches!(ask(o.reply(names(&["JACK", "ALSA"]))), Ask::OpenHost { at: Some(1) }));
    assert!(matches!(ask(o.reply(named("ALSA"))), Ask::ListOutputs));
    assert!(matches!(ask(o.reply(names(&["speaker"]))), Ask::TakeOutput { at: Some(0) }));
    assert!(matches!(ask(o.reply(named("speaker"))), Ask::OutputDefault));
    assert!(matches!(ask(o.reply(config(48000, SampleFormat::I16, "i16"))), Ask::OutputRanges));
    let ranges = vec![range(SampleFormat::I16, 2), range(SampleFormat::F32, 6)];
    assert!(matches!(ask(o.reply(Reply::Ranges { ranges })), Ask::ListInputs));
    assert!(matches!(ask(o.reply(names(&["line", "mic"]))), Ask::TakeInput { at: Some(1) }));
    assert!(matches!(ask(o.reply(named("mic"))), Ask::InputRanges));
    let ranges = vec![range(SampleFormat::U16, 1)];
    assert!(matches!(
        ask(o.reply(Reply::Ranges { ranges })),
        Ask::BuildInput {
            settings: Settings { format: SampleFormat::U16, channels: 1, rate: 48000, buffer: Some(128) }
        }
    ));
    assert!(matches!(
        ask(o.reply(Reply::Done)),
        Ask::BuildOutput {
            settings: Settings { format: SampleFormat::F32, channels: 6, rate: 48000, buffer: Some(128) },
            with_input: true
        }
    ));
    assert!(matches!(ask(o.reply(Reply::Done)), Ask::PlayInput));
    assert!(matches!(ask(o.reply(Reply::Done)), Ask::PlayOutput));
    match o.reply(Reply::Done) {
        Outcome::Finished { info } => {
            assert_eq!(info.host, "ALSA");
            assert_eq!(info.input, Some("mic".to_string()));
            assert_eq!(info.output, "speaker");
            assert_eq!(info.sample_rate, 48000);
            assert_eq!(info.buffer, Some(128));
            assert_eq!((info.out_channels, info.in_channels), (6, 1));
        }
        _ => panic!("not finished"),
    }
}

#[test]
fn defaults_are_taken_where_nothing_is_wanted() {
    let (mut o, first) = Opening::begin(&AudioConfig::default());
    assert!(matches!(first, Ask::OpenHost { at: None }));
    assert!(matches!(ask(o.reply(named("ALSA"))), Ask::TakeOutput { at: None }));
    assert!(matches!(ask(o.reply(Reply::Named { name: None })), Ask::OutputDefault));
    assert!(matches!(ask(o.reply(config(44100, SampleFormat::I32, "i32"))), Ask::OutputRanges));
    // The configurations cannot be had, so the default one is used.
    assert!(matches!(ask(o.reply(Reply::Failed)), Ask::TakeInput { at: None }));
    assert!(matches!(
        ask(o.reply(Reply::Absent)),
        Ask::BuildOutput {
            settings: Settings { format: SampleFormat::I32, channels: 2, rate: 44100, buffer: None },
            with_input: false
        }
    ));
    assert!(matches!(ask(o.reply(Reply::Done)), Ask::PlayOutput));
    match o.reply(Reply::Done) {
        Outcome::Finished { info } => {
            assert_eq!((info.output.as_str(), info.input, info.in_channels), ("", None, 0));
        }
        _ => panic!("not finished"),
    }
}

#[test]
fn input_is_left_alone_where_it_is_not_wanted() {
    let cfg = AudioConfig { no_input: true, input: Some("mic".to_string()), ..Default::default() };
    let (mut o, _) = Opening::begin(&cfg);
    ask(o.reply(named("ALSA")));
    ask(o.reply(named("speaker")));
    ask(o.reply(config(48000, SampleFormat::F32, "f32")));
    let ranges = vec![range(SampleFormat::F32, 2)];
    assert!(matches!(ask(o.reply(Reply::Ranges { ranges })), Ask::BuildOutput { with_input: false, .. }));
}

#[test]
fn opening_is_refused_for_a_reason() {
    let (mut o, _) = Opening::begin(&wanted());
    assert_eq!(refusal(o.reply(names(&["JACK"]))), "audio host 'alsa' not available");

    let (mut o, _) = Opening::begin(&wanted());
    ask(o.reply(names(&["alsa"])));
    ask(o.reply(named("ALSA")));
    assert_eq!(refusal(o.reply(names(&["Speaker"]))), "output device 'speaker' not found");

    let (mut o, _) = Opening::begin(&AudioConfig::default());
    ask(o.reply(named("ALSA")));
    assert_eq!(refusal(o.reply(Reply::Absent)), "no default output device");

    let (mut o, _) = Opening::begin(&wanted());
    ask(o.reply(names(&["alsa"])));
    ask(o.reply(named("ALSA")));
    ask(o.reply(names(&["speaker"])));
    ask(o.reply(named("speaker")));
    ask(o.reply(config(48000, SampleFormat::F32, "f32")));
    ask(o.reply(Reply::Failed));
    assert_eq!(refusal(o.reply(names(&[]))), "input device 'mic' not found");

    let (mut o, _) = Opening::begin(&AudioConfig::default());
    ask(o.reply(named("ALSA")));
    ask(o.reply(named("speaker")));
    ask(o.reply(config(22050, SampleFormat::F32, "f32")));
    ask(o.reply(Reply::Failed));
    ask(o.reply(named("mic")));
    let ranges = vec![range(SampleFormat::F32, 2)];
    assert_eq!(
        refusal(o.reply(Reply::Ranges { ranges })),
        "input device does not support 22050 Hz (output rate)"
    );

    let cfg = AudioConfig { no_input: true, ..Default::default() };
    let (mut o, _) = Opening::begin(&cfg);
    ask(o.reply(named("ALSA")));
    ask(o.reply(named("speaker")));
    ask(o.reply(config(48000, SampleFormat::Other, "F64")));
    assert_eq!(refusal(o.reply(Reply::Failed)), "unsupported output sample format F64");
}

#[test]
fn what_goes_wrong_ends_the_opening() {
    let (mut o, _) = Opening::begin(&AudioConfig::default());
    assert!(matches!(o.reply(Reply::Failed), Outcome::Failed { context: None }));
    let (mut o, _) = Opening::begin(&AudioConfig::default());
    ask(o.reply(named("ALSA")));
    ask(o.reply(named("speaker")));
    assert!(matches!(o.reply(Reply::Failed), Outcome::Failed { context: Some("output config") }));
    // A reply that does not fit is something gone wrong, too.
    let (mut o, _) = Opening::begin(&AudioConfig::default());
    assert!(matches!(o.reply(Reply::Done), Outcome::Failed { context: None }));
}
