//! The audio callbacks, run by hand.
use std::sync::atomic::Ordering::Relaxed;
use std::sync::Arc;
use steroidsoundboard::audio::{EngineStats, RunningInfo};
use steroidsoundboard::engine::{AudioEngine, OutCtx, Queues};
use steroidsoundboard::frames::{capture, input_ring};
use steroidsoundboard::graph::{Board, Connection, NodeDesc, INPUT_ID, OUTPUT_ID};
use steroidsoundboard::nodes::{AtomicF32, Buf, NodeKind, Processor};
use steroidsoundboard::schedule::{LiveNode, Schedule};
use steroidsoundboard::table::Table;

/// A processor that spoils everything it touches.
struct Vandal;

impl Processor for Vandal {
    fn process(&mut self, _p: &Vec<AtomicF32>, _i: &Buf, o: &mut Buf, n: usize) {
        o[0].clear();
        for i in 0..n {
            o[1][i] = if i % 2 == 0 { f32::NAN.to_bits() } else { (-70f32).to_bits() };
        }
    }
}

/// The vandal between input and output.
fn spoilt() -> Schedule {
    let n = NodeDesc {
        id: "v".to_string(),
        kind: NodeKind::Gain,
        params: Table::new(),
        bypass: false,
        x: 0,
        y: 0,
    };
    let mut live = Table::new();
    live.insert("v".to_string(), LiveNode::from_desc(&n));
    let connections = vec![
        Connection { from: INPUT_ID.to_string(), to: "v".to_string() },
        Connection { from: "v".to_string(), to: OUTPUT_ID.to_string() },
    ];
    let board = Board { nodes: vec![n], connections, ..Default::default() };
    Schedule::build(Schedule::plan(&board, &live).unwrap(), vec![Box::new(Vandal)])
}

fn info() -> RunningInfo {
    RunningInfo {
        host: "host".to_string(),
        input: None,
        output: "out".to_string(),
        sample_rate: 48000,
        buffer: None,
        out_channels: 2,
        in_channels: 0,
    }
}

/// The input passed straight to the output.
fn straight() -> Schedule {
    let plan = Schedule::plan(&Board::default(), &Table::new()).unwrap();
    Schedule::build(plan, Vec::new())
}

/// No cable at all.
fn mute() -> Schedule {
    let board = Board { connections: Vec::new(), ..Default::default() };
    Schedule::build(Schedule::plan(&board, &Table::new()).unwrap(), Vec::new())
}

fn bits(v: &[f32]) -> Vec<u32> {
    v.iter().map(|x| x.to_bits()).collect()
}

fn floats(v: &[u32]) -> Vec<f32> {
    v.iter().map(|x| f32::from_bits(*x)).collect()
}

#[test]
fn schedules_wait_until_the_queue_is_full() {
    let q = Queues::new();
    let mut e = AudioEngine::start(info(), q.tx, q.garbage);
    for _ in 0..8 {
        assert_eq!(e.send_schedule(straight()), Ok(()));
    }
    assert_eq!(e.send_schedule(straight()), Err("schedule queue full".to_string()));
    let mut out = OutCtx::new(q.cmd_rx, q.garbage_tx, None, Arc::new(EngineStats::default()));
    out.swap_schedule();
    assert_eq!(e.send_schedule(straight()), Ok(()));
    e.collect_garbage();
    assert_eq!(e.info.sample_rate, 48000);
}

#[test]
fn without_a_schedule_there_is_silence() {
    let q = Queues::new();
    let mut out = OutCtx::new(q.cmd_rx, q.garbage_tx, None, Arc::new(EngineStats::default()));
    let mut data = bits(&[9.0; 6]);
    out.render(3, &mut data, 2);
    assert_eq!(floats(&data), vec![0.0; 6]);
}

#[test]
fn input_reaches_the_output_frame_by_frame() {
    let q = Queues::new();
    let stats = Arc::new(EngineStats::default());
    let (mut prod, cons) = input_ring(48000);
    let mut e = AudioEngine::start(info(), q.tx, q.garbage);
    let mut out = OutCtx::new(q.cmd_rx, q.garbage_tx, Some(cons), stats.clone());
    e.send_schedule(straight()).unwrap();

    // Three channels, of which the third is not used, and an incomplete frame.
    let pk = capture(&mut prod, &bits(&[0.1, -0.2, 9.0, 0.3, -0.4, 9.0, 0.5]), 3, &stats);
    assert_eq!(floats(&[pk.0, pk.1]), vec![0.3, 0.4]);
    assert_eq!(f32::from_bits(stats.in_peak[0].take()), 0.3);
    assert_eq!(f32::from_bits(stats.in_peak[1].take()), 0.4);

    let mut data = bits(&[7.0; 8]);
    out.render(2, &mut data, 4);
    assert_eq!(floats(&data), vec![0.1, -0.2, 7.0, 7.0, 0.3, -0.4, 7.0, 7.0]);
    assert_eq!(f32::from_bits(stats.out_peak[0].take()), 0.3);
    assert_eq!(f32::from_bits(stats.out_peak[1].take()), 0.4);
    assert_eq!(stats.xruns.load(Relaxed), 0);

    // A device with one channel gets the left side.
    let pk = capture(&mut prod, &bits(&[0.25, -0.5]), 1, &stats);
    assert_eq!(floats(&[pk.0, pk.1]), vec![0.5, 0.5]);
    let mut data = bits(&[7.0; 3]);
    out.render(3, &mut data, 1);
    assert_eq!(floats(&data), vec![0.25, -0.5, 0.0]);
    assert_eq!(stats.xruns.load(Relaxed), 1);
}

#[test]
fn missing_input_counts_once_and_only_when_it_has_come_before() {
    let q = Queues::new();
    let stats = Arc::new(EngineStats::default());
    let (mut prod, cons) = input_ring(48000);
    let mut out = OutCtx::new(q.cmd_rx, q.garbage_tx, Some(cons), stats.clone());
    let mut data = vec![0u32; 2000];
    out.render(1000, &mut data, 2);
    assert_eq!(stats.xruns.load(Relaxed), 0);
    capture(&mut prod, &vec![0u32; 2 * 600], 2, &stats);
    // The first block has its input, the second has not: this is not counted.
    out.render(1000, &mut data, 2);
    assert_eq!(stats.xruns.load(Relaxed), 0);
    out.render(1000, &mut data, 2);
    assert_eq!(stats.xruns.load(Relaxed), 1);
}

#[test]
fn long_callbacks_are_cut_into_blocks() {
    let q = Queues::new();
    let stats = Arc::new(EngineStats::default());
    let (mut prod, cons) = input_ring(48000);
    let mut e = AudioEngine::start(info(), q.tx, q.garbage);
    let mut out = OutCtx::new(q.cmd_rx, q.garbage_tx, Some(cons), stats.clone());
    e.send_schedule(mute()).unwrap();
    e.send_schedule(straight()).unwrap();
    let row: Vec<f32> = (0..2 * 1300).map(|k| k as f32 / 4096.0).collect();
    capture(&mut prod, &bits(&row), 2, &stats);
    let mut data = vec![1u32; 2 * 1300 + 1];
    out.render(1300, &mut data, 2);
    assert_eq!(floats(&data[..2600]), row);
    assert_eq!(data[2600], 1);
}

#[test]
fn what_goes_out_is_limited() {
    let q = Queues::new();
    let stats = Arc::new(EngineStats::default());
    let (mut prod, cons) = input_ring(100);
    let mut e = AudioEngine::start(info(), q.tx, q.garbage);
    let mut out = OutCtx::new(q.cmd_rx, q.garbage_tx, Some(cons), stats.clone());
    e.send_schedule(straight()).unwrap();
    let loud = [3.0, -3.0, f32::NAN, f32::INFINITY, f32::NEG_INFINITY, 0.5];
    capture(&mut prod, &bits(&loud), 2, &stats);
    let mut data = vec![0u32; 6];
    out.render(3, &mut data, 2);
    assert_eq!(floats(&data), vec![1.0, -1.0, 0.0, 0.0, 0.0, 0.5]);
    e.send_schedule(spoilt()).unwrap();
    let mut data = vec![0u32; 8];
    out.render(4, &mut data, 2);
    assert_eq!(floats(&data), vec![0.0, 0.0, 0.0, -1.0, 0.0, 0.0, 0.0, -1.0]);
}

#[test]
fn frames_are_lost_whole() {
    let q = Queues::new();
    let stats = Arc::new(EngineStats::default());
    let (mut prod, cons) = input_ring(5);
    let mut e = AudioEngine::start(info(), q.tx, q.garbage);
    let mut out = OutCtx::new(q.cmd_rx, q.garbage_tx, Some(cons), stats.clone());
    e.send_schedule(straight()).unwrap();
    capture(&mut prod, &bits(&[0.1, 0.2, 0.3, 0.4, 0.5, 0.6]), 2, &stats);
    let mut data = vec![0u32; 6];
    out.render(3, &mut data, 2);
    assert_eq!(floats(&data), vec![0.1, 0.2, 0.3, 0.4, 0.0, 0.0]);
    capture(&mut prod, &bits(&[0.7, 0.8]), 2, &stats);
    let mut data = vec![0u32; 2];
    out.render(1, &mut data, 2);
    assert_eq!(floats(&data), vec![0.7, 0.8]);
}

#[test]
fn old_input_is_dropped_to_catch_up() {
    let q = Queues::new();
    let stats = Arc::new(EngineStats::default());
    let (mut prod, cons) = input_ring(48000);
    let mut e = AudioEngine::start(info(), q.tx, q.garbage);
    let mut out = OutCtx::new(q.cmd_rx, q.garbage_tx, Some(cons), stats.clone());
    e.send_schedule(straight()).unwrap();
    // Seventy frames are waiting, and two times one frame and 64 more would be in order.
    let row: Vec<f32> = (0..2 * 70).map(|k| k as f32 / 256.0).collect();
    capture(&mut prod, &bits(&row), 2, &stats);
    let mut data = vec![0u32; 2];
    out.render(1, &mut data, 2);
    assert_eq!(floats(&data), row[138..140].to_vec());
    // Sixty-six would not be too many.
    capture(&mut prod, &bits(&row[..132]), 2, &stats);
    out.render(1, &mut data, 2);
    assert_eq!(floats(&data), row[..2].to_vec());
}

#[test]
fn two_blocks_of_input_reach_the_output() {
    let q = Queues::new();
    let stats = Arc::new(EngineStats::default());
    let (mut prod, cons) = input_ring(2048);
    let mut e = AudioEngine::start(info(), q.tx, q.garbage);
    let mut out = OutCtx::new(q.cmd_rx, q.garbage_tx, Some(cons), stats.clone());
    e.send_schedule(straight()).unwrap();
    let row: Vec<f32> = (0..513).flat_map(|k| [k as f32 / 1024.0, -(k as f32) / 1024.0]).collect();
    capture(&mut prod, &bits(&row), 2, &stats);
    let mut data = vec![0u32; 2 * 513];
    out.render(513, &mut data, 2);
    assert_eq!(floats(&data), row);
    assert_eq!(f32::from_bits(stats.out_peak[0].take()), 0.5);
    assert_eq!(f32::from_bits(stats.out_peak[1].take()), 0.5);
    assert_eq!(stats.xruns.load(Relaxed), 0);
    // Nothing is left.
    out.render(1, &mut data, 2);
    assert_eq!(data[..2], [0, 0]);
    assert_eq!(stats.xruns.load(Relaxed), 1);
}

#[test]
fn small_samples_count_as_zero_in_the_callback() {
    let q = Queues::new();
    let stats = Arc::new(EngineStats::default());
    let (mut prod, cons) = input_ring(100);
    let mut e = AudioEngine::start(info(), q.tx, q.garbage);
    let mut out = OutCtx::new(q.cmd_rx, q.garbage_tx, Some(cons), stats.clone());
    e.send_schedule(straight()).unwrap();
    capture(&mut prod, &bits(&[3.0e-42, -3.0e-42, f32::MIN_POSITIVE, 0.5]), 2, &stats);
    let mut data = vec![7u32; 4];
    out.render(2, &mut data, 2);
    assert_eq!(data, vec![0, 0, f32::MIN_POSITIVE.to_bits(), 0.5f32.to_bits()]);
}
