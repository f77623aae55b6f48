//! The shared state, as clients change it.
use steroidsoundboard::audio::{AudioConfig, EngineStats, RunningInfo};
use steroidsoundboard::engine::{AudioEngine, Queues};
use steroidsoundboard::graph::{Board, Connection, NodeDesc};
use steroidsoundboard::nodes::{AtomicF32, Buf, NodeKind, Processor};
use steroidsoundboard::state::{App, Change, ClientMsg, Event, Turn};
use steroidsoundboard::table::Table;

struct Nothing;

impl Processor for Nothing {
    fn process(&mut self, _p: &Vec<AtomicF32>, _i: &Buf, _o: &mut Buf, _n: usize) {}
}

fn app() -> App {
    App::new(None, None)
}

fn info() -> RunningInfo {
    RunningInfo {
        host: "host".to_string(),
        input: None,
        output: "out".to_string(),
        sample_rate: 44100,
        buffer: None,
        out_channels: 2,
        in_channels: 0,
    }
}

fn engine() -> AudioEngine {
    let q = Queues::new();
    AudioEngine::start(info(), q.tx, q.garbage)
}

/// Makes the processors that are asked for, and goes on to the end.
fn finish(app: &mut App, turn: Turn) -> Turn {
    match turn {
        Turn::Build { plan, rate, change } => {
            assert_eq!(rate, 44100);
            let procs: Vec<Box<dyn Processor>> =
                plan.kinds().iter().map(|_| Box::new(Nothing) as Box<dyn Processor>).collect();
            app.built(plan, procs, change)
        }
        other => other,
    }
}

fn wire(from: &str, to: &str) -> Connection {
    Connection { from: from.to_string(), to: to.to_string() }
}

fn reason(turn: Turn) -> String {
    match turn {
        Turn::Failed { reason, .. } => reason,
        _ => panic!("not failed"),
    }
}

fn is_board_event(turn: &Turn) -> bool {
    matches!(turn, Turn::Done { event: Event::Board, .. })
}

#[test]
fn nodes_get_names_of_their_own() {
    let mut a = app();
    for k in 1..=3 {
        match a.add_node(NodeKind::Delay, 1f32.to_bits(), 2f32.to_bits()) {
            Turn::Done { change: Change::Added { desc }, event: Event::Board } => {
                assert_eq!(desc.id, format!("n{k}"));
                assert_eq!(desc.params.get("time"), Some(&350f32.to_bits()));
                assert_eq!(desc.params.entries().len(), 4);
                assert_eq!((desc.x, desc.y, desc.bypass), (1f32.to_bits(), 2f32.to_bits(), false));
            }
            _ => panic!("not added"),
        }
    }
    assert_eq!(a.inner.board.next_id, 4);
    assert!(a.inner.live.contains("n3"));
    assert!(a.dirty);
    // A number is not given out again.
    assert!(is_board_event(&a.remove_node("n3")));
    assert!(!a.inner.live.contains("n3"));
    a.add_node(NodeKind::Gain, 0, 0);
    assert_eq!(a.inner.board.nodes[2].id, "n4");
    // A board that has lost count begins at one.
    let mut b = App::new(Some(Board { next_id: 0, ..Default::default() }), None);
    b.add_node(NodeKind::Gain, 0, 0);
    assert_eq!((b.inner.board.nodes[0].id.as_str(), b.inner.board.next_id), ("n1", 2));
}

#[test]
fn cables_come_and_go() {
    let mut a = app();
    a.add_node(NodeKind::Gain, 0, 0);
    a.add_node(NodeKind::Drive, 0, 0);
    a.dirty = false;
    assert_eq!(reason(a.connect(wire("n1", "zz"))), "unknown node");
    assert!(!a.dirty);
    assert!(is_board_event(&a.connect(wire("n1", "n2"))));
    assert!(a.dirty);
    assert_eq!(reason(a.connect(wire("n2", "n1"))), "connection would create a feedback loop");
    assert_eq!(a.inner.board.connections.len(), 2);
    assert!(is_board_event(&a.disconnect(&wire("n1", "n2"))));
    assert_eq!(a.inner.board.connections, vec![wire("in", "out")]);
    assert!(is_board_event(&a.disconnect(&wire("n1", "n2"))));
    assert_eq!(reason(a.remove_node("n9")), "no such node");
    a.connect(wire("in", "n1"));
    a.connect(wire("n1", "n2"));
    assert!(is_board_event(&a.remove_node("n1")));
    assert_eq!(a.inner.board.connections, vec![wire("in", "out")]);
}

#[test]
fn running_audio_follows_every_change() {
    let mut a = app();
    a.prepare_audio(Some(AudioConfig { buffer: Some(64), ..Default::default() }));
    assert_eq!(a.inner.audio_cfg.buffer, Some(64));
    let t = a.start_audio(Ok(engine()));
    match finish(&mut a, t) {
        Turn::Done { change: Change::Started { info }, event: Event::Audio { running: Some(r), error: None } } => {
            assert_eq!((info.sample_rate, r.sample_rate), (44100, 44100));
        }
        _ => panic!("not started"),
    }
    // Starting is no change of the board.
    assert!(!a.dirty);
    let t = a.add_node(NodeKind::Gain, 0, 0);
    assert!(matches!(&t, Turn::Build { plan, .. } if plan.kinds() == &vec![NodeKind::Gain]));
    assert!(!a.dirty);
    assert!(is_board_event(&finish(&mut a, t)));
    assert!(a.dirty);
    // Two schedules are waiting now; there is room for eight.
    for _ in 0..6 {
        let t = a.disconnect(&wire("x", "y"));
        assert!(is_board_event(&finish(&mut a, t)));
    }
    a.dirty = false;
    let t = a.remove_node("n1");
    assert_eq!(reason(finish(&mut a, t)), "schedule queue full");
    // The board has changed all the same, and the live node is still there.
    assert!(a.inner.board.nodes.is_empty());
    assert!(a.inner.live.contains("n1"));
    assert!(!a.dirty);
    assert!(matches!(a.stop_audio(), Event::Audio { running: None, error: None }));
    assert!(a.inner.engine.is_none());
}

#[test]
fn failure_to_start_is_kept_and_told() {
    let mut a = app();
    match a.start_audio(Err("no default output device".to_string())) {
        Turn::Failed { reason, event: Some(Event::Audio { running: None, error: Some(e) }) } => {
            assert_eq!(reason, "no default output device");
            assert_eq!(e, reason);
        }
        _ => panic!("not failed"),
    }
    assert_eq!(a.inner.last_error, Some("no default output device".to_string()));
    let t = a.start_audio(Ok(engine()));
    finish(&mut a, t);
    assert_eq!(a.inner.last_error, None);
}

#[test]
fn board_that_cannot_be_compiled_fails_the_start() {
    let node = |id: &str| NodeDesc {
        id: id.to_string(),
        kind: NodeKind::Gain,
        params: Table::new(),
        bypass: false,
        x: 0,
        y: 0,
    };
    let board = Board {
        nodes: vec![node("a"), node("b")],
        connections: vec![wire("a", "b"), wire("b", "a")],
        ..Default::default()
    };
    let mut a = App::new(Some(board), Some(AudioConfig::default()));
    assert_eq!(reason(a.start_audio(Ok(engine()))), "connection would create a feedback loop");
    assert!(a.inner.engine.is_some());
}

#[test]
fn later_of_two_nodes_with_one_name_counts() {
    let node = |bypass: bool| NodeDesc {
        id: "a".to_string(),
        kind: NodeKind::Gain,
        params: Table::new(),
        bypass,
        x: 0,
        y: 0,
    };
    let board = Board { nodes: vec![node(false), node(true)], ..Default::default() };
    let a = App::new(Some(board), Some(AudioConfig::default()));
    assert!(a.inner.live.get("a").unwrap().bypassed);
    assert_eq!(a.inner.live.entries().len(), 1);
}

#[test]
fn parameters_are_set_within_their_range() {
    let mut a = app();
    a.add_node(NodeKind::Filter, 0, 0);
    a.dirty = false;
    assert_eq!(a.set_param("n2", "freq", 0), Err("no such node".to_string()));
    assert_eq!(a.set_param("n1", "depth", 0), Err("no such param".to_string()));
    assert!(!a.dirty);
    assert_eq!(a.set_param("n1", "freq", 30000f32.to_bits()), Ok(20000f32.to_bits()));
    assert_eq!(a.set_param("n1", "mode", 2.4f32.to_bits()), Ok(2f32.to_bits()));
    assert_eq!(a.set_param("n1", "q", f32::NAN.to_bits()), Ok(0.707f32.to_bits()));
    assert!(a.dirty);
    let live = a.inner.live.get("n1").unwrap();
    assert_eq!(f32::from_bits(live.params[1].get()), 20000.0);
    assert_eq!(live.values, vec![2f32.to_bits(), 20000f32.to_bits(), 0.707f32.to_bits(), 0]);
    assert_eq!(a.inner.board.nodes[0].params.get("freq"), Some(&20000f32.to_bits()));
}

#[test]
fn nodes_are_switched_and_moved() {
    let mut a = app();
    a.add_node(NodeKind::Gain, 0, 0);
    a.dirty = false;
    assert_eq!(a.set_bypass("n9", true), Err("no such node".to_string()));
    a.move_node("n9", 1, 1);
    assert!(!a.dirty);
    assert_eq!(a.set_bypass("n1", true), Ok(()));
    assert!(a.inner.live.get("n1").unwrap().bypass.load(std::sync::atomic::Ordering::Relaxed));
    assert!(a.inner.board.nodes[0].bypass);
    a.dirty = false;
    a.move_node("n1", 3f32.to_bits(), 4f32.to_bits());
    assert!(a.dirty);
    assert_eq!((a.inner.board.nodes[0].x, a.inner.board.nodes[0].y), (3f32.to_bits(), 4f32.to_bits()));
}

#[test]
fn clients_hear_of_each_other() {
    let mut a = app();
    a.add_node(NodeKind::Gain, 0, 0);
    let set = |v: f32, node: &str| ClientMsg::Param {
        node: node.to_string(),
        param: "gain".to_string(),
        value: v.to_bits(),
    };
    match a.handle(7, set(99.0, "n1")) {
        Some(Event::Param { node, param, value, src }) => {
            assert_eq!((node.as_str(), param.as_str(), f32::from_bits(value), src), ("n1", "gain", 24.0, 7));
        }
        _ => panic!("not told"),
    }
    assert!(a.handle(7, set(1.0, "n2")).is_none());
    assert!(matches!(
        a.handle(8, ClientMsg::Bypass { node: "n1".to_string(), on: true }),
        Some(Event::Bypass { on: true, src: 8, .. })
    ));
    assert!(a.handle(8, ClientMsg::Bypass { node: "n2".to_string(), on: true }).is_none());
    // A move is told whether or not there is such a node.
    assert!(matches!(
        a.handle(9, ClientMsg::Move { node: "n2".to_string(), x: 1, y: 2 }),
        Some(Event::Move { x: 1, y: 2, src: 9, .. })
    ));
}

#[test]
fn board_is_saved_once_for_its_changes() {
    let mut a = app();
    assert!(!a.save_if_dirty());
    a.add_node(NodeKind::Gain, 0, 0);
    assert!(a.save_if_dirty());
    assert!(!a.save_if_dirty());
    let t = a.start_audio(Ok(engine()));
    finish(&mut a, t);
    a.dirty = true;
    assert!(a.save_if_dirty());
    assert!(a.inner.engine.is_some());
}

#[test]
fn meters_are_read_and_set_back() {
    let mut a = app();
    a.add_node(NodeKind::Gain, 0, 0);
    let stats = EngineStats::default();
    stats.show_input(1f32.to_bits(), 2f32.to_bits());
    stats.show_output(3f32.to_bits(), 4f32.to_bits());
    stats.count_xrun();
    stats.show_callback(0.5f32.to_bits(), 256);
    a.inner.live.get("n1").unwrap().meter.max(0.25f32.to_bits());
    let m = a.meters(&stats);
    assert_eq!(m.input, (1f32.to_bits(), 2f32.to_bits()));
    assert_eq!(m.output, (3f32.to_bits(), 4f32.to_bits()));
    assert_eq!((m.load, m.xruns, m.frames), (0.5f32.to_bits(), 1, 256));
    assert_eq!(m.nodes, vec![("n1".to_string(), 0.25f32.to_bits())]);
    let m = a.meters(&stats);
    assert_eq!((m.input, m.load, m.xruns, m.frames), ((0, 0), 0, 1, 256));
    assert_eq!(m.nodes, vec![("n1".to_string(), 0)]);
}

#[test]
fn load_is_shown_from_zero_to_one() {
    let a = app();
    let stats = EngineStats::default();
    for (load, shown) in [(0.25, 0.25), (7.5, 1.0), (-3.0, 0.0), (f32::NAN, 0.0), (f32::INFINITY, 1.0)] {
        stats.show_callback((load as f32).to_bits(), 64);
        assert_eq!(f32::from_bits(a.meters(&stats).load), shown);
    }
}

#[test]
fn what_was_saved_comes_back_or_the_defaults_do() {
    let a = App::new(None, None);
    assert_eq!(a.inner.board.name, "Default");
    assert_eq!((a.inner.board.nodes.len(), a.inner.board.connections.len(), a.inner.board.next_id), (0, 1, 1));
    assert!(a.inner.audio_cfg.host.is_none() && !a.inner.audio_cfg.no_input);
    let cfg = AudioConfig { buffer: Some(64), no_input: true, ..Default::default() };
    let b = App::new(Some(Board { name: "Mine".to_string(), next_id: 9, ..Default::default() }), Some(cfg));
    assert_eq!((b.inner.board.name.as_str(), b.inner.board.next_id), ("Mine", 9));
    assert_eq!((b.inner.audio_cfg.buffer, b.inner.audio_cfg.no_input), (Some(64), true));
    assert!(!b.dirty && b.inner.engine.is_none());
}

#[test]
fn names_of_any_kind_stay_apart_from_new_ones() {
    let mut board = Board::default();
    board.nodes.push(NodeDesc {
        id: "mine".to_string(),
        kind: NodeKind::Gain,
        params: Table::new(),
        bypass: false,
        x: 0,
        y: 0,
    });
    let mut a = App::new(Some(board), None);
    a.add_node(NodeKind::Gain, 0, 0);
    a.remove_node("n1");
    a.add_node(NodeKind::Drive, 0, 0);
    let ids: Vec<&str> = a.inner.board.nodes.iter().map(|n| n.id.as_str()).collect();
    assert_eq!(ids, vec!["mine", "n2"]);
}
