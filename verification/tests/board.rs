//! A board compiled and run, with processors that compute on real numbers.
use std::f32::consts::PI;
use steroidsoundboard::delay::DelayLine;
use steroidsoundboard::graph::{Board, Connection, NodeDesc, INPUT_ID, OUTPUT_ID};
use steroidsoundboard::nodes::{end_of_part, new_buf, AtomicF32, Buf, NodeKind, Processor, SUB};
use steroidsoundboard::schedule::{LiveNode, Schedule};
use steroidsoundboard::table::Table;

/// Decibels as a factor.
fn db2lin(db: f32) -> f32 {
    10f32.powf(db * 0.05)
}

fn get(p: &[AtomicF32], i: usize) -> f32 {
    f32::from_bits(p[i].get())
}

fn sample(b: &Buf, ch: usize, i: usize) -> f32 {
    f32::from_bits(b[ch][i])
}

fn put(b: &mut Buf, ch: usize, i: usize, v: f32) {
    b[ch][i] = v.to_bits();
}

/// One-pole parameter smoother.
struct Smooth {
    cur: f32,
    coef: f32,
}

impl Smooth {
    fn new(sr: f32, secs: f32, init: f32) -> Self {
        Self { cur: init, coef: 1.0 - (-1.0 / (secs * sr)).exp() }
    }

    fn next(&mut self, target: f32) -> f32 {
        self.cur += (target - self.cur) * self.coef;
        self.cur
    }
}

struct Gain {
    g: Smooth,
}

impl Processor for Gain {
    fn process(&mut self, p: &Vec<AtomicF32>, i: &Buf, o: &mut Buf, n: usize) {
        let target = db2lin(get(p, 0));
        for s in 0..n {
            let g = self.g.next(target);
            put(o, 0, s, sample(i, 0, s) * g);
            put(o, 1, s, sample(i, 1, s) * g);
        }
    }
}

#[derive(Default, Clone, Copy)]
struct Biquad {
    b0: f32,
    b1: f32,
    b2: f32,
    a1: f32,
    a2: f32,
    z1: [f32; 2],
    z2: [f32; 2],
}

impl Biquad {
    /// RBJ audio EQ cookbook. mode: 0 LP, 1 HP, 2 BP, 3 peak.
    fn set(&mut self, mode: u32, sr: f32, freq: f32, q: f32, gain_db: f32) {
        let f = freq.clamp(10.0, sr * 0.49);
        let w = 2.0 * PI * f / sr;
        let (sn, cs) = w.sin_cos();
        let alpha = sn / (2.0 * q.max(0.05));
        let (b0, b1, b2, a0, a1, a2) = match mode {
            0 => ((1.0 - cs) / 2.0, 1.0 - cs, (1.0 - cs) / 2.0, 1.0 + alpha, -2.0 * cs, 1.0 - alpha),
            1 => ((1.0 + cs) / 2.0, -(1.0 + cs), (1.0 + cs) / 2.0, 1.0 + alpha, -2.0 * cs, 1.0 - alpha),
            2 => (alpha, 0.0, -alpha, 1.0 + alpha, -2.0 * cs, 1.0 - alpha),
            _ => {
                let a = 10f32.powf(gain_db / 40.0);
                (1.0 + alpha * a, -2.0 * cs, 1.0 - alpha * a, 1.0 + alpha / a, -2.0 * cs, 1.0 - alpha / a)
            }
        };
        self.b0 = b0 / a0;
        self.b1 = b1 / a0;
        self.b2 = b2 / a0;
        self.a1 = a1 / a0;
        self.a2 = a2 / a0;
    }

    fn tick(&mut self, ch: usize, x: f32) -> f32 {
        let y = self.b0 * x + self.z1[ch];
        self.z1[ch] = self.b1 * x - self.a1 * y + self.z2[ch];
        self.z2[ch] = self.b2 * x - self.a2 * y + 1e-20; // anti-denormal
        y
    }
}

struct Filter {
    sr: f32,
    bq: Biquad,
    freq: Smooth,
    gain: Smooth,
}

impl Filter {
    fn new(sr: f32) -> Self {
        // smoothing evaluated once per SUB samples
        Self {
            sr,
            bq: Biquad::default(),
            freq: Smooth::new(sr / SUB as f32, 0.02, 1000.0),
            gain: Smooth::new(sr / SUB as f32, 0.02, 0.0),
        }
    }
}

impl Processor for Filter {
    fn process(&mut self, p: &Vec<AtomicF32>, i: &Buf, o: &mut Buf, n: usize) {
        let mode = get(p, 0) as u32;
        let (tf, q, tg) = (get(p, 1), get(p, 2), get(p, 3));
        let mut s = 0;
        while s < n {
            let end = end_of_part(s, n, SUB);
            let f = self.freq.next(tf);
            let g = self.gain.next(tg);
            self.bq.set(mode, self.sr, f, q, g);
            for k in s..end {
                for ch in 0..2 {
                    let y = self.bq.tick(ch, sample(i, ch, k));
                    put(o, ch, k, y);
                }
            }
            s = end;
        }
    }
}

struct Drive {
    sr: f32,
    lp: [f32; 2],
    pre: Smooth,
    post: Smooth,
}

impl Drive {
    fn new(sr: f32) -> Self {
        Self { sr, lp: [0.0; 2], pre: Smooth::new(sr, 0.01, 1.0), post: Smooth::new(sr, 0.01, 0.5) }
    }
}

impl Processor for Drive {
    fn process(&mut self, p: &Vec<AtomicF32>, i: &Buf, o: &mut Buf, n: usize) {
        let pre_t = db2lin(get(p, 0));
        let a = 1.0 - (-2.0 * PI * get(p, 1) / self.sr).exp();
        let post_t = db2lin(get(p, 2));
        let mix = get(p, 3);
        for s in 0..n {
            let pre = self.pre.next(pre_t);
            let post = self.post.next(post_t);
            for ch in 0..2 {
                let x = sample(i, ch, s);
                let y = (x * pre).tanh();
                self.lp[ch] += (y - self.lp[ch]) * a;
                put(o, ch, s, x * (1.0 - mix) + self.lp[ch] * post * mix);
            }
        }
    }
}

struct Delay {
    sr: f32,
    line: DelayLine,
    time: Smooth,
    lp: [f32; 2],
}

impl Delay {
    fn new(sr: f32) -> Self {
        let len = (sr * 2.1) as usize + 4;
        Self { sr, line: DelayLine::new(len), time: Smooth::new(sr, 0.15, sr * 0.35), lp: [0.0; 2] }
    }
}

impl Processor for Delay {
    fn process(&mut self, p: &Vec<AtomicF32>, i: &Buf, o: &mut Buf, n: usize) {
        let len = self.line.len();
        let target = (get(p, 0) * 0.001 * self.sr).clamp(1.0, (len - 3) as f32);
        let fb = get(p, 1);
        let a = 1.0 - (-2.0 * PI * get(p, 2) / self.sr).exp();
        let mix = get(p, 3);
        for s in 0..n {
            let d = self.time.next(target);
            let point = self.line.position() as f32 + len as f32 - d;
            let whole = point.floor();
            let frac = point - whole;
            let (r0, r1) = self.line.around(whole as usize);
            let mut written = [0u32; 2];
            for ch in 0..2 {
                let (b0, b1) = (f32::from_bits(self.line.get(ch, r0)), f32::from_bits(self.line.get(ch, r1)));
                let wet = b0 + (b1 - b0) * frac;
                self.lp[ch] += (wet - self.lp[ch]) * a;
                let x = sample(i, ch, s);
                written[ch] = (x + self.lp[ch] * fb + 1e-20).to_bits();
                put(o, ch, s, x * (1.0 - mix) + wet * mix);
            }
            self.line.push(written[0], written[1]);
        }
    }
}

struct Tremolo {
    sr: f32,
    phase: f32,
}

impl Processor for Tremolo {
    fn process(&mut self, p: &Vec<AtomicF32>, i: &Buf, o: &mut Buf, n: usize) {
        let inc = get(p, 0) / self.sr;
        let depth = get(p, 1);
        for s in 0..n {
            let lfo = 0.5 + 0.5 * (2.0 * PI * self.phase).sin();
            let g = 1.0 - depth * lfo;
            put(o, 0, s, sample(i, 0, s) * g);
            put(o, 1, s, sample(i, 1, s) * g);
            self.phase += inc;
            if self.phase >= 1.0 {
                self.phase -= 1.0;
            }
        }
    }
}

/// Creates a processor. Called on the control thread (may allocate).
fn create(kind: NodeKind, sr: f32) -> Box<dyn Processor> {
    match kind {
        NodeKind::Gain => Box::new(Gain { g: Smooth::new(sr, 0.01, 1.0) }),
        NodeKind::Filter => Box::new(Filter::new(sr)),
        NodeKind::Drive => Box::new(Drive::new(sr)),
        NodeKind::Delay => Box::new(Delay::new(sr)),
        NodeKind::Tremolo => Box::new(Tremolo { sr, phase: 0.0 }),
    }
}

fn board_with(kinds: &[NodeKind]) -> (Board, Table<LiveNode>) {
    let mut b = Board { connections: vec![], ..Default::default() };
    let mut prev = INPUT_ID.to_string();
    for (i, k) in kinds.iter().enumerate() {
        let id = format!("n{i}");
        b.nodes.push(NodeDesc {
            id: id.clone(),
            kind: *k,
            params: Table::new(),
            bypass: false,
            x: 0f32.to_bits(),
            y: 0f32.to_bits(),
        });
        b.connections.push(Connection { from: prev, to: id.clone() });
        prev = id;
    }
    b.connections.push(Connection { from: prev, to: OUTPUT_ID.into() });
    let mut live = Table::new();
    for n in &b.nodes {
        live.insert(n.id.clone(), LiveNode::from_desc(n));
    }
    (b, live)
}

fn build(b: &Board, live: &Table<LiveNode>, sr: f32) -> Result<Schedule, String> {
    let plan = Schedule::plan(b, live)?;
    let procs = plan.kinds().iter().map(|k| create(*k, sr)).collect();
    Ok(Schedule::build(plan, procs))
}

fn wire(from: &str, to: &str) -> Connection {
    Connection { from: from.into(), to: to.into() }
}

fn fill(s: &mut Schedule, n: usize, v: f32) {
    for ch in 0..2 {
        for i in 0..n {
            s.input_mut()[ch][i] = v.to_bits();
        }
    }
}

#[test]
fn gain_chain() {
    let (b, live) = board_with(&[NodeKind::Gain]);
    live.get("n0").unwrap().params[0].set((-6.0206f32).to_bits()); // x0.5
    let mut s = build(&b, &live, 48000.0).unwrap();
    let mut out = new_buf();
    for _ in 0..200 {
        fill(&mut s, 256, 1.0);
        s.run(256, &mut out);
    }
    let v = f32::from_bits(out[0][255]);
    assert!((v - 0.5).abs() < 1e-3, "{}", v);
}

#[test]
fn cycle_rejected() {
    let (b, _) = board_with(&[NodeKind::Gain, NodeKind::Delay]);
    assert!(b.can_connect(&Connection { from: "n1".into(), to: "n0".into() }).is_err());
    assert!(b.can_connect(&Connection { from: "n0".into(), to: OUTPUT_ID.into() }).is_ok());
}

#[test]
fn nan_never_escapes_and_all_nodes_stable() {
    let (b, live) = board_with(&NodeKind::all());
    let mut s = build(&b, &live, 48000.0).unwrap();
    let mut out = new_buf();
    s.input_mut()[0][0] = f32::NAN.to_bits();
    for i in 0..400 {
        for ch in 0..2 {
            for k in 0..512 {
                s.input_mut()[ch][k] = (((i * 512 + k) as f32 * 0.05).sin() * 0.8).to_bits();
            }
        }
        s.run(512, &mut out);
        assert!(out[0][..512]
            .iter()
            .chain(&out[1][..512])
            .map(|v| f32::from_bits(*v))
            .all(|v| v.is_finite() && v.abs() < 10.0));
    }
}

#[test]
fn nan_at_the_input_is_silent_behind_the_first_node() {
    let (b, live) = board_with(&[NodeKind::Gain]);
    live.get("n0").unwrap().bypass.store(true, std::sync::atomic::Ordering::Relaxed);
    let mut s = build(&b, &live, 48000.0).unwrap();
    let mut out = new_buf();
    fill(&mut s, 4, 0.25);
    s.input_mut()[0][1] = f32::NAN.to_bits();
    s.input_mut()[1][2] = f32::INFINITY.to_bits();
    s.run(4, &mut out);
    let left: Vec<f32> = out[0][..4].iter().map(|v| f32::from_bits(*v)).collect();
    let right: Vec<f32> = out[1][..4].iter().map(|v| f32::from_bits(*v)).collect();
    assert_eq!(left, vec![0.25, 0.0, 0.25, 0.25]);
    assert_eq!(right, vec![0.25, 0.25, 0.0, 0.25]);
    assert_eq!(f32::from_bits(live.get("n0").unwrap().meter.take()), 0.25);
    assert_eq!(live.get("n0").unwrap().meter.take(), 0);
}

#[test]
fn bypassed_node_passes_its_mix_on() {
    let (b, live) = board_with(&[NodeKind::Gain]);
    live.get("n0").unwrap().params[0].set((-60f32).to_bits());
    let mut s = build(&b, &live, 48000.0).unwrap();
    let mut out = new_buf();
    live.get("n0").unwrap().bypass.store(true, std::sync::atomic::Ordering::Relaxed);
    fill(&mut s, 8, 0.5);
    s.run(8, &mut out);
    assert_eq!(f32::from_bits(out[1][7]), 0.5);
}

#[test]
fn parallel_paths_are_summed() {
    let mut b = Board::default();
    let mut live = Table::new();
    for id in ["a", "b"] {
        let n = NodeDesc {
            id: id.to_string(),
            kind: NodeKind::Gain,
            params: Table::new(),
            bypass: true,
            x: 0,
            y: 0,
        };
        live.insert(n.id.clone(), LiveNode::from_desc(&n));
        b.nodes.push(n);
        b.connections.push(wire(INPUT_ID, id));
        b.connections.push(wire(id, OUTPUT_ID));
    }
    let mut s = build(&b, &live, 48000.0).unwrap();
    let mut out = new_buf();
    fill(&mut s, 16, 0.125);
    s.run(16, &mut out);
    // The straight cable of the default board, and the two nodes.
    assert_eq!(f32::from_bits(out[0][15]), 0.375);
    // What is behind the block is left alone.
    assert_eq!(out[0][16], 0);
}

#[test]
fn cables_are_refused_for_a_reason() {
    let (b, _) = board_with(&[NodeKind::Gain, NodeKind::Delay]);
    assert_eq!(b.can_connect(&wire("n0", "n9")), Err("unknown node".to_string()));
    assert_eq!(b.can_connect(&wire("n9", "n0")), Err("unknown node".to_string()));
    assert_eq!(b.can_connect(&wire(OUTPUT_ID, "n0")), Err("invalid direction".to_string()));
    assert_eq!(b.can_connect(&wire("n0", INPUT_ID)), Err("invalid direction".to_string()));
    assert_eq!(b.can_connect(&wire("n0", "n0")), Err("invalid direction".to_string()));
    assert_eq!(b.can_connect(&wire("n0", "n1")), Err("already connected".to_string()));
    assert_eq!(
        b.can_connect(&wire("n1", "n0")),
        Err("connection would create a feedback loop".to_string())
    );
    assert_eq!(b.can_connect(&wire(INPUT_ID, "n1")), Ok(()));
}

#[test]
fn order_follows_the_cables() {
    let (mut b, _) = board_with(&[NodeKind::Gain, NodeKind::Drive, NodeKind::Delay]);
    assert_eq!(b.topo_order(), Ok(vec!["n0".to_string(), "n1".to_string(), "n2".to_string()]));
    b.nodes.reverse();
    assert_eq!(b.topo_order(), Ok(vec!["n0".to_string(), "n1".to_string(), "n2".to_string()]));
    b.connections.push(wire("n2", "n0"));
    assert_eq!(b.topo_order(), Err("connection would create a feedback loop".to_string()));
}

#[test]
fn board_without_its_live_nodes_does_not_compile() {
    let (b, mut live) = board_with(&[NodeKind::Gain, NodeKind::Drive]);
    live.remove("n1");
    assert!(matches!(Schedule::plan(&b, &live), Err(e) if e == "missing live node n1"));
    let (mut b, live) = board_with(&[NodeKind::Gain]);
    b.connections.push(wire("n0", "n0"));
    assert!(matches!(Schedule::plan(&b, &live), Err(e) if e == "connection would create a feedback loop"));
}

#[test]
fn taking_away_a_cable_undoes_putting_it_in() {
    let (mut b, _) = board_with(&[NodeKind::Gain, NodeKind::Delay]);
    let before = b.connections.clone();
    let c = wire(INPUT_ID, "n1");
    assert!(b.can_connect(&c).is_ok());
    b.connections.push(c.clone());
    b.drop_connection(&c);
    assert_eq!(b.connections, before);
    b.drop_node("n0");
    assert_eq!(b.nodes.len(), 1);
    assert_eq!(b.connections, vec![wire("n1", OUTPUT_ID)]);
}

#[test]
fn live_node_takes_its_values_from_the_description() {
    let mut params = Table::new();
    params.insert("freq".to_string(), 5f32.to_bits());
    params.insert("mode".to_string(), 1.5f32.to_bits());
    params.insert("q".to_string(), f32::NAN.to_bits());
    let n = NodeDesc { id: "f".into(), kind: NodeKind::Filter, params, bypass: true, x: 0, y: 0 };
    let live = LiveNode::from_desc(&n);
    let values: Vec<f32> = live.params.iter().map(|p| f32::from_bits(p.get())).collect();
    assert_eq!(values, vec![2.0, 20.0, 0.707, 0.0]);
    assert_eq!(live.values, vec![2f32.to_bits(), 20f32.to_bits(), 0.707f32.to_bits(), 0]);
    assert!(live.bypassed);
    assert!(live.bypass.load(std::sync::atomic::Ordering::Relaxed));
}

#[test]
fn straight_cable_passes_the_input() {
    let (b, live) = board_with(&[]);
    let mut s = build(&b, &live, 48000.0).unwrap();
    let mut out = new_buf();
    out[0][4] = 9;
    let row = [0.25f32, -0.5, -0.0, 3.0e-42];
    for i in 0..4 {
        s.input_mut()[0][i] = row[i].to_bits();
        s.input_mut()[1][i] = (-row[i]).to_bits();
    }
    s.run(4, &mut out);
    assert_eq!(out[0][..5], [0.25f32.to_bits(), (-0.5f32).to_bits(), 0, 3.0e-42f32.to_bits(), 9]);
    assert_eq!(out[1][..4], [(-0.25f32).to_bits(), 0.5f32.to_bits(), 0, (-3.0e-42f32).to_bits()]);
    // The input stays where it is.
    assert_eq!(s.input_mut()[0][0], 0.25f32.to_bits());
}

#[test]
fn a_running_schedule_obeys_its_live_node() {
    let (b, mut live) = board_with(&[NodeKind::Gain]);
    let mut s = build(&b, &live, 48000.0).unwrap();
    let mut out = new_buf();
    live.get_mut("n0").unwrap().set_bypass(true);
    fill(&mut s, 8, 0.5);
    s.run(8, &mut out);
    assert_eq!(f32::from_bits(out[0][7]), 0.5);
    let n = live.get_mut("n0").unwrap();
    n.set_bypass(false);
    n.set_value(0, (-60f32).to_bits());
    assert_eq!(f32::from_bits(n.params[0].get()), -60.0);
    for _ in 0..200 {
        fill(&mut s, 256, 0.5);
        s.run(256, &mut out);
    }
    assert!((f32::from_bits(out[0][255]) - 0.0005).abs() < 1e-5);
    assert_eq!(f32::from_bits(live.get("n0").unwrap().meter.take()), 0.5);
}

#[test]
fn three_branches_make_three_quarters() {
    let (mut b, live) = board_with(&[NodeKind::Gain, NodeKind::Gain]);
    b.connections = vec![
        wire(INPUT_ID, "n0"),
        wire(INPUT_ID, "n1"),
        wire("n0", OUTPUT_ID),
        wire("n1", OUTPUT_ID),
        wire(INPUT_ID, OUTPUT_ID),
    ];
    let mut s = build(&b, &live, 48000.0).unwrap();
    let mut out = new_buf();
    fill(&mut s, 512, 0.25);
    s.run(4, &mut out);
    assert_eq!(out[0][..4], [0.75f32.to_bits(); 4]);
    assert_eq!(out[1][..4], [0.75f32.to_bits(); 4]);
    assert_eq!(out[0][4], 0);
}

#[test]
fn meter_holds_the_peak_until_it_is_taken() {
    let (b, live) = board_with(&[NodeKind::Gain]);
    let mut s = build(&b, &live, 48000.0).unwrap();
    let mut out = new_buf();
    s.input_mut()[0][0] = 0.25f32.to_bits();
    s.input_mut()[0][1] = (-0.5f32).to_bits();
    s.input_mut()[1][0] = 0.125f32.to_bits();
    s.run(2, &mut out);
    assert_eq!(f32::from_bits(live.get("n0").unwrap().meter.get()), 0.5);
    fill(&mut s, 512, 0.0);
    s.run(2, &mut out);
    assert_eq!(f32::from_bits(live.get("n0").unwrap().meter.get()), 0.5);
}

#[test]
fn live_node_has_the_settings_of_its_description() {
    let mut params = Table::new();
    params.insert("bogus".to_string(), 1f32.to_bits());
    params.insert("mode".to_string(), 7.6f32.to_bits());
    params.insert("q".to_string(), 2f32.to_bits());
    let n = LiveNode::from_desc(&NodeDesc {
        id: "n1".to_string(),
        kind: NodeKind::Filter,
        params,
        bypass: true,
        x: 0,
        y: 0,
    });
    let cells: Vec<f32> = n.params.iter().map(|c| f32::from_bits(c.get())).collect();
    assert_eq!(cells, vec![3.0, 1000.0, 2.0, 0.0]);
    assert!(n.bypass.load(std::sync::atomic::Ordering::Relaxed));
    assert_eq!(n.meter.get(), 0);
}

/// Gives out what came in last time, and leaves its output channels in odd sizes.
struct Late {
    held: Vec<u32>,
    size: usize,
}

impl Processor for Late {
    fn process(&mut self, _p: &Vec<AtomicF32>, i: &Buf, o: &mut Buf, n: usize) {
        let now = i[0][..n].to_vec();
        for ch in 0..2 {
            o[ch] = self.held.clone();
            o[ch].resize(self.size, 1f32.to_bits());
        }
        self.held = now;
    }
}

fn late(size: usize) -> Schedule {
    let (b, live) = board_with(&[NodeKind::Gain]);
    let plan = Schedule::plan(&b, &live).unwrap();
    Schedule::build(plan, vec![Box::new(Late { held: vec![], size })])
}

#[test]
fn processors_keep_their_memory_from_block_to_block() {
    let mut s = late(512);
    let mut out = new_buf();
    fill(&mut s, 4, 0.25);
    s.run(4, &mut out);
    fill(&mut s, 4, 0.5);
    s.run(4, &mut out);
    assert_eq!(out[0][..4], [0.25f32.to_bits(); 4]);
    // A schedule built anew has forgotten all.
    let mut s = late(512);
    s.run(4, &mut out);
    assert_eq!(out[0][..4], [1f32.to_bits(); 4]);
}

#[test]
fn output_channels_are_cut_and_filled_up() {
    let mut out = new_buf();
    for (size, past) in [(6, 0f32), (600, 1.0)] {
        let mut s = late(size);
        fill(&mut s, 512, 0.25);
        s.run(6, &mut out);
        s.run(8, &mut out);
        assert_eq!(out[1][..6], [0.25f32.to_bits(); 6]);
        assert_eq!(out[1][6..8], [past.to_bits(); 2]);
    }
}

#[test]
fn parts_make_the_whole() {
    let kinds = [NodeKind::Gain, NodeKind::Drive, NodeKind::Delay, NodeKind::Tremolo];
    let (b, live) = board_with(&kinds);
    let (c, also) = board_with(&kinds);
    let mut whole = build(&b, &live, 48000.0).unwrap();
    let mut parts = build(&c, &also, 48000.0).unwrap();
    let wave = |k: usize| ((k as f32 * 0.07).sin() * 0.6).to_bits();
    let mut out = new_buf();
    let mut first = new_buf();
    let mut second = new_buf();
    for k in 0..300 {
        for ch in 0..2 {
            whole.input_mut()[ch][k] = wave(k);
            if k < 100 {
                parts.input_mut()[ch][k] = wave(k);
            }
        }
    }
    whole.run(300, &mut out);
    parts.run(100, &mut first);
    for k in 0..200 {
        for ch in 0..2 {
            parts.input_mut()[ch][k] = wave(100 + k);
        }
    }
    parts.run(200, &mut second);
    for ch in 0..2 {
        assert_eq!(out[ch][..100], first[ch][..100]);
        assert_eq!(out[ch][100..300], second[ch][..200]);
    }
    for id in ["n0", "n1", "n2", "n3"] {
        assert_eq!(live.get(id).unwrap().meter.get(), also.get(id).unwrap().meter.get());
    }
}

#[test]
fn built_anew_behaves_the_same() {
    let (b, live) = board_with(&NodeKind::all());
    let play = |s: &mut Schedule| -> Vec<u32> {
        let mut all = Vec::new();
        let mut out = new_buf();
        for t in 0..20 {
            for ch in 0..2 {
                for k in 0..64 {
                    s.input_mut()[ch][k] = (((t * 64 + k) as f32 * 0.03).sin() * 0.5).to_bits();
                }
            }
            s.run(64, &mut out);
            all.extend_from_slice(&out[0][..64]);
        }
        all
    };
    let mut s = build(&b, &live, 48000.0).unwrap();
    let once = play(&mut s);
    let mut t = build(&b, &live, 48000.0).unwrap();
    assert_eq!(play(&mut t), once);
    // The first goes on from where it is.
    assert_ne!(play(&mut s), once);
}

#[test]
fn small_samples_may_count_as_zero() {
    let (b, live) = board_with(&[]);
    let mut s = build(&b, &live, 48000.0).unwrap();
    let mut out = new_buf();
    s.flush_small(true);
    s.input_mut()[0][0] = 3.0e-42f32.to_bits();
    s.input_mut()[0][1] = f32::MIN_POSITIVE.to_bits();
    s.run(2, &mut out);
    assert_eq!(out[0][..2], [0, f32::MIN_POSITIVE.to_bits()]);
}

#[test]
fn device_cables_do_not_change_the_order() {
    let (mut b, _) = board_with(&[NodeKind::Gain, NodeKind::Drive, NodeKind::Delay]);
    let order = b.topo_order();
    b.connections.insert(0, wire(INPUT_ID, "n2"));
    b.connections.push(wire("n0", OUTPUT_ID));
    b.connections.push(wire(INPUT_ID, OUTPUT_ID));
    b.connections.push(wire("gone", OUTPUT_ID));
    assert_eq!(b.topo_order(), order);
}
