//! The state that all clients share: the board, the live nodes behind it, and the engine.
//!
//! Compiling a board needs processors, which are made elsewhere. So a change of the board
//! goes in turns: it is made here, the processors are asked for with a [`Turn`], and the
//! schedule with them is handed to the engine here again.
use crate::audio::{AudioConfig, EngineStats, RunningInfo};
use crate::audio;
use crate::engine::AudioEngine;
use crate::graph::{Board, Connection, NodeDesc};
use crate::graph;
use crate::nodes::{NodeKind, ParamSpec, Processor};
use crate::nodes;
use crate::order;
use crate::sample;
use crate::schedule::{LiveNode, Plan, Schedule};
use crate::schedule;
use crate::table::Table;
use crate::text;
use std::sync::atomic::Ordering;
use vstd::prelude::*;

verus! {

/// What is shared between the clients.
pub struct Inner {
    pub board: Board,
    pub live: Table<LiveNode>,
    pub engine: Option<AudioEngine>,
    pub audio_cfg: AudioConfig,
    pub last_error: Option<String>,
}

/// The application: what is shared, and whether the board has changed since it was saved.
pub struct App {
    pub inner: Inner,
    pub dirty: bool,
}

/// What all clients are told.
pub enum Event {
    /// The board has another structure.
    Board,
    /// Audio has started, has stopped, or could not start.
    Audio { running: Option<RunningInfo>, error: Option<String> },
    /// A client has set a parameter.
    Param { node: String, param: String, value: u32, src: u64 },
    /// A client has switched a node.
    Bypass { node: String, on: bool, src: u64 },
    /// A client has moved a node.
    Move { node: String, x: u32, y: u32, src: u64 },
}

/// What an event says.
pub ghost enum EventView {
    Board,
    Audio { running: Option<audio::InfoView>, error: Option<Seq<char>> },
    Param { node: Seq<char>, param: Seq<char>, value: u32, src: u64 },
    Bypass { node: Seq<char>, on: bool, src: u64 },
    Move { node: Seq<char>, x: u32, y: u32, src: u64 },
}

impl View for Event {
    type V = EventView;

    open spec fn view(&self) -> EventView {
        match self {
            Event::Board => EventView::Board,
            Event::Audio { running, error } => EventView::Audio {
                running: match running {
                    Some(i) => Some(i@),
                    None => None,
                },
                error: audio::maybe(*error),
            },
            Event::Param { node, param, value, src } => EventView::Param {
                node: node@,
                param: param@,
                value: *value,
                src: *src,
            },
            Event::Bypass { node, on, src } => EventView::Bypass { node: node@, on: *on, src: *src },
            Event::Move { node, x, y, src } => EventView::Move {
                node: node@,
                x: *x,
                y: *y,
                src: *src,
            },
        }
    }
}

/// A change that the audio callback has to follow.
pub enum Change {
    Added { desc: NodeDesc },
    Removed { id: String },
    Rewired,
    Started { info: RunningInfo },
}

/// What clients are told once a change is in effect.
pub open spec fn told(change: Change) -> EventView {
    match change {
        Change::Started { info } => EventView::Audio { running: Some(info@), error: None },
        _ => EventView::Board,
    }
}

/// A change that adds a node as described.
pub open spec fn adds(change: Change, d: NodeDesc) -> bool {
    change matches Change::Added { desc } && desc.says(d)
}

/// A change that takes a node away.
pub open spec fn removes(change: Change, id: Seq<char>) -> bool {
    change matches Change::Removed { id: gone } && gone@ == id
}

/// How a change goes on.
pub enum Turn {
    /// Make a processor of each kind in the plan, for this rate, and hand all that back.
    Build { plan: Plan, rate: u32, change: Change },
    /// It is in effect, and this is to be told.
    Done { change: Change, event: Event },
    /// The audio callback goes on as before. This is why, and perhaps to be told.
    Failed { reason: String, event: Option<Event> },
}

/// A live node is as a description says.
pub open spec fn in_step(n: LiveNode, d: NodeDesc) -> bool {
    &&& n.wf()
    &&& n.kind == d.kind
    &&& n.values@ == schedule::live_values(d.kind, d.params@)
    &&& n.bypassed == d.bypass
}

/// The parameters of a new node.
pub open spec fn default_params(kind: NodeKind) -> Map<Seq<char>, u32> {
    with_defaults(kind, nodes::kind_params(kind).len() as int)
}

/// The first `k` parameters of a new node.
pub open spec fn with_defaults(kind: NodeKind, k: int) -> Map<Seq<char>, u32>
    decreases k,
{
    if k <= 0 {
        Map::empty()
    } else {
        with_defaults(kind, k - 1).insert(
            nodes::kind_params(kind)[k - 1].id,
            nodes::kind_params(kind)[k - 1].default,
        )
    }
}

impl Inner {
    /// Every live node has its cells, no name stands twice in their table, and the board is
    /// of a size that can be counted.
    pub open spec fn wf(&self) -> bool {
        &&& forall|id: Seq<char>| #[trigger]
            self.live@.dom().contains(id) ==> self.live@[id].wf()
        &&& self.live.distinct()
        &&& self.board.nodes@.len() < usize::MAX
    }

    /// Everything but the board and the live nodes is as it was.
    pub open spec fn same_audio(&self, before: Inner) -> bool {
        &&& self.engine == before.engine
        &&& self.audio_cfg == before.audio_cfg
        &&& self.last_error == before.last_error
    }

    /// Why the board cannot be compiled, if it cannot.
    pub open spec fn unplannable(&self) -> Option<Seq<char>> {
        schedule::unplannable(self.board.ids(), self.board.wires(), self.live@.dom())
    }
}

/// The number that the next node gets.
pub open spec fn next_number(board: Board) -> nat {
    if board.next_id == 0 {
        1
    } else {
        board.next_id as nat
    }
}

/// A node has been added, named by the next number, with its parameters at their defaults.
pub open spec fn node_added(before: Inner, since: Inner, kind: NodeKind, x: u32, y: u32) -> bool {
    let d = since.board.nodes@.last();
    &&& since.board.next_id == next_number(before.board) + 1
    &&& since.board.name == before.board.name
    &&& since.board.connections == before.board.connections
    &&& since.board.nodes@ == before.board.nodes@.push(d)
    &&& d.id@ == graph::numbered_id(next_number(before.board))
    &&& d.kind == kind
    &&& d.params@ == default_params(kind)
    &&& !d.bypass
    &&& d.x == x
    &&& d.y == y
    &&& since.live@ == before.live@.insert(d.id@, since.live@[d.id@])
    &&& in_step(since.live@[d.id@], d)
    &&& since.live@[d.id@].newly_made()
    &&& since.same_audio(before)
}

/// The nodes of a name have been taken away with their cables, and when that is in effect the
/// live node too.
pub open spec fn node_removed(before: Inner, since: Inner, id: Seq<char>, done: bool) -> bool {
    &&& since.board.nodes@ == graph::without_named(before.board.nodes@, id)
    &&& since.board.wires() == graph::without_ends(before.board.wires(), id)
    &&& since.board.name == before.board.name
    &&& since.board.next_id == before.board.next_id
    &&& since.live@ == if done {
        before.live@.remove(id)
    } else {
        before.live@
    }
    &&& since.same_audio(before)
}

/// The board has other cables.
pub open spec fn rewired(
    before: Inner,
    since: Inner,
    wires: Seq<(Seq<char>, Seq<char>)>,
) -> bool {
    &&& since.board.wires() == wires
    &&& since.board.nodes == before.board.nodes
    &&& since.board.name == before.board.name
    &&& since.board.next_id == before.board.next_id
    &&& since.live@ == before.live@
    &&& since.same_audio(before)
}

/// How the compilation of a board goes on, when it has just been changed.
pub open spec fn turned(inner: Inner, change: Change, r: Turn) -> bool {
    match inner.engine {
        None => r matches Turn::Done { change: c, event } && c == change && event@ == told(change),
        Some(e) => match inner.unplannable() {
            Some(why) => r matches Turn::Failed { reason, event } && reason@ == why && event
                is None,
            None => r matches Turn::Build { plan, rate, change: c } && c == change && rate
                == e.info.sample_rate && plan.realises(
                inner.board.ids(),
                inner.board.wires(),
                inner.live@,
            ),
        },
    }
}

/// What a change leaves to do once it is in effect: the live node of a node that was taken
/// away goes too.
pub open spec fn live_settled(live: Map<Seq<char>, LiveNode>, change: Change) -> Map<
    Seq<char>,
    LiveNode,
> {
    match change {
        Change::Removed { id } => live.remove(id@),
        _ => live,
    }
}

/// The default value of every parameter of a kind.
fn defaults(kind: NodeKind) -> (r: Table<u32>)
    ensures
        r@ == default_params(kind),
{
    let specs = kind.params();
    let mut r: Table<u32> = Table::new();
    let mut i: usize = 0;
    assert(nodes::views(specs@).len() == specs@.len());
    while i < specs.len()
        invariant
            i <= specs@.len(),
            nodes::views(specs@) == nodes::kind_params(kind),
            specs@.len() == nodes::kind_params(kind).len(),
            r@ == with_defaults(kind, i as int),
        decreases specs@.len() - i,
    {
        assert(nodes::views(specs@)[i as int] == specs@[i as int]@);
        r.insert(specs[i].id.to_owned(), specs[i].default);
        i += 1;
    }
    r
}

impl App {
    /// A change is in effect.
    fn settle(&mut self, change: Change) -> (r: Turn)
        requires
            old(self).inner.wf(),
        ensures
            final(self).inner.wf(),
            final(self).inner.live@ == live_settled(old(self).inner.live@, change),
            final(self).inner.board == old(self).inner.board,
            final(self).inner.engine == old(self).inner.engine,
            final(self).inner.audio_cfg == old(self).inner.audio_cfg,
            final(self).inner.last_error == old(self).inner.last_error,
            final(self).dirty == (old(self).dirty || !(change is Started)),
            r matches Turn::Done { change: c, event } && c == change && event@ == told(change),
    {
        match &change {
            Change::Removed { id } => {
                self.inner.live.remove(id.as_str());
                self.dirty = true;
            },
            Change::Started { info } => {
                let event = Event::Audio { running: Some(info.clone()), error: None };
                return Turn::Done { change, event };
            },
            _ => {
                self.dirty = true;
            },
        }
        Turn::Done { change, event: Event::Board }
    }

    /// Recompiles the graph for the audio thread, if there is one.
    fn rebuild(&mut self, change: Change) -> (r: Turn)
        requires
            old(self).inner.wf(),
        ensures
            final(self).inner.wf(),
            turned(old(self).inner, change, r),
            final(self).inner.board == old(self).inner.board,
            final(self).inner.engine == old(self).inner.engine,
            final(self).inner.audio_cfg == old(self).inner.audio_cfg,
            final(self).inner.last_error == old(self).inner.last_error,
            final(self).inner.live@ == if r is Done {
                live_settled(old(self).inner.live@, change)
            } else {
                old(self).inner.live@
            },
            final(self).dirty == (old(self).dirty || r is Done && !(change is Started)),
    {
        let rate = match &self.inner.engine {
            Some(e) => e.info.sample_rate,
            None => {
                return self.settle(change);
            },
        };
        match Schedule::plan(&self.inner.board, &self.inner.live) {
            Ok(plan) => Turn::Build { plan, rate, change },
            Err(reason) => Turn::Failed { reason, event: None },
        }
    }

    /// Hands the board, compiled with its processors, to the audio thread.
    pub fn built(&mut self, plan: Plan, procs: Vec<Box<dyn Processor>>, change: Change) -> (r: Turn)
        requires
            old(self).inner.wf(),
            plan.wf(),
            procs@.len() == plan.kinds_in_order().len(),
        ensures
            final(self).inner.wf(),
            final(self).inner.board == old(self).inner.board,
            final(self).inner.audio_cfg == old(self).inner.audio_cfg,
            final(self).inner.last_error == old(self).inner.last_error,
            final(self).inner.live@ == if r is Done {
                live_settled(old(self).inner.live@, change)
            } else {
                old(self).inner.live@
            },
            final(self).dirty == (old(self).dirty || r is Done && !(change is Started)),
            match r {
                Turn::Done { change: c, event } => c == change && event@ == told(change),
                Turn::Failed { reason, event } => reason@ == "schedule queue full"@ && event
                    is None,
                Turn::Build { plan, rate, change } => false,
            },
            match (old(self).inner.engine, final(self).inner.engine) {
                (None, None) => r is Done,
                (Some(e), Some(f)) => {
                    &&& f.info == e.info
                    &&& e.room() > 0 ==> r is Done
                    &&& e.freed().is_prefix_of(f.freed())
                    &&& f.freed().len() >= e.freed().len() + e.retired()
                    &&& if r is Done {
                        exists|s: Schedule|
                            {
                                &&& f.sent() == #[trigger] e.sent().push(s)
                                &&& s.fed_by() == plan.fed_by()
                                &&& s.out_fed_by() == plan.out_fed_by()
                                &&& s.processors() == procs@
                                &&& s.is_new()
                                &&& forall|i: int, n: LiveNode|
                                    0 <= i < procs@.len() && plan.listens_to(i, n)
                                        ==> #[trigger] s.listens_to(i, n)
                            }
                    } else {
                        f.sent() == e.sent() && f.room() == 0
                    }
                },
                _ => false,
            },
    {
        match &mut self.inner.engine {
            Some(e) => {
                let s = Schedule::build(plan, procs);
                match e.send_schedule(s) {
                    Ok(()) => {},
                    Err(reason) => {
                        return Turn::Failed { reason, event: None };
                    },
                }
            },
            None => {},
        }
        self.settle(change)
    }
}

/// The live nodes for some descriptions; of two with one name, the later counts.
fn live_nodes(nodes: &Vec<NodeDesc>) -> (r: Table<LiveNode>)
    ensures
        r.distinct(),
        forall|id: Seq<char>| #[trigger]
            r@.dom().contains(id) ==> r@[id].wf() && r@[id].newly_made(),
        forall|id: Seq<char>| #[trigger]
            r@.dom().contains(id) <==> graph::ids_of(nodes@).contains(id),
        forall|i: int|
            0 <= i < nodes@.len() && is_latest(nodes@, i) ==> in_step(
                r@[(#[trigger] nodes@[i]).id@],
                nodes@[i],
            ),
{
    let mut r: Table<LiveNode> = Table::new();
    let mut k: usize = 0;
    while k < nodes.len()
        invariant
            k <= nodes@.len(),
            r.distinct(),
            forall|id: Seq<char>| #[trigger]
                r@.dom().contains(id) ==> r@[id].wf() && r@[id].newly_made(),
            forall|id: Seq<char>| #[trigger]
                r@.dom().contains(id) ==> graph::ids_of(nodes@).contains(id),
            forall|i: int| 0 <= i < k ==> r@.dom().contains((#[trigger] nodes@[i]).id@),
            forall|i: int|
                0 <= i < k && is_latest(nodes@, i) ==> in_step(
                    r@[(#[trigger] nodes@[i]).id@],
                    nodes@[i],
                ),
        decreases nodes@.len() - k,
    {
        let d = &nodes[k];
        r.insert(d.id.clone(), LiveNode::from_desc(d));
        proof {
            assert(graph::ids_of(nodes@)[k as int] == d.id@);
            assert forall|i: int| 0 <= i < k + 1 && is_latest(nodes@, i) implies in_step(
                r@[(#[trigger] nodes@[i]).id@],
                nodes@[i],
            ) by {
                if i < k {
                    assert(nodes@[i].id@ != nodes@[k as int].id@);
                }
            }
        }
        k += 1;
    }
    proof {
        assert forall|id: Seq<char>| graph::ids_of(nodes@).contains(id) implies #[trigger]
            r@.dom().contains(id) by {
            let i = choose|i: int| 0 <= i < nodes@.len() && graph::ids_of(nodes@)[i] == id;
            assert(nodes@[i].id@ == id);
        }
    }
    r
}

/// No later description has the name of this one.
pub open spec fn is_latest(nodes: Seq<NodeDesc>, i: int) -> bool {
    forall|j: int| i < j < nodes.len() ==> (#[trigger] nodes[j]).id@ != nodes[i].id@
}

impl App {
    /// The state for a board and a configuration that were saved, or for the default ones where
    /// nothing was, or nothing that can be read. Audio does not run yet.
    pub fn new(saved: Option<Board>, saved_cfg: Option<AudioConfig>) -> (r: Self)
        requires
            saved is Some ==> saved->0.nodes@.len() < usize::MAX,
        ensures
            r.inner.wf(),
            match saved {
                Some(board) => r.inner.board == board,
                None => {
                    &&& r.inner.board.name@ == "Default"@
                    &&& r.inner.board.nodes@.len() == 0
                    &&& r.inner.board.wires() == seq![(graph::INPUT_ID@, graph::OUTPUT_ID@)]
                    &&& r.inner.board.next_id == 1
                },
            },
            match saved_cfg {
                Some(cfg) => r.inner.audio_cfg == cfg,
                None => {
                    &&& r.inner.audio_cfg.host is None
                    &&& r.inner.audio_cfg.input is None
                    &&& r.inner.audio_cfg.output is None
                    &&& r.inner.audio_cfg.buffer is None
                    &&& !r.inner.audio_cfg.no_input
                },
            },
            r.inner.engine is None,
            r.inner.last_error is None,
            !r.dirty,
            forall|id: Seq<char>| #[trigger]
                r.inner.live@.dom().contains(id) <==> r.inner.board.ids().contains(id),
            forall|id: Seq<char>| #[trigger]
                r.inner.live@.dom().contains(id) ==> r.inner.live@[id].newly_made(),
            forall|i: int|
                0 <= i < r.inner.board.nodes@.len() && is_latest(r.inner.board.nodes@, i)
                    ==> in_step(
                    r.inner.live@[(#[trigger] r.inner.board.nodes@[i]).id@],
                    r.inner.board.nodes@[i],
                ),
    {
        let board = match saved {
            Some(board) => board,
            None => Board::default(),
        };
        let audio_cfg = match saved_cfg {
            Some(cfg) => cfg,
            None => AudioConfig::default(),
        };
        let live = live_nodes(&board.nodes);
        App { inner: Inner { board, live, engine: None, audio_cfg, last_error: None }, dirty: false }
    }

    /// Adds a node, with a name of its own and its parameters at their defaults.
    pub fn add_node(&mut self, kind: NodeKind, x: u32, y: u32) -> (r: Turn)
        requires
            old(self).inner.wf(),
            old(self).inner.board.next_id < u32::MAX,
            old(self).inner.board.nodes@.len() < usize::MAX - 1,
        ensures
            final(self).inner.wf(),
            node_added(old(self).inner, final(self).inner, kind, x, y),
            exists|change: Change| #[trigger]
                turned(final(self).inner, change, r) && adds(
                    change,
                    final(self).inner.board.nodes@.last(),
                ),
            final(self).dirty == (old(self).dirty || r is Done),
    {
        let number: u32 = if self.inner.board.next_id == 0 {
            1
        } else {
            self.inner.board.next_id
        };
        let id = text::numbered("n", number);
        self.inner.board.next_id = number + 1;
        let desc = NodeDesc { id, kind, params: defaults(kind), bypass: false, x, y };
        self.inner.live.insert(desc.id.clone(), LiveNode::from_desc(&desc));
        let copy = desc.copy();
        self.inner.board.nodes.push(copy);
        let ghost since = self.inner;
        let ghost change = Change::Added { desc };
        let r = self.rebuild(Change::Added { desc });
        proof {
            assert(turned(since, change, r));
            assert(turned(self.inner, change, r));
            let d = self.inner.board.nodes@.last();
            assert(d.says(desc));
            assert(self.inner.live@ =~= old(self).inner.live@.insert(d.id@, self.inner.live@[d.id@]));
            assert(adds(change, d));
        }
        r
    }

    /// Takes a node away, and the cables that begin or end there. Its live node goes when the
    /// audio thread has been told.
    pub fn remove_node(&mut self, id: &str) -> (r: Turn)
        requires
            old(self).inner.wf(),
        ensures
            final(self).inner.wf(),
            ({
                let before = old(self).inner;
                let since = final(self).inner;
                if order::slot(before.board.ids(), id@) < 0 {
                    &&& since == before
                    &&& r matches Turn::Failed { reason, event } && reason@ == "no such node"@
                        && event is None
                } else {
                    &&& node_removed(before, since, id@, r is Done)
                    &&& exists|change: Change| #[trigger]
                        turned(since, change, r) && removes(change, id@)
                }
            }),
            final(self).dirty == (old(self).dirty || r is Done),
    {
        if self.inner.board.node(id).is_none() {
            return Turn::Failed { reason: "no such node".to_owned(), event: None };
        }
        self.inner.board.drop_node(id);
        let ghost mid = self.inner;
        let name = id.to_owned();
        let ghost change = Change::Removed { id: name };
        proof {
            let nodes = old(self).inner.board.nodes@;
            graph::fewer_left(nodes, graph::not_named(id@));
        }
        let r = self.rebuild(Change::Removed { id: name });
        assert(turned(mid, change, r));
        assert(turned(self.inner, change, r));
        r
    }

    /// Puts a cable in.
    pub fn connect(&mut self, c: Connection) -> (r: Turn)
        requires
            old(self).inner.wf(),
        ensures
            final(self).inner.wf(),
            ({
                let before = old(self).inner;
                let since = final(self).inner;
                match graph::refusal(before.board.ids(), before.board.wires(), c@) {
                    Some(why) => {
                        &&& since == before
                        &&& r matches Turn::Failed { reason, event } && reason@ == why && event
                            is None
                    },
                    None => {
                        &&& rewired(before, since, before.board.wires().push(c@))
                        &&& turned(since, Change::Rewired, r)
                    },
                }
            }),
            final(self).dirty == (old(self).dirty || r is Done),
    {
        match self.inner.board.can_connect(&c) {
            Ok(()) => {},
            Err(reason) => {
                return Turn::Failed { reason, event: None };
            },
        }
        self.inner.board.connections.push(c);
        assert(self.inner.board.wires() =~= old(self).inner.board.wires().push(c@));
        self.rebuild(Change::Rewired)
    }

    /// Takes a cable away, if it is there.
    pub fn disconnect(&mut self, c: &Connection) -> (r: Turn)
        requires
            old(self).inner.wf(),
        ensures
            final(self).inner.wf(),
            rewired(
                old(self).inner,
                final(self).inner,
                graph::without_wire(old(self).inner.board.wires(), c@),
            ),
            turned(final(self).inner, Change::Rewired, r),
            final(self).dirty == (old(self).dirty || r is Done),
    {
        self.inner.board.drop_connection(c);
        self.rebuild(Change::Rewired)
    }
}

// ---------------------------------------------------------------- audio

impl App {
    /// Audio is to start, with another configuration or the one from before. What runs is
    /// stopped.
    pub fn prepare_audio(&mut self, cfg: Option<AudioConfig>)
        requires
            old(self).inner.wf(),
        ensures
            final(self).inner.wf(),
            final(self).inner.engine is None,
            final(self).inner.audio_cfg == match cfg {
                Some(c) => c,
                None => old(self).inner.audio_cfg,
            },
            final(self).inner.board == old(self).inner.board,
            final(self).inner.live == old(self).inner.live,
            final(self).inner.last_error == old(self).inner.last_error,
            final(self).dirty == old(self).dirty,
    {
        match cfg {
            Some(c) => {
                self.inner.audio_cfg = c;
            },
            None => {},
        }
        self.inner.engine = None;
    }

    /// Audio has started, or could not be started for the reason given.
    pub fn start_audio(&mut self, opened: Result<AudioEngine, String>) -> (r: Turn)
        requires
            old(self).inner.wf(),
        ensures
            final(self).inner.wf(),
            final(self).inner.board == old(self).inner.board,
            final(self).inner.live@ == old(self).inner.live@,
            final(self).inner.audio_cfg == old(self).inner.audio_cfg,
            final(self).dirty == old(self).dirty,
            match opened {
                Ok(e) => {
                    &&& final(self).inner.engine == Some(e)
                    &&& final(self).inner.last_error is None
                    &&& exists|change: Change| #[trigger]
                        turned(final(self).inner, change, r) && starts(change, e.info@)
                },
                Err(why) => {
                    &&& final(self).inner.engine == old(self).inner.engine
                    &&& audio::maybe(final(self).inner.last_error) == Some(why@)
                    &&& r matches Turn::Failed { reason, event } && reason@ == why@ && event is Some
                        && event->0@ == (EventView::Audio { running: None, error: Some(why@) })
                },
            },
    {
        match opened {
            Ok(e) => {
                let info = e.info.clone();
                let ghost change = Change::Started { info };
                self.inner.engine = Some(e);
                self.inner.last_error = None;
                let ghost mid = self.inner;
                let r = self.rebuild(Change::Started { info });
                assert(turned(mid, change, r));
                assert(turned(self.inner, change, r));
                r
            },
            Err(why) => {
                let error = why.clone();
                self.inner.last_error = Some(why.clone());
                Turn::Failed {
                    reason: why,
                    event: Some(Event::Audio { running: None, error: Some(error) }),
                }
            },
        }
    }

    /// Stops audio.
    pub fn stop_audio(&mut self) -> (r: Event)
        requires
            old(self).inner.wf(),
        ensures
            final(self).inner.wf(),
            final(self).inner.engine is None,
            final(self).inner.board == old(self).inner.board,
            final(self).inner.live == old(self).inner.live,
            final(self).inner.audio_cfg == old(self).inner.audio_cfg,
            final(self).inner.last_error == old(self).inner.last_error,
            final(self).dirty == old(self).dirty,
            r@ == (EventView::Audio { running: None, error: None }),
    {
        self.inner.engine = None;
        Event::Audio { running: None, error: None }
    }

    /// Whether the board is to be saved now. If it is, schedules that have come back are freed
    /// on the occasion.
    pub fn save_if_dirty(&mut self) -> (r: bool)
        requires
            old(self).inner.wf(),
        ensures
            r == old(self).dirty,
            !final(self).dirty,
            final(self).inner.wf(),
            final(self).inner.board == old(self).inner.board,
            final(self).inner.live == old(self).inner.live,
            final(self).inner.audio_cfg == old(self).inner.audio_cfg,
            final(self).inner.last_error == old(self).inner.last_error,
            match (old(self).inner.engine, final(self).inner.engine) {
                (None, None) => true,
                (Some(e), Some(f)) => if r {
                    &&& f.info == e.info
                    &&& f.sent() == e.sent()
                    &&& f.room() == e.room()
                    &&& e.freed().is_prefix_of(f.freed())
                    &&& f.freed().len() >= e.freed().len() + e.retired()
                } else {
                    f == e
                },
                _ => false,
            },
    {
        if !self.dirty {
            return false;
        }
        self.dirty = false;
        match &mut self.inner.engine {
            Some(e) => {
                e.collect_garbage();
            },
            None => {},
        }
        true
    }
}

/// A change that begins with audio.
pub open spec fn starts(change: Change, info: audio::InfoView) -> bool {
    change matches Change::Started { info: i } && i@ == info
}

// ---------------------------------------------------------------- what clients set

/// The names of the parameters of a kind.
pub open spec fn param_ids(kind: NodeKind) -> Seq<Seq<char>> {
    nodes::kind_params(kind).map_values(|p: nodes::ParamView| p.id)
}

/// Where a parameter stands in the list of a kind, or the length of the list.
fn find_param(specs: &Vec<ParamSpec>, param: &str, Ghost(kind): Ghost<NodeKind>) -> (r: usize)
    requires
        nodes::views(specs@) == nodes::kind_params(kind),
    ensures
        r <= specs@.len(),
        r < specs@.len() ==> order::slot(param_ids(kind), param@) == r,
        r == specs@.len() ==> order::slot(param_ids(kind), param@) == -1,
        specs@.len() == nodes::kind_params(kind).len(),
{
    let ghost ids = param_ids(kind);
    proof {
        order::slot_is_first(ids, param@);
        assert(nodes::views(specs@).len() == specs@.len());
    }
    let mut i: usize = 0;
    while i < specs.len()
        invariant
            i <= specs@.len(),
            specs@.len() == ids.len(),
            ids == param_ids(kind),
            nodes::views(specs@) == nodes::kind_params(kind),
            forall|j: int| 0 <= j < i ==> #[trigger] ids[j] != param@,
            -1 <= order::slot(ids, param@) < ids.len(),
            order::slot(ids, param@) >= 0 ==> ids[order::slot(ids, param@)] == param@,
        decreases specs@.len() - i,
    {
        assert(nodes::views(specs@)[i as int] == specs@[i as int]@);
        assert(ids[i as int] == specs@[i as int].id@);
        if text::same(specs[i].id, param) {
            proof {
                order::slot_of_first(ids, i as int);
            }
            return i;
        }
        i += 1;
    }
    i
}

/// A description with one parameter set.
pub open spec fn with_param(before: NodeDesc, since: NodeDesc, param: Seq<char>, v: u32) -> bool {
    &&& since.params@ == before.params@.insert(param, v)
    &&& since.id == before.id
    &&& since.kind == before.kind
    &&& since.bypass == before.bypass
    &&& since.x == before.x
    &&& since.y == before.y
}

/// A live node with one parameter set: the value is on record, and has been stored in the
/// cell.
pub open spec fn with_value(before: LiveNode, since: LiveNode, i: int, v: u32) -> bool {
    &&& since.values@ == before.values@.update(i, v)
    &&& since.kind == before.kind
    &&& since.params.cells() == before.params.cells()
    &&& since.params.last() == before.params.last().update(i, v)
    &&& since.params.recorded() == before.params.recorded()
    &&& since.bypass == before.bypass
    &&& since.meter == before.meter
    &&& since.bypassed == before.bypassed
    &&& nodes::stored_in(before.params.cells()[i].cell(), v)
}

/// A live node switched off or on: that is on record, and the switch has been turned.
pub open spec fn with_bypass(before: LiveNode, since: LiveNode, on: bool) -> bool {
    &&& since.values == before.values
    &&& since.kind == before.kind
    &&& since.params == before.params
    &&& since.bypass.cell() == before.bypass.cell()
    &&& since.bypass.last() == on
    &&& since.bypass.recorded() == before.bypass.recorded()
    &&& since.meter == before.meter
    &&& since.bypassed == on
    &&& nodes::turned_to(before.bypass.cell(), on)
}

/// A board on which the node in one place has been replaced, if there is such a place.
pub open spec fn with_node(before: Board, since: Board, at: int, d: NodeDesc) -> bool {
    &&& at < before.nodes@.len()
    &&& since.nodes@ == if at >= 0 {
        before.nodes@.update(at, d)
    } else {
        before.nodes@
    }
    &&& since.name == before.name
    &&& since.connections == before.connections
    &&& since.next_id == before.next_id
}

/// Why a parameter cannot be set, if it cannot.
pub open spec fn param_refusal(inner: Inner, node: Seq<char>, param: Seq<char>) -> Option<
    Seq<char>,
> {
    if !inner.live@.dom().contains(node) {
        Some("no such node"@)
    } else if order::slot(param_ids(inner.live@[node].kind), param) < 0 {
        Some("no such param"@)
    } else {
        None
    }
}

/// What a parameter becomes when a client sets it.
pub open spec fn param_setting(inner: Inner, node: Seq<char>, param: Seq<char>, value: u32) -> u32 {
    let kind = inner.live@[node].kind;
    nodes::kind_params(kind)[order::slot(param_ids(kind), param)].setting(value)
}

/// A parameter has been set: on the live node, and in the description on the board.
pub open spec fn param_set(
    before: Inner,
    since: Inner,
    node: Seq<char>,
    param: Seq<char>,
    value: u32,
) -> bool {
    let v = param_setting(before, node, param, value);
    let place = order::slot(param_ids(before.live@[node].kind), param);
    let at = order::slot(before.board.ids(), node);
    &&& since.live@ == before.live@.insert(node, since.live@[node])
    &&& with_value(before.live@[node], since.live@[node], place, v)
    &&& with_node(before.board, since.board, at, since.board.nodes@[at])
    &&& at >= 0 ==> with_param(before.board.nodes@[at], since.board.nodes@[at], param, v)
    &&& since.same_audio(before)
}

/// A node has been switched off or on: the live node, and its description on the board.
pub open spec fn bypass_set(before: Inner, since: Inner, node: Seq<char>, on: bool) -> bool {
    let at = order::slot(before.board.ids(), node);
    &&& since.live@ == before.live@.insert(node, since.live@[node])
    &&& with_bypass(before.live@[node], since.live@[node], on)
    &&& with_node(
        before.board,
        since.board,
        at,
        (NodeDesc { bypass: on, ..before.board.nodes@[at] }),
    )
    &&& since.same_audio(before)
}

/// A node has been moved.
pub open spec fn node_moved(before: Inner, since: Inner, node: Seq<char>, x: u32, y: u32) -> bool {
    let at = order::slot(before.board.ids(), node);
    &&& with_node(before.board, since.board, at, (NodeDesc { x, y, ..before.board.nodes@[at] }))
    &&& since.live == before.live
    &&& since.same_audio(before)
}

impl App {
    /// Sets a parameter to the nearest value that it can have. On the audio side this is just
    /// an atomic store.
    pub fn set_param(&mut self, node: &str, param: &str, value: u32) -> (r: Result<u32, String>)
        requires
            old(self).inner.wf(),
        ensures
            final(self).inner.wf(),
            match r {
                Ok(v) => {
                    &&& param_refusal(old(self).inner, node@, param@) is None
                    &&& v == param_setting(old(self).inner, node@, param@, value)
                    &&& param_set(old(self).inner, final(self).inner, node@, param@, value)
                    &&& final(self).dirty
                },
                Err(e) => {
                    &&& param_refusal(old(self).inner, node@, param@) == Some(e@)
                    &&& *final(self) == *old(self)
                },
            },
    {
        let ghost before = self.inner;
        let kind = match self.inner.live.get(node) {
            Some(ln) => ln.kind,
            None => {
                return Err("no such node".to_owned());
            },
        };
        let specs = kind.params();
        let idx = find_param(&specs, param, Ghost(kind));
        if idx >= specs.len() {
            return Err("no such param".to_owned());
        }
        proof {
            nodes::every_parameter_is_sound(kind, idx as int);
            assert(nodes::views(specs@)[idx as int] == specs@[idx as int]@);
        }
        let v = specs[idx].clamp(value);
        match self.inner.live.get_mut(node) {
            Some(ln) => {
                ln.set_value(idx, v);
            },
            None => {},
        }
        match self.inner.board.node_mut(node) {
            Some(d) => {
                d.params.insert(param.to_owned(), v);
            },
            None => {},
        }
        self.dirty = true;
        Ok(v)
    }

    /// Switches a node off or on. On the audio side this is just an atomic store.
    pub fn set_bypass(&mut self, node: &str, on: bool) -> (r: Result<(), String>)
        requires
            old(self).inner.wf(),
        ensures
            final(self).inner.wf(),
            match r {
                Ok(()) => {
                    &&& old(self).inner.live@.dom().contains(node@)
                    &&& bypass_set(old(self).inner, final(self).inner, node@, on)
                    &&& final(self).dirty
                },
                Err(e) => {
                    &&& !old(self).inner.live@.dom().contains(node@)
                    &&& e@ == "no such node"@
                    &&& *final(self) == *old(self)
                },
            },
    {
        match self.inner.live.get_mut(node) {
            Some(ln) => {
                ln.set_bypass(on);
            },
            None => {
                return Err("no such node".to_owned());
            },
        }
        match self.inner.board.node_mut(node) {
            Some(d) => {
                d.bypass = on;
            },
            None => {},
        }
        self.dirty = true;
        Ok(())
    }

    /// Moves a node on the screen, if it is there.
    pub fn move_node(&mut self, node: &str, x: u32, y: u32)
        requires
            old(self).inner.wf(),
        ensures
            final(self).inner.wf(),
            node_moved(old(self).inner, final(self).inner, node@, x, y),
            final(self).dirty == (old(self).dirty || order::slot(old(self).inner.board.ids(), node@)
                >= 0),
    {
        match self.inner.board.node_mut(node) {
            Some(d) => {
                d.x = x;
                d.y = y;
                self.dirty = true;
            },
            None => {},
        }
    }
}

/// What a client says over its socket. Numbers are patterns.
pub enum ClientMsg {
    Param { node: String, param: String, value: u32 },
    Bypass { node: String, on: bool },
    Move { node: String, x: u32, y: u32 },
}

impl App {
    /// Does what a client says, and tells the others of it. What cannot be done is passed over
    /// in silence; a move is told in any case.
    pub fn handle(&mut self, me: u64, msg: ClientMsg) -> (r: Option<Event>)
        requires
            old(self).inner.wf(),
        ensures
            final(self).inner.wf(),
            match msg {
                ClientMsg::Param { node, param, value } => match param_refusal(
                    old(self).inner,
                    node@,
                    param@,
                ) {
                    Some(why) => r is None && *final(self) == *old(self),
                    None => {
                        &&& param_set(old(self).inner, final(self).inner, node@, param@, value)
                        &&& final(self).dirty
                        &&& r matches Some(e) && e@ == (EventView::Param {
                            node: node@,
                            param: param@,
                            value: param_setting(old(self).inner, node@, param@, value),
                            src: me,
                        })
                    },
                },
                ClientMsg::Bypass { node, on } => if old(self).inner.live@.dom().contains(node@) {
                    &&& bypass_set(old(self).inner, final(self).inner, node@, on)
                    &&& final(self).dirty
                    &&& r matches Some(e) && e@ == (EventView::Bypass { node: node@, on, src: me })
                } else {
                    r is None && *final(self) == *old(self)
                },
                ClientMsg::Move { node, x, y } => {
                    &&& node_moved(old(self).inner, final(self).inner, node@, x, y)
                    &&& final(self).dirty == (old(self).dirty || order::slot(
                        old(self).inner.board.ids(),
                        node@,
                    ) >= 0)
                    &&& r matches Some(e) && e@ == (EventView::Move { node: node@, x, y, src: me })
                },
            },
    {
        match msg {
            ClientMsg::Param { node, param, value } => match self.set_param(
                node.as_str(),
                param.as_str(),
                value,
            ) {
                Ok(v) => Some(Event::Param { node, param, value: v, src: me }),
                Err(_) => None,
            },
            ClientMsg::Bypass { node, on } => match self.set_bypass(node.as_str(), on) {
                Ok(()) => Some(Event::Bypass { node, on, src: me }),
                Err(_) => None,
            },
            ClientMsg::Move { node, x, y } => {
                self.move_node(node.as_str(), x, y);
                Some(Event::Move { node, x, y, src: me })
            },
        }
    }
}

// ---------------------------------------------------------------- meters

/// The peaks and counts since they were read last, as patterns.
pub struct Meters {
    pub input: (u32, u32),
    pub output: (u32, u32),
    pub load: u32,
    pub xruns: u32,
    pub frames: u32,
    /// The peak of each live node.
    pub nodes: Vec<(String, u32)>,
}

/// Among some readings there is one of the meter of a live node, by the name of the node.
pub open spec fn shows(readings: Seq<(String, u32)>, id: Seq<char>, n: LiveNode) -> bool {
    exists|i: int|
        {
            &&& 0 <= i < readings.len()
            &&& (#[trigger] readings[i]).0@ == id
            &&& nodes::swapped_out(n.meter.cell(), sample::ZERO, readings[i].1)
        }
}

impl App {
    /// Reads all meters, and sets the peaks back. There is one for every live node. The audio
    /// thread writes them at any time, so it is said which cell each reading came out of, and
    /// not how high it is.
    pub fn meters(&self, stats: &EngineStats) -> (r: Meters)
        ensures
            r.nodes@.len() == self.inner.live.listing().len(),
            forall|i: int|
                0 <= i < r.nodes@.len() ==> (#[trigger] r.nodes@[i]).0@
                    == self.inner.live.listing()[i].0@,
            forall|i: int|
                0 <= i < r.nodes@.len() ==> nodes::swapped_out(
                    self.inner.live.listing()[i].1.meter.cell(),
                    sample::ZERO,
                    (#[trigger] r.nodes@[i]).1,
                ),
            forall|id: Seq<char>| #[trigger]
                self.inner.live@.dom().contains(id) ==> shows(r.nodes@, id, self.inner.live@[id]),
            nodes::swapped_out(stats.in_peak[0].cell(), sample::ZERO, r.input.0),
            nodes::swapped_out(stats.in_peak[1].cell(), sample::ZERO, r.input.1),
            nodes::swapped_out(stats.out_peak[0].cell(), sample::ZERO, r.output.0),
            nodes::swapped_out(stats.out_peak[1].cell(), sample::ZERO, r.output.1),
            nodes::swapped_out(stats.load.cell(), sample::ZERO, r.load),
            nodes::loaded_from(stats.xruns, r.xruns),
            nodes::loaded_from(stats.callback_frames, r.frames),
    {
        let entries = self.inner.live.entries();
        let mut nodes: Vec<(String, u32)> = Vec::new();
        let mut i: usize = 0;
        while i < entries.len()
            invariant
                i <= entries@.len(),
                entries@ == self.inner.live.listing(),
                nodes@.len() == i,
                forall|j: int| 0 <= j < i ==> (#[trigger] nodes@[j]).0@ == entries@[j].0@,
                forall|j: int|
                    0 <= j < i ==> nodes::swapped_out(
                        entries@[j].1.meter.cell(),
                        sample::ZERO,
                        (#[trigger] nodes@[j]).1,
                    ),
            decreases entries@.len() - i,
        {
            nodes.push((entries[i].0.clone(), entries[i].1.meter.take()));
            i += 1;
        }
        proof {
            let all = self.inner.live.listing();
            self.inner.live.listing_is_the_map();
            assert forall|id: Seq<char>| #[trigger]
                self.inner.live@.dom().contains(id) implies shows(
                nodes@,
                id,
                self.inner.live@[id],
            ) by {
                let i = choose|i: int|
                    0 <= i < all.len() && (#[trigger] all[i]).0@ == id && all[i].1
                        == self.inner.live@[id];
                assert(nodes@[i].0@ == id);
            }
        }
        Meters {
            input: (stats.in_peak[0].take(), stats.in_peak[1].take()),
            output: (stats.out_peak[0].take(), stats.out_peak[1].take()),
            load: stats.load.take(),
            xruns: stats.xruns.load(Ordering::Relaxed),
            frames: stats.callback_frames.load(Ordering::Relaxed),
            nodes,
        }
    }
}

// ---------------------------------------------------------------- laws

impl Inner {
    /// The board is well formed, no later number is claimed by a name, and every node has a live
    /// node that is in step with it.
    pub open spec fn consistent(&self) -> bool {
        &&& graph::well_formed(self.board.ids(), self.board.wires())
        &&& graph::unclaimed(self.board.ids(), next_number(self.board))
        &&& forall|i: int|
            0 <= i < self.board.nodes@.len() ==> has_live(
                self.live@,
                #[trigger] self.board.nodes@[i],
            )
    }
}

/// There is a live node that is in step with a description.
pub open spec fn has_live(live: Map<Seq<char>, LiveNode>, d: NodeDesc) -> bool {
    live.dom().contains(d.id@) && in_step(live[d.id@], d)
}

/// A consistent board can be compiled: no change fails for its sake.
pub proof fn consistent_board_compiles(inner: Inner)
    requires
        inner.consistent(),
    ensures
        inner.unplannable() is None,
{
    let ids = inner.board.ids();
    let wires = inner.board.wires();
    let names = order::sorted(ids, wires);
    assert forall|i: int| 0 <= i < names.len() implies inner.live@.dom().contains(
        #[trigger] names[i],
    ) by {
        order::sorted_takes_names(ids, wires, i);
        let k = choose|k: int| 0 <= k < ids.len() && ids[k] == names[i];
        assert(has_live(inner.live@, inner.board.nodes@[k]));
    }
    if exists|i: int| schedule::missing_at(names, inner.live@.dom(), i) {
        let i = choose|i: int| schedule::missing_at(names, inner.live@.dom(), i);
        assert(inner.live@.dom().contains(names[i]));
    }
}

/// The default board is consistent.
pub proof fn default_is_consistent(inner: Inner)
    requires
        inner.board.nodes@.len() == 0,
        inner.board.wires() == seq![(graph::INPUT_ID@, graph::OUTPUT_ID@)],
    ensures
        inner.consistent(),
{
    graph::default_graph_is_well_formed();
    assert(inner.board.ids() =~= Seq::empty());
}

/// A saved board that is well formed gives a consistent state.
pub proof fn loaded_board_is_consistent(inner: Inner)
    requires
        graph::well_formed(inner.board.ids(), inner.board.wires()),
        graph::unclaimed(inner.board.ids(), next_number(inner.board)),
        forall|id: Seq<char>| #[trigger]
            inner.live@.dom().contains(id) <==> inner.board.ids().contains(id),
        forall|i: int|
            0 <= i < inner.board.nodes@.len() && is_latest(inner.board.nodes@, i) ==> in_step(
                inner.live@[(#[trigger] inner.board.nodes@[i]).id@],
                inner.board.nodes@[i],
            ),
    ensures
        inner.consistent(),
{
    let ns = inner.board.nodes@;
    let ids = inner.board.ids();
    assert forall|i: int| 0 <= i < ns.len() implies has_live(inner.live@, #[trigger] ns[i]) by {
        assert(ids[i] == ns[i].id@);
        assert(ids.contains(ns[i].id@));
        assert forall|j: int| i < j < ns.len() implies (#[trigger] ns[j]).id@ != ns[i].id@ by {
            assert(ids[j] == ns[j].id@);
        }
    }
}

/// Adding a node keeps the state consistent, and gives the node a name that no other has and
/// that is never given out again.
pub proof fn adding_keeps_consistent(before: Inner, since: Inner, kind: NodeKind, x: u32, y: u32)
    requires
        before.consistent(),
        node_added(before, since, kind, x, y),
    ensures
        since.consistent(),
        !before.board.ids().contains(since.board.nodes@.last().id@),
        forall|k: nat|
            next_number(since.board) <= k ==> since.board.nodes@.last().id@
                != #[trigger] graph::numbered_id(k),
{
    let d = since.board.nodes@.last();
    let ids = before.board.ids();
    graph::next_name_is_new(ids, next_number(before.board));
    assert forall|k: nat| next_number(since.board) <= k implies d.id@
        != #[trigger] graph::numbered_id(k) by {
        graph::numbers_make_different_names(next_number(before.board), k);
    }
    graph::new_node_keeps_well_formed(ids, before.board.wires(), d.id@);
    assert(since.board.ids() =~= ids.push(d.id@));
    assert forall|i: int| 0 <= i < since.board.nodes@.len() implies has_live(
        since.live@,
        #[trigger] since.board.nodes@[i],
    ) by {
        if i < before.board.nodes@.len() {
            assert(since.board.nodes@[i] == before.board.nodes@[i]);
            assert(ids[i] == before.board.nodes@[i].id@);
            assert(ids.contains(ids[i]));
            assert(has_live(before.live@, before.board.nodes@[i]));
        }
    }
}

/// Taking a node away keeps the state consistent, whether or not that is in effect yet, and
/// nothing of the name is left on the board.
pub proof fn removing_keeps_consistent(before: Inner, since: Inner, id: Seq<char>, done: bool)
    requires
        before.consistent(),
        before.board.ids().contains(id),
        node_removed(before, since, id, done),
    ensures
        since.consistent(),
        !since.board.ids().contains(id),
        done ==> !since.live@.dom().contains(id),
{
    let ids = before.board.ids();
    let keep = graph::not_named(id);
    let all = before.board.nodes@;
    let left = since.board.nodes@;
    graph::removed_node_keeps_well_formed(ids, before.board.wires(), id);
    graph::names_without_named(all, id);
    assert forall|i: int| 0 <= i < left.len() implies all.contains(#[trigger] left[i]) && left[i].id@
        != id by {
        all.lemma_filter_pred(keep, i);
        assert(left.contains(left[i]));
        all.lemma_filter_contains_rev(keep, left[i]);
    }
    assert forall|i: int| 0 <= i < left.len() implies has_live(since.live@, #[trigger] left[i]) by {
        let k = choose|k: int| 0 <= k < all.len() && all[k] == left[i];
        assert(has_live(before.live@, all[k]));
    }
    let rest = since.board.ids();
    assert forall|k: nat| next_number(since.board) <= k implies !rest.contains(
        #[trigger] graph::numbered_id(k),
    ) by {
        if rest.contains(graph::numbered_id(k)) {
            let i = choose|i: int| 0 <= i < rest.len() && rest[i] == graph::numbered_id(k);
            let j = choose|j: int| 0 <= j < all.len() && all[j] == left[i];
            assert(ids[j] == rest[i]);
            assert(ids.contains(graph::numbered_id(k)));
        }
    }
}

/// A change that takes effect keeps the state consistent: the live node that goes is that of
/// no node on the board.
pub proof fn settling_keeps_consistent(before: Inner, since: Inner, change: Change)
    requires
        before.consistent(),
        change matches Change::Removed { id } ==> !before.board.ids().contains(id@),
        since.board == before.board,
        since.live@ == live_settled(before.live@, change),
    ensures
        since.consistent(),
{
    let ids = before.board.ids();
    assert forall|i: int| 0 <= i < since.board.nodes@.len() implies has_live(
        since.live@,
        #[trigger] since.board.nodes@[i],
    ) by {
        assert(has_live(before.live@, before.board.nodes@[i]));
        assert(ids[i] == before.board.nodes@[i].id@);
        assert(ids.contains(ids[i]));
    }
}

/// A cable that is accepted keeps the state consistent.
pub proof fn connecting_keeps_consistent(before: Inner, since: Inner, c: (Seq<char>, Seq<char>))
    requires
        before.consistent(),
        graph::refusal(before.board.ids(), before.board.wires(), c) is None,
        rewired(before, since, before.board.wires().push(c)),
    ensures
        since.consistent(),
{
    graph::accepted_cable_keeps_well_formed(before.board.ids(), before.board.wires(), c);
    assert forall|i: int| 0 <= i < since.board.nodes@.len() implies has_live(
        since.live@,
        #[trigger] since.board.nodes@[i],
    ) by {
        assert(has_live(before.live@, before.board.nodes@[i]));
    }
}

/// Taking a cable away keeps the state consistent.
pub proof fn disconnecting_keeps_consistent(before: Inner, since: Inner, c: (Seq<char>, Seq<char>))
    requires
        before.consistent(),
        rewired(before, since, graph::without_wire(before.board.wires(), c)),
    ensures
        since.consistent(),
{
    graph::removed_cable_keeps_well_formed(before.board.ids(), before.board.wires(), c);
    assert forall|i: int| 0 <= i < since.board.nodes@.len() implies has_live(
        since.live@,
        #[trigger] since.board.nodes@[i],
    ) by {
        assert(has_live(before.live@, before.board.nodes@[i]));
    }
}

/// No two parameters of a kind have one name.
pub proof fn param_names_differ(kind: NodeKind, i: int, j: int)
    requires
        0 <= i < j < param_ids(kind).len(),
    ensures
        param_ids(kind)[i] != param_ids(kind)[j],
{
    reveal_strlit("gain");
    reveal_strlit("mode");
    reveal_strlit("freq");
    reveal_strlit("q");
    reveal_strlit("drive");
    reveal_strlit("tone");
    reveal_strlit("level");
    reveal_strlit("mix");
    reveal_strlit("time");
    reveal_strlit("feedback");
    reveal_strlit("rate");
    reveal_strlit("depth");
    let a = param_ids(kind)[i];
    let b = param_ids(kind)[j];
    assert(a.len() != b.len() || a[0] != b[0] || a[1] != b[1]);
}

/// Setting a parameter keeps the state consistent: what the audio thread hears is what the
/// board says, and it is in range.
pub proof fn setting_keeps_consistent(
    before: Inner,
    since: Inner,
    node: Seq<char>,
    param: Seq<char>,
    value: u32,
)
    requires
        before.wf(),
        before.consistent(),
        param_refusal(before, node, param) is None,
        param_set(before, since, node, param, value),
    ensures
        since.consistent(),
        ({
            let kind = before.live@[node].kind;
            let place = order::slot(param_ids(kind), param);
            let p = nodes::kind_params(kind)[place];
            let v = since.live@[node].values@[place];
            &&& sample::value(p.min) <= sample::value(v) <= sample::value(p.max)
            &&& v == param_setting(before, node, param, value)
        }),
{
    let kind = before.live@[node].kind;
    let ids = param_ids(kind);
    let place = order::slot(ids, param);
    let v = param_setting(before, node, param, value);
    order::slot_is_first(ids, param);
    nodes::settings_stay_in_range(kind, place, value);
    let names = before.board.ids();
    order::slot_is_first(names, node);
    let at = order::slot(names, node);
    assert(before.live@[node].wf());
    assert(since.board.ids() =~= names);
    assert forall|i: int| 0 <= i < since.board.nodes@.len() implies has_live(
        since.live@,
        #[trigger] since.board.nodes@[i],
    ) by {
        let d = before.board.nodes@[i];
        assert(has_live(before.live@, d));
        assert(names[i] == d.id@);
        if i == at {
            let e = since.board.nodes@[i];
            let new = schedule::live_values(kind, e.params@);
            let was = schedule::live_values(kind, d.params@);
            assert forall|k: int| 0 <= k < new.len() implies new[k] == #[trigger] was.update(
                place,
                v,
            )[k] by {
                if k < place {
                    param_names_differ(kind, k, place);
                } else if place < k {
                    param_names_differ(kind, place, k);
                }
            }
            assert(new =~= was.update(place, v));
        } else {
            if at >= 0 {
                assert(names[i] != names[at]);
            } else {
                assert(names[i] != node);
            }
            assert(since.board.nodes@[i] == d);
        }
    }
}

/// Switching a node keeps the state consistent.
pub proof fn switching_keeps_consistent(before: Inner, since: Inner, node: Seq<char>, on: bool)
    requires
        before.consistent(),
        before.live@.dom().contains(node),
        bypass_set(before, since, node, on),
    ensures
        since.consistent(),
        since.live@[node].bypassed == on,
{
    let names = before.board.ids();
    order::slot_is_first(names, node);
    let at = order::slot(names, node);
    assert(since.board.ids() =~= names);
    assert forall|i: int| 0 <= i < since.board.nodes@.len() implies has_live(
        since.live@,
        #[trigger] since.board.nodes@[i],
    ) by {
        let d = before.board.nodes@[i];
        assert(has_live(before.live@, d));
        assert(names[i] == d.id@);
        if i != at {
            if at >= 0 {
                assert(names[i] != names[at]);
            } else {
                assert(names[i] != node);
            }
            assert(since.board.nodes@[i] == d);
        }
    }
}

/// Moving a node keeps the state consistent.
pub proof fn moving_keeps_consistent(before: Inner, since: Inner, node: Seq<char>, x: u32, y: u32)
    requires
        before.consistent(),
        node_moved(before, since, node, x, y),
    ensures
        since.consistent(),
{
    let names = before.board.ids();
    order::slot_is_first(names, node);
    assert(since.board.ids() =~= names);
    assert forall|i: int| 0 <= i < since.board.nodes@.len() implies has_live(
        since.live@,
        #[trigger] since.board.nodes@[i],
    ) by {
        assert(has_live(before.live@, before.board.nodes@[i]));
    }
}

proof fn defaults_by_name(kind: NodeKind, k: int)
    requires
        0 <= k <= nodes::kind_params(kind).len(),
    ensures
        forall|i: int|
            0 <= i < k ==> {
                &&& with_defaults(kind, k).dom().contains((#[trigger] nodes::kind_params(kind)[i]).id)
                &&& with_defaults(kind, k)[nodes::kind_params(kind)[i].id] == nodes::kind_params(
                    kind,
                )[i].default
            },
        forall|id: Seq<char>| #[trigger]
            with_defaults(kind, k).dom().contains(id) ==> param_ids(kind).contains(id),
    decreases k,
{
    if k > 0 {
        defaults_by_name(kind, k - 1);
        let all = nodes::kind_params(kind);
        let ids = param_ids(kind);
        assert(ids[k - 1] == all[k - 1].id);
        assert(ids.contains(ids[k - 1]));
        assert forall|i: int| 0 <= i < k implies {
            &&& with_defaults(kind, k).dom().contains((#[trigger] all[i]).id)
            &&& with_defaults(kind, k)[all[i].id] == all[i].default
        } by {
            if i < k - 1 {
                param_names_differ(kind, i, k - 1);
                assert(ids[i] == all[i].id);
            }
        }
        assert forall|id: Seq<char>| #[trigger]
            with_defaults(kind, k).dom().contains(id) implies ids.contains(id) by {
            if id != all[k - 1].id {
                assert(with_defaults(kind, k - 1).dom().contains(id));
            }
        }
    }
}

/// The description of a new node gives every parameter of its kind, and nothing else, and each is
/// at its own default.
pub proof fn new_parameters_are_at_their_defaults(kind: NodeKind, i: int)
    requires
        0 <= i < nodes::kind_params(kind).len(),
    ensures
        ({
            let p = nodes::kind_params(kind)[i];
            &&& default_params(kind).dom().contains(p.id)
            &&& default_params(kind)[p.id] == p.default
        }),
        forall|id: Seq<char>| #[trigger]
            default_params(kind).dom().contains(id) ==> param_ids(kind).contains(id),
{
    defaults_by_name(kind, nodes::kind_params(kind).len() as int);
}

/// A new node is heard with every parameter at its default, and it is switched on.
pub proof fn new_nodes_play_their_defaults(
    before: Inner,
    since: Inner,
    kind: NodeKind,
    x: u32,
    y: u32,
    i: int,
)
    requires
        node_added(before, since, kind, x, y),
        0 <= i < nodes::kind_params(kind).len(),
    ensures
        ({
            let n = since.live@[since.board.nodes@.last().id@];
            &&& n.kind == kind
            &&& n.values@[i] == nodes::kind_params(kind)[i].default
            &&& n.params.last()[i] == nodes::kind_params(kind)[i].default
            &&& !n.bypassed
            &&& !n.bypass.last()
        }),
{
    new_parameters_are_at_their_defaults(kind, i);
    nodes::defaults_are_settings(kind, i);
}

/// Adding a node adds one node, where it was asked for, with a number above all that were given
/// out, and touches nothing else: no other node, no cable, no other live node.
pub proof fn adding_adds_one_node(before: Inner, since: Inner, kind: NodeKind, x: u32, y: u32)
    requires
        node_added(before, since, kind, x, y),
    ensures
        since.board.nodes@.len() == before.board.nodes@.len() + 1,
        forall|i: int|
            0 <= i < before.board.nodes@.len() ==> #[trigger] since.board.nodes@[i]
                == before.board.nodes@[i],
        since.board.wires() == before.board.wires(),
        since.board.name == before.board.name,
        since.board.next_id >= 2,
        since.board.next_id > before.board.next_id,
        before.board.next_id > 0 ==> since.board.next_id == before.board.next_id + 1,
        ({
            let d = since.board.nodes@.last();
            &&& d.kind == kind && d.x == x && d.y == y && !d.bypass
            &&& d.id@ == "n"@ + text::decimal((since.board.next_id - 1) as nat)
            &&& forall|id: Seq<char>|
                id != d.id@ ==> {
                    &&& (#[trigger] since.live@.dom().contains(id) <==> before.live@.dom().contains(
                        id,
                    ))
                    &&& since.live@.dom().contains(id) ==> since.live@[id] == before.live@[id]
                }
        }),
        since.engine == before.engine,
        since.audio_cfg == before.audio_cfg,
        since.last_error == before.last_error,
{
}

/// Taking a node away leaves the other nodes, the cables between them and their live nodes as they
/// were, and leaves no cable that begins or ends at it.
pub proof fn removing_removes_one_name(
    before: Inner,
    since: Inner,
    id: Seq<char>,
    done: bool,
    n: NodeDesc,
    w: (Seq<char>, Seq<char>),
    other: Seq<char>,
)
    requires
        node_removed(before, since, id, done),
        other != id,
    ensures
        since.board.nodes@.contains(n) <==> before.board.nodes@.contains(n) && n.id@ != id,
        since.board.wires().contains(w) <==> before.board.wires().contains(w) && w.0 != id && w.1
            != id,
        done ==> !since.live@.dom().contains(id),
        !done ==> since.live@ == before.live@,
        since.live@.dom().contains(other) <==> before.live@.dom().contains(other),
        before.live@.dom().contains(other) ==> since.live@[other] == before.live@[other],
        since.board.name == before.board.name,
        since.board.next_id == before.board.next_id,
        since.engine == before.engine,
        since.audio_cfg == before.audio_cfg,
        since.last_error == before.last_error,
{
    graph::kept_nodes_are_the_others(before.board.nodes@, id, n);
    graph::kept_cables_are_the_others(before.board.wires(), id, w);
}

/// What a switch was turned to last is what counts, on the board, on record and for the audio
/// side, and it is the same switch all the time; the other nodes are left alone.
pub proof fn last_switching_counts(
    before: Inner,
    mid: Inner,
    since: Inner,
    node: Seq<char>,
    first: bool,
    second: bool,
    other: Seq<char>,
)
    requires
        before.live@.dom().contains(node),
        bypass_set(before, mid, node, first),
        bypass_set(mid, since, node, second),
        other != node,
    ensures
        ({
            let was = before.live@[node];
            let n = since.live@[node];
            &&& n.bypass.cell() == was.bypass.cell()
            &&& n.bypass.last() == second
            &&& n.bypassed == second
            &&& nodes::turned_to(was.bypass.cell(), second)
            &&& n.params == was.params && n.values == was.values && n.meter == was.meter
                && n.kind == was.kind
        }),
        since.live@.dom().contains(other) <==> before.live@.dom().contains(other),
        before.live@.dom().contains(other) ==> since.live@[other] == before.live@[other],
{
}

/// Switching a node switches the node of that name on the board, the first if there are two, and
/// changes nothing else there.
pub proof fn switching_switches_one_node(
    before: Inner,
    since: Inner,
    node: Seq<char>,
    on: bool,
    i: int,
)
    requires
        bypass_set(before, since, node, on),
        0 <= i < before.board.nodes@.len(),
    ensures
        ({
            let was = before.board.nodes@[i];
            let d = since.board.nodes@[i];
            let first = was.id@ == node && !before.board.ids().take(i).contains(node);
            &&& d.bypass == if first {
                on
            } else {
                was.bypass
            }
            &&& d.id == was.id && d.kind == was.kind && d.params == was.params && d.x == was.x
                && d.y == was.y
        }),
        since.board.nodes@.len() == before.board.nodes@.len(),
        since.board.wires() == before.board.wires(),
        since.board.name == before.board.name,
        since.board.next_id == before.board.next_id,
        since.engine == before.engine,
        since.audio_cfg == before.audio_cfg,
        since.last_error == before.last_error,
{
    first_place_is_the_slot(before.board.ids(), node, i);
}

/// Moving a node moves the node of that name on the board, the first if there are two, and
/// changes nothing else.
pub proof fn moving_moves_one_node(
    before: Inner,
    since: Inner,
    node: Seq<char>,
    x: u32,
    y: u32,
    i: int,
)
    requires
        node_moved(before, since, node, x, y),
        0 <= i < before.board.nodes@.len(),
    ensures
        ({
            let was = before.board.nodes@[i];
            let d = since.board.nodes@[i];
            let first = was.id@ == node && !before.board.ids().take(i).contains(node);
            &&& d.x == if first {
                x
            } else {
                was.x
            }
            &&& d.y == if first {
                y
            } else {
                was.y
            }
            &&& d.id == was.id && d.kind == was.kind && d.params == was.params && d.bypass
                == was.bypass
        }),
        since.board.nodes@.len() == before.board.nodes@.len(),
        since.board.wires() == before.board.wires(),
        since.board.name == before.board.name,
        since.board.next_id == before.board.next_id,
        since.live == before.live,
        since.engine == before.engine,
        since.audio_cfg == before.audio_cfg,
        since.last_error == before.last_error,
{
    first_place_is_the_slot(before.board.ids(), node, i);
}

proof fn first_place_is_the_slot(ids: Seq<Seq<char>>, id: Seq<char>, i: int)
    requires
        0 <= i < ids.len(),
    ensures
        order::slot(ids, id) == i <==> ids[i] == id && !ids.take(i).contains(id),
{
    order::slot_is_first(ids, id);
    let s = order::slot(ids, id);
    if s == i {
        if ids.take(i).contains(id) {
            let k = choose|k: int| 0 <= k < i && ids.take(i)[k] == id;
            assert(ids[k] == id);
        }
    } else if ids[i] == id {
        assert(0 <= s < i);
        assert(ids.take(i)[s] == id);
    }
}

/// A parameter can be set where there is a live node of that name, and its kind has a parameter
/// of that name; else it is said which of the two is missing.
pub proof fn settings_are_refused_for_a_reason(inner: Inner, node: Seq<char>, param: Seq<char>)
    ensures
        ({
            let refusal = param_refusal(inner, node, param);
            if !inner.live@.dom().contains(node) {
                refusal == Some("no such node"@)
            } else if !(exists|i: int|
                0 <= i < nodes::kind_params(inner.live@[node].kind).len() && (
                #[trigger] nodes::kind_params(inner.live@[node].kind)[i]).id == param) {
                refusal == Some("no such param"@)
            } else {
                refusal is None
            }
        }),
{
    let all = nodes::kind_params(inner.live@[node].kind);
    let ids = param_ids(inner.live@[node].kind);
    order::slot_is_first(ids, param);
    let s = order::slot(ids, param);
    if s >= 0 {
        assert(all[s].id == ids[s]);
    }
    if exists|i: int| 0 <= i < all.len() && (#[trigger] all[i]).id == param {
        let i = choose|i: int| 0 <= i < all.len() && (#[trigger] all[i]).id == param;
        assert(ids[i] == param);
    }
}

/// Setting a parameter sets the knob of that name, and no other knob, of that node, and no other
/// node, to the nearest value that it can have; the board says the same.
pub proof fn setting_sets_one_parameter(
    before: Inner,
    since: Inner,
    node: Seq<char>,
    value: u32,
    i: int,
    k: int,
    other: Seq<char>,
)
    requires
        before.wf(),
        before.live@.dom().contains(node),
        ({
            let all = nodes::kind_params(before.live@[node].kind);
            &&& 0 <= i < all.len()
            &&& 0 <= k < all.len()
            &&& param_set(before, since, node, all[i].id, value)
        }),
        other != node,
    ensures
        ({
            let was = before.live@[node];
            let n = since.live@[node];
            let p = nodes::kind_params(was.kind)[i];
            let v = p.setting(value);
            &&& param_setting(before, node, p.id, value) == v
            &&& n.params.cells() == was.params.cells()
            &&& nodes::stored_in(was.params.cells()[i].cell(), v)
            &&& n.params.last()[k] == if k == i {
                v
            } else {
                was.params.last()[k]
            }
            &&& n.values@[k] == if k == i {
                v
            } else {
                was.values@[k]
            }
            &&& n.bypass == was.bypass && n.bypassed == was.bypassed && n.meter == was.meter
                && n.kind == was.kind
            &&& forall|j: int|
                0 <= j < before.board.nodes@.len() ==> {
                    let d = since.board.nodes@[j];
                    let e = #[trigger] before.board.nodes@[j];
                    let first = e.id@ == node && !before.board.ids().take(j).contains(node);
                    &&& d.params@ == if first {
                        e.params@.insert(p.id, v)
                    } else {
                        e.params@
                    }
                    &&& d.id == e.id && d.kind == e.kind && d.bypass == e.bypass && d.x == e.x
                        && d.y == e.y
                }
        }),
        since.live@.dom().contains(other) <==> before.live@.dom().contains(other),
        before.live@.dom().contains(other) ==> since.live@[other] == before.live@[other],
        since.board.nodes@.len() == before.board.nodes@.len(),
        since.board.wires() == before.board.wires(),
        since.board.name == before.board.name,
        since.board.next_id == before.board.next_id,
        since.engine == before.engine,
        since.audio_cfg == before.audio_cfg,
        since.last_error == before.last_error,
{
    let kind = before.live@[node].kind;
    let all = nodes::kind_params(kind);
    let ids = param_ids(kind);
    assert(before.live@[node].wf());
    assert(ids[i] == all[i].id);
    first_place_is_the_slot(ids, all[i].id, i);
    if ids.take(i).contains(all[i].id) {
        let j = choose|j: int| 0 <= j < i && ids.take(i)[j] == all[i].id;
        param_names_differ(kind, j, i);
    }
    let v = all[i].setting(value);
    assert forall|j: int| 0 <= j < before.board.nodes@.len() implies {
        let d = since.board.nodes@[j];
        let e = #[trigger] before.board.nodes@[j];
        let first = e.id@ == node && !before.board.ids().take(j).contains(node);
        &&& d.params@ == if first {
            e.params@.insert(all[i].id, v)
        } else {
            e.params@
        }
        &&& d.id == e.id && d.kind == e.kind && d.bypass == e.bypass && d.x == e.x && d.y == e.y
    } by {
        first_place_is_the_slot(before.board.ids(), node, j);
    }
}

/// Other cables leave everything but the cables as it was.
pub proof fn rewiring_changes_cables_only(
    before: Inner,
    since: Inner,
    wires: Seq<(Seq<char>, Seq<char>)>,
)
    requires
        rewired(before, since, wires),
    ensures
        since.board.wires() == wires,
        since.board.nodes == before.board.nodes,
        since.board.name == before.board.name,
        since.board.next_id == before.board.next_id,
        since.live@ == before.live@,
        since.engine == before.engine,
        since.audio_cfg == before.audio_cfg,
        since.last_error == before.last_error,
{
}

/// A change is in effect at once just where no audio runs. Where it runs, processors are asked
/// for, at the rate of the engine, if the board can be compiled, and else the change fails for
/// the reason that it cannot. The clients are told of the board, or of what has started.
pub proof fn changes_wait_for_processors(inner: Inner, change: Change, r: Turn)
    requires
        turned(inner, change, r),
    ensures
        r is Done <==> inner.engine is None,
        r is Build <==> inner.engine is Some && inner.unplannable() is None,
        r is Failed <==> inner.engine is Some && inner.unplannable() is Some,
        match r {
            Turn::Done { change: c, event } => {
                &&& c == change
                &&& match change {
                    Change::Started { info } => event@ == (EventView::Audio {
                        running: Some(info@),
                        error: None,
                    }),
                    _ => event@ == EventView::Board,
                }
            },
            Turn::Build { plan, rate, change: c } => {
                &&& c == change
                &&& rate == inner.engine->0.info.sample_rate
                &&& plan.realises(inner.board.ids(), inner.board.wires(), inner.live@)
            },
            Turn::Failed { reason, event } => Some(reason@) == inner.unplannable() && event is None,
        },
{
}

/// Once a change is in effect, the live node of a node that was taken away is gone, and every
/// other live node is there as before.
pub proof fn only_removed_nodes_fall_silent(
    live: Map<Seq<char>, LiveNode>,
    change: Change,
    id: Seq<char>,
)
    ensures
        removes(change, id) ==> !live_settled(live, change).dom().contains(id),
        !removes(change, id) ==> {
            &&& live_settled(live, change).dom().contains(id) <==> live.dom().contains(id)
            &&& live.dom().contains(id) ==> live_settled(live, change)[id] == live[id]
        },
        !(change is Removed) ==> live_settled(live, change) == live,
{
}

/// A board can be compiled where no node waits for itself and every node has a live node.
pub proof fn boards_compile_unless_something_is_missing(inner: Inner)
    requires
        order::proper(inner.board.ids()),
        order::attached(inner.board.ids(), inner.board.wires()),
    ensures
        inner.unplannable() is None <==> {
            &&& !order::has_cycle(inner.board.ids(), inner.board.wires())
            &&& forall|i: int|
                0 <= i < inner.board.nodes@.len() ==> inner.live@.dom().contains(
                    (#[trigger] inner.board.nodes@[i]).id@,
                )
        },
        order::has_cycle(inner.board.ids(), inner.board.wires()) ==> inner.unplannable() == Some(
            "connection would create a feedback loop"@,
        ),
{
    let ids = inner.board.ids();
    let wires = inner.board.wires();
    let names = order::sorted(ids, wires);
    let live = inner.live@.dom();
    order::unsortable_means_cycle(ids, wires);
    if order::sortable(ids, wires) {
        order::sorted_names_all(ids, wires);
        if inner.unplannable() is None {
            assert forall|i: int| 0 <= i < inner.board.nodes@.len() implies live.contains(
                (#[trigger] inner.board.nodes@[i]).id@,
            ) by {
                assert(ids[i] == inner.board.nodes@[i].id@);
                assert(ids.contains(ids[i]));
                assert(names.contains(ids[i]));
                let k = choose|k: int| 0 <= k < names.len() && names[k] == ids[i];
                schedule::nothing_missing(names, live, k);
            }
        } else {
            let k = choose|k: int| schedule::missing_at(names, live, k);
            order::sorted_takes_names(ids, wires, k);
            let i = choose|i: int| 0 <= i < ids.len() && ids[i] == names[k];
            assert(inner.board.nodes@[i].id@ == names[k]);
        }
    }
}

/// A live node that is in step with a description plays what the description says: its kind, a
/// setting for each parameter, and whether it is switched off.
pub proof fn live_nodes_play_what_the_board_says(n: LiveNode, d: NodeDesc)
    requires
        in_step(n, d),
    ensures
        n.kind == d.kind,
        n.values@ == schedule::live_values(d.kind, d.params@),
        n.params.last() == schedule::live_values(d.kind, d.params@),
        n.bypassed == d.bypass,
        n.bypass.last() == d.bypass,
{
}

/// What is told says which node it is about, what was set, and who did it.
pub proof fn events_tell_everything(e: Event)
    ensures
        match e {
            Event::Board => e@ is Board,
            Event::Audio { running, error } => {
                &&& e@ is Audio
                &&& e@->running is Some <==> running is Some
                &&& running is Some ==> e@->running->0 == running->0@
                &&& e@->error is Some <==> error is Some
                &&& error is Some ==> e@->error->0 == error->0@
            },
            Event::Param { node, param, value, src } => e@ == (EventView::Param {
                node: node@,
                param: param@,
                value,
                src,
            }),
            Event::Bypass { node, on, src } => e@ == (EventView::Bypass { node: node@, on, src }),
            Event::Move { node, x, y, src } => e@ == (EventView::Move { node: node@, x, y, src }),
        },
{
}

/// A change says what it does: the node that it adds, as it stands on the board, the name that it
/// takes away, or what has started.
pub proof fn changes_say_what_they_do(
    change: Change,
    d: NodeDesc,
    id: Seq<char>,
    info: audio::InfoView,
)
    ensures
        adds(change, d) ==> change is Added && change->desc.id@ == d.id@ && change->desc.kind
            == d.kind && change->desc.params@ == d.params@ && change->desc.bypass == d.bypass
            && change->desc.x == d.x && change->desc.y == d.y,
        removes(change, id) ==> change is Removed && change->id@ == id,
        starts(change, info) ==> change is Started && change->info@ == info,
{
}

/// Among readings that show a live node there is one under its name that came out of its own
/// meter, which was set back to zero.
pub proof fn readings_come_from_their_meters(
    readings: Seq<(String, u32)>,
    id: Seq<char>,
    n: LiveNode,
)
    requires
        shows(readings, id, n),
    ensures
        exists|i: int|
            0 <= i < readings.len() && (#[trigger] readings[i]).0@ == id && nodes::swapped_out(
                n.meter.cell(),
                0,
                readings[i].1,
            ),
{
}

// ---------------------------------------------------------------- what each call does

/// A board is saved just where it has changed, and then it counts as saved: of two attempts in a
/// row the second saves nothing.
pub proof fn changes_are_saved_once(a: &mut App, r: bool)
    requires
        call_ensures(App::save_if_dirty, (a,), r),
    ensures
        r <==> old(a).dirty,
        !final(a).dirty,
        final(a).inner.board == old(a).inner.board,
        final(a).inner.live == old(a).inner.live,
        final(a).inner.engine is Some <==> old(a).inner.engine is Some,
{
}

/// Switching a node that is there leaves its switch, the record of it and the board as asked for,
/// to be saved; a node that is not there cannot be switched, and that changes nothing.
pub proof fn switches_are_left_as_asked(
    a: &mut App,
    node: &str,
    on: bool,
    r: Result<(), String>,
    i: int,
)
    requires
        call_ensures(App::set_bypass, (a, node, on), r),
        0 <= i < old(a).inner.board.nodes@.len(),
        old(a).inner.board.nodes@[i].id@ == node@,
        !old(a).inner.board.ids().take(i).contains(node@),
    ensures
        r is Ok <==> old(a).inner.live@.dom().contains(node@),
        r is Ok ==> {
            let was = old(a).inner.live@[node@];
            let n = final(a).inner.live@[node@];
            &&& n.bypass.cell() == was.bypass.cell()
            &&& n.bypass.last() == on
            &&& n.bypassed == on
            &&& n.params == was.params && n.values == was.values && n.kind == was.kind
            &&& final(a).inner.board.nodes@[i].bypass == on
            &&& final(a).inner.board.nodes@[i].params == old(a).inner.board.nodes@[i].params
            &&& final(a).dirty
        },
        r is Err ==> *final(a) == *old(a) && r->Err_0@ == "no such node"@,
{
    if r is Ok {
        switching_switches_one_node(old(a).inner, final(a).inner, node@, on, i);
    }
}

/// Setting a parameter that is there gives back what it is set to, the nearest value that it can
/// have, and leaves its knob, the record of it and the board at that, to be saved; what is not
/// there cannot be set, and that changes nothing.
pub proof fn parameters_are_left_as_told(
    a: &mut App,
    node: &str,
    param: &str,
    value: u32,
    r: Result<u32, String>,
    i: int,
)
    requires
        call_ensures(App::set_param, (a, node, param, value), r),
        old(a).inner.wf(),
        old(a).inner.live@.dom().contains(node@),
        0 <= i < nodes::kind_params(old(a).inner.live@[node@].kind).len(),
        nodes::kind_params(old(a).inner.live@[node@].kind)[i].id == param@,
    ensures
        r is Ok,
        ({
            let was = old(a).inner.live@[node@];
            let n = final(a).inner.live@[node@];
            let p = nodes::kind_params(was.kind)[i];
            &&& r->Ok_0 == p.setting(value)
            &&& n.params.cells() == was.params.cells()
            &&& n.params.last() == was.params.last().update(i, r->Ok_0)
            &&& n.values@ == was.values@.update(i, r->Ok_0)
            &&& n.bypass == was.bypass
            &&& final(a).dirty
        }),
{
    let kind = old(a).inner.live@[node@].kind;
    let all = nodes::kind_params(kind);
    let ids = param_ids(kind);
    settings_are_refused_for_a_reason(old(a).inner, node@, param@);
    assert(all[i].id == param@);
    assert(ids[i] == param@);
    first_place_is_the_slot(ids, param@, i);
    if ids.take(i).contains(param@) {
        let j = choose|j: int| 0 <= j < i && ids.take(i)[j] == param@;
        param_names_differ(kind, j, i);
    }
    assert(old(a).inner.live@[node@].wf());
}

/// What is not there cannot be set: it is said what is missing, and nothing changes.
pub proof fn missing_parameters_are_named(
    a: &mut App,
    node: &str,
    param: &str,
    value: u32,
    r: Result<u32, String>,
)
    requires
        call_ensures(App::set_param, (a, node, param, value), r),
    ensures
        !old(a).inner.live@.dom().contains(node@) ==> r is Err && r->Err_0@ == "no such node"@,
        old(a).inner.live@.dom().contains(node@) && !param_ids(
            old(a).inner.live@[node@].kind,
        ).contains(param@) ==> r is Err && r->Err_0@ == "no such param"@,
        r is Err ==> *final(a) == *old(a),
{
    if old(a).inner.live@.dom().contains(node@) {
        order::slot_is_first(param_ids(old(a).inner.live@[node@].kind), param@);
    }
}

/// Adding a node adds one, of the kind and in the place asked for, with each parameter at its
/// default both on the board and for the audio side; without audio that is in effect at once, and
/// to be saved.
pub proof fn nodes_are_added_as_asked(
    a: &mut App,
    kind: NodeKind,
    x: u32,
    y: u32,
    r: Turn,
    i: int,
)
    requires
        call_ensures(App::add_node, (a, kind, x, y), r),
        0 <= i < nodes::kind_params(kind).len(),
    ensures
        ({
            let d = final(a).inner.board.nodes@.last();
            let p = nodes::kind_params(kind)[i];
            &&& final(a).inner.board.nodes@.len() == old(a).inner.board.nodes@.len() + 1
            &&& d.kind == kind && d.x == x && d.y == y && !d.bypass
            &&& d.params@.dom().contains(p.id)
            &&& d.params@[p.id] == p.default
            &&& final(a).inner.live@.dom().contains(d.id@)
            &&& final(a).inner.live@[d.id@].params.last()[i] == p.default
            &&& !final(a).inner.live@[d.id@].bypass.last()
        }),
        r is Done <==> old(a).inner.engine is None,
        r is Done ==> final(a).dirty,
        !(r is Done) ==> final(a).dirty == old(a).dirty,
{
    new_parameters_are_at_their_defaults(kind, i);
    new_nodes_play_their_defaults(old(a).inner, final(a).inner, kind, x, y, i);
    adding_adds_one_node(old(a).inner, final(a).inner, kind, x, y);
}

/// A cable that may be put in is put in behind the others; one that begins or ends nowhere, runs
/// backwards or is there already is refused, for that reason, and nothing changes.
pub proof fn cables_are_put_in_or_refused(a: &mut App, c: Connection, r: Turn)
    requires
        call_ensures(App::connect, (a, c), r),
    ensures
        ({
            let ids = old(a).inner.board.ids();
            let wires = old(a).inner.board.wires();
            let there = |id: Seq<char>| id == "in"@ || id == "out"@ || ids.contains(id);
            let why = if !there(c.from@) || !there(c.to@) {
                Some("unknown node"@)
            } else if c.from@ == "out"@ || c.to@ == "in"@ || c.from@ == c.to@ {
                Some("invalid direction"@)
            } else if wires.contains(c@) {
                Some("already connected"@)
            } else {
                None
            };
            &&& why is Some ==> {
                &&& r is Failed && Some(r->reason@) == why
                &&& final(a).inner == old(a).inner
                &&& final(a).dirty == old(a).dirty
            }
            &&& why is None && order::proper(ids) && order::attached(ids, wires)
                && !order::has_cycle(ids, wires.push(c@)) ==> final(a).inner.board.wires()
                == wires.push(c@)
            &&& why is None && order::proper(ids) && order::attached(ids, wires)
                && order::has_cycle(ids, wires.push(c@)) ==> r is Failed && final(a).inner == old(
                a,
            ).inner
        }),
{
    graph::cables_are_refused_for_a_reason(
        old(a).inner.board.ids(),
        old(a).inner.board.wires(),
        c@,
    );
}

/// A cable that is taken away is gone, and every other cable and every node is left.
pub proof fn cables_are_taken_away(
    a: &mut App,
    c: &Connection,
    r: Turn,
    w: (Seq<char>, Seq<char>),
)
    requires
        call_ensures(App::disconnect, (a, c), r),
    ensures
        final(a).inner.board.wires().contains(w) <==> old(a).inner.board.wires().contains(w) && w
            != c@,
        final(a).inner.board.nodes == old(a).inner.board.nodes,
        final(a).inner.live@ == old(a).inner.live@,
        r is Done <==> old(a).inner.engine is None,
        r is Done ==> final(a).dirty,
{
    graph::kept_cables_are_the_others_than(old(a).inner.board.wires(), c@, w);
}

/// Taking a node away takes its cables too, and nothing else from the board; a node that is not
/// there cannot be taken away, and that changes nothing.
pub proof fn nodes_are_taken_away(
    a: &mut App,
    id: &str,
    r: Turn,
    n: NodeDesc,
    w: (Seq<char>, Seq<char>),
)
    requires
        call_ensures(App::remove_node, (a, id), r),
    ensures
        !old(a).inner.board.ids().contains(id@) ==> final(a).inner == old(a).inner && r is Failed
            && r->reason@ == "no such node"@,
        old(a).inner.board.ids().contains(id@) ==> {
            let before = old(a).inner.board;
            let since = final(a).inner.board;
            &&& since.nodes@.contains(n) <==> before.nodes@.contains(n) && n.id@ != id@
            &&& since.wires().contains(w) <==> before.wires().contains(w) && w.0 != id@ && w.1
                != id@
            &&& r is Done ==> !final(a).inner.live@.dom().contains(id@) && final(a).dirty
            &&& !(r is Done) ==> final(a).inner.live@ == old(a).inner.live@
        },
{
    let ids = old(a).inner.board.ids();
    order::slot_is_first(ids, id@);
    if ids.contains(id@) {
        let k = choose|k: int| 0 <= k < ids.len() && ids[k] == id@;
        assert(ids[k] == id@);
        graph::kept_nodes_are_the_others(old(a).inner.board.nodes@, id@, n);
        graph::kept_cables_are_the_others(old(a).inner.board.wires(), id@, w);
    }
}

/// A node that is moved is to be saved; a name that is on no node moves nothing.
pub proof fn nodes_are_moved_as_asked(a: &mut App, node: &str, x: u32, y: u32, i: int)
    requires
        call_ensures(App::move_node, (a, node, x, y), ()),
        0 <= i < old(a).inner.board.nodes@.len(),
        order::proper(old(a).inner.board.ids()),
    ensures
        ({
            let was = old(a).inner.board.nodes@[i];
            let d = final(a).inner.board.nodes@[i];
            &&& was.id@ == node@ ==> d.x == x && d.y == y && final(a).dirty
            &&& was.id@ != node@ ==> d == was
        }),
        !old(a).inner.board.ids().contains(node@) ==> final(a).dirty == old(a).dirty,
        final(a).inner.live == old(a).inner.live,
{
    let ids = old(a).inner.board.ids();
    first_place_is_the_slot(ids, node@, i);
    order::slot_is_first(ids, node@);
    assert(ids[i] == old(a).inner.board.nodes@[i].id@);
    moving_moves_one_node(old(a).inner, final(a).inner, node@, x, y, i);
    if ids.take(i).contains(node@) {
        let k = choose|k: int| 0 <= k < i && ids.take(i)[k] == node@;
        assert(ids[k] == node@);
    }
}

/// A client is told of what another has done, with its name and the value that was taken; what
/// could not be done is not told.
pub proof fn clients_hear_what_was_done(a: &mut App, me: u64, msg: ClientMsg, r: Option<Event>)
    requires
        call_ensures(App::handle, (a, me, msg), r),
    ensures
        match msg {
            ClientMsg::Bypass { node, on } => {
                &&& r is Some <==> old(a).inner.live@.dom().contains(node@)
                &&& r is Some ==> r->0@ == (EventView::Bypass { node: node@, on, src: me })
                &&& r is Some ==> final(a).inner.live@[node@].bypass.last() == on
                &&& r is None ==> *final(a) == *old(a)
            },
            ClientMsg::Param { node, param, value } => {
                &&& r is Some <==> old(a).inner.live@.dom().contains(node@) && param_ids(
                    old(a).inner.live@[node@].kind,
                ).contains(param@)
                &&& r is Some ==> r->0@ == (EventView::Param {
                    node: node@,
                    param: param@,
                    value: param_setting(old(a).inner, node@, param@, value),
                    src: me,
                })
                &&& r is None ==> *final(a) == *old(a)
            },
            ClientMsg::Move { node, x, y } => r is Some && r->0@ == (EventView::Move {
                node: node@,
                x,
                y,
                src: me,
            }),
        },
{
    match msg {
        ClientMsg::Param { node, param, value } => {
            if old(a).inner.live@.dom().contains(node@) {
                let ids = param_ids(old(a).inner.live@[node@].kind);
                order::slot_is_first(ids, param@);
                if ids.contains(param@) {
                    let k = choose|k: int| 0 <= k < ids.len() && ids[k] == param@;
                    assert(ids[k] == param@);
                }
            }
        },
        _ => {},
    }
}

/// Audio that could not start leaves the reason to be read, and what has started leaves none;
/// stopping leaves nothing running.
pub proof fn audio_starts_or_says_why(
    a: &mut App,
    opened: Result<AudioEngine, String>,
    r: Turn,
)
    requires
        call_ensures(App::start_audio, (a, opened), r),
    ensures
        opened is Ok ==> final(a).inner.engine == Some(opened->Ok_0) && final(a).inner.last_error
            is None,
        opened is Err ==> {
            &&& final(a).inner.engine == old(a).inner.engine
            &&& final(a).inner.last_error is Some
            &&& final(a).inner.last_error->0@ == opened->Err_0@
            &&& r is Failed
            &&& r->reason@ == opened->Err_0@
        },
        final(a).inner.board == old(a).inner.board,
        final(a).dirty == old(a).dirty,
{
}

/// A board that has been compiled with its processors is what the engine sends next; should there
/// be no room for it, the change fails and is not to be saved. Without audio it is in effect as it
/// is.
pub proof fn compiled_boards_are_sent(
    a: &mut App,
    plan: Plan,
    procs: Vec<Box<dyn Processor>>,
    change: Change,
    r: Turn,
)
    requires
        call_ensures(App::built, (a, plan, procs, change), r),
    ensures
        old(a).inner.engine is None ==> r is Done,
        r is Done ==> final(a).dirty == (old(a).dirty || !(change is Started)),
        !(r is Done) ==> r is Failed && r->reason@ == "schedule queue full"@ && final(a).dirty
            == old(a).dirty && final(a).inner.live@ == old(a).inner.live@,
        old(a).inner.engine is Some ==> {
            let e = old(a).inner.engine->0;
            let f = final(a).inner.engine->0;
            &&& final(a).inner.engine is Some
            &&& e.room() > 0 ==> r is Done
            &&& r is Done ==> {
                &&& f.sent().len() == e.sent().len() + 1
                &&& f.sent().take(e.sent().len() as int) == e.sent()
                &&& f.sent().last().fed_by() == plan.fed_by()
                &&& f.sent().last().out_fed_by() == plan.out_fed_by()
                &&& f.sent().last().processors() == procs@
                &&& f.sent().last().is_new()
            }
            &&& !(r is Done) ==> f.sent() == e.sent()
        },
        final(a).inner.board == old(a).inner.board,
{
    match (old(a).inner.engine, final(a).inner.engine) {
        (Some(e), Some(f)) => {
            if r is Done {
                let s = choose|s: Schedule|
                    {
                        &&& f.sent() == #[trigger] e.sent().push(s)
                        &&& s.fed_by() == plan.fed_by()
                        &&& s.out_fed_by() == plan.out_fed_by()
                        &&& s.processors() == procs@
                        &&& s.is_new()
                    };
                assert(f.sent().last() == s);
                assert(f.sent().take(e.sent().len() as int) =~= e.sent());
            }
        },
        _ => {},
    }
}

/// Stopping audio, or preparing to start it, leaves nothing running and the board alone.
pub proof fn stopped_audio_leaves_the_board(a: &mut App, r: Event)
    requires
        call_ensures(App::stop_audio, (a,), r),
    ensures
        final(a).inner.engine is None,
        final(a).inner.board == old(a).inner.board,
        final(a).inner.live == old(a).inner.live,
        final(a).inner.audio_cfg == old(a).inner.audio_cfg,
        final(a).dirty == old(a).dirty,
        r@ == (EventView::Audio { running: None, error: None }),
{
}

/// A state begins with the board and the configuration that were saved, a live node for each
/// node on the board, no audio, and nothing to be saved.
pub proof fn saved_boards_come_back(
    saved: Board,
    cfg: AudioConfig,
    r: App,
    i: int,
)
    requires
        call_ensures(App::new, (Some(saved), Some(cfg)), r),
        0 <= i < saved.nodes@.len(),
        order::proper(saved.ids()),
    ensures
        r.inner.board == saved,
        r.inner.audio_cfg == cfg,
        r.inner.engine is None,
        r.inner.last_error is None,
        !r.dirty,
        ({
            let d = saved.nodes@[i];
            &&& r.inner.live@.dom().contains(d.id@)
            &&& r.inner.live@[d.id@].kind == d.kind
            &&& r.inner.live@[d.id@].params.last() == schedule::live_values(d.kind, d.params@)
            &&& r.inner.live@[d.id@].bypass.last() == d.bypass
        }),
{
    let ids = saved.ids();
    assert(ids[i] == saved.nodes@[i].id@);
    assert(ids.contains(ids[i]));
    assert forall|j: int| i < j < saved.nodes@.len() implies (#[trigger] saved.nodes@[j]).id@
        != saved.nodes@[i].id@ by {
        assert(ids[j] == saved.nodes@[j].id@);
    }
    assert(is_latest(saved.nodes@, i));
}

} // verus!
