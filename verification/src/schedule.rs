//! Live nodes, and the schedule: a board compiled for the audio callback.
use crate::block::{Cursor, Work};
use crate::block;
use crate::controls::{Knobs, Lines, Needle, Switch, Watch};
use crate::graph::{Board, Connection, NodeDesc, INPUT_ID, OUTPUT_ID};
use crate::graph;
use crate::nodes::{new_buf, AtomicF32, Buf, NodeKind, Processor, MAX_BLOCK};
use crate::nodes;
use crate::order;
use crate::outcome;
use crate::sample;
use crate::table::Table;
use crate::text;
use std::sync::atomic::AtomicBool;
use std::sync::Arc;
use vstd::prelude::*;

verus! {

// ---------------------------------------------------------------- live nodes

/// Control-side handles for a live node (shared with the audio thread), and beside them
/// what the control side stored in them last.
pub struct LiveNode {
    pub kind: NodeKind,
    pub params: Knobs,
    pub bypass: Switch,
    pub meter: Arc<AtomicF32>,
    pub values: Vec<u32>,
    pub bypassed: bool,
}

/// What the parameters of a node are set to, by what its description says of them.
pub open spec fn live_values(kind: NodeKind, params: Map<Seq<char>, u32>) -> Seq<u32> {
    Seq::new(
        nodes::kind_params(kind).len(),
        |i: int|
            {
                let p = nodes::kind_params(kind)[i];
                p.setting(
                    if params.dom().contains(p.id) {
                        params[p.id]
                    } else {
                        p.default
                    },
                )
            },
    )
}

impl LiveNode {
    /// There is a cell for every parameter, and what is on record of the cells and the switch is
    /// what was stored in them last.
    pub open spec fn wf(&self) -> bool {
        &&& self.params.cells().len() == nodes::kind_params(self.kind).len()
        &&& self.values@.len() == nodes::kind_params(self.kind).len()
        &&& self.params.recorded()
        &&& self.params.last() == self.values@
        &&& self.bypass.recorded()
        &&& self.bypass.last() == self.bypassed
    }

    /// The cells, the switch and the meter have just been made: the cells and the switch of
    /// what is on record, the meter at zero.
    pub open spec fn newly_made(&self) -> bool {
        &&& forall|i: int|
            0 <= i < self.values@.len() ==> nodes::made_of(
                self.values@[i],
                (#[trigger] self.params.cells()[i]).cell(),
            )
        &&& nodes::switch_made(self.bypassed, self.bypass.cell())
        &&& nodes::made_of(sample::ZERO, self.meter.cell())
    }

    /// The live node for a description: its cells and its switch are set to what the
    /// description says, and its meter shows nothing.
    pub fn from_desc(d: &NodeDesc) -> (r: Self)
        ensures
            r.wf(),
            r.kind == d.kind,
            r.values@ == live_values(d.kind, d.params@),
            r.bypassed == d.bypass,
            r.newly_made(),
    {
        let specs = d.kind.params();
        let mut values: Vec<u32> = Vec::new();
        let mut i: usize = 0;
        assert(nodes::views(specs@).len() == specs@.len());
        while i < specs.len()
            invariant
                i <= specs@.len(),
                nodes::views(specs@) == nodes::kind_params(d.kind),
                specs@.len() == nodes::kind_params(d.kind).len(),
                values@ == live_values(d.kind, d.params@).take(i as int),
                values@.len() == i,
            decreases specs@.len() - i,
        {
            let s = &specs[i];
            proof {
                assert(nodes::views(specs@)[i as int] == s@);
                nodes::every_parameter_is_sound(d.kind, i as int);
            }
            let v = match d.params.get(s.id) {
                Some(v) => s.clamp(*v),
                None => s.clamp(s.default),
            };
            values.push(v);
            assert(values@ =~= live_values(d.kind, d.params@).take(i + 1));
            i += 1;
        }
        assert(values@ =~= live_values(d.kind, d.params@));
        LiveNode {
            kind: d.kind,
            params: Knobs::new(&values),
            bypass: Switch::new(d.bypass),
            meter: Arc::new(AtomicF32::new(sample::ZERO)),
            values,
            bypassed: d.bypass,
        }
    }

    /// Sets a parameter, for the audio thread to see.
    pub fn set_value(&mut self, i: usize, v: u32)
        requires
            old(self).wf(),
            i < nodes::kind_params(old(self).kind).len(),
        ensures
            final(self).wf(),
            final(self).values@ == old(self).values@.update(i as int, v),
            final(self).kind == old(self).kind,
            final(self).params.cells() == old(self).params.cells(),
            final(self).params.last() == old(self).params.last().update(i as int, v),
            final(self).params.recorded(),
            final(self).bypass == old(self).bypass,
            final(self).meter == old(self).meter,
            final(self).bypassed == old(self).bypassed,
            nodes::stored_in(final(self).params.cells()[i as int].cell(), v),
    {
        self.params.put(i, v);
        self.values.set(i, v);
    }

    /// Switches the node off or on, for the audio thread to see.
    pub fn set_bypass(&mut self, on: bool)
        ensures
            final(self).bypassed == on,
            final(self).kind == old(self).kind,
            final(self).params == old(self).params,
            final(self).bypass.cell() == old(self).bypass.cell(),
            final(self).bypass.last() == on,
            final(self).bypass.recorded() == old(self).bypass.recorded(),
            final(self).meter == old(self).meter,
            final(self).values == old(self).values,
            nodes::turned_to(final(self).bypass.cell(), on),
    {
        self.bypass.turn(on);
        self.bypassed = on;
    }
}

// ---------------------------------------------------------------- compiling a board

/// Where a name stands last in a list of names, or -1.
pub open spec fn last_place(names: Seq<Seq<char>>, id: Seq<char>) -> int
    decreases names.len(),
{
    if names.len() == 0 {
        -1
    } else if names.last() == id {
        names.len() - 1
    } else {
        last_place(names.drop_last(), id)
    }
}

/// The buffer that a name's signal is found in: the device input is in buffer 0, the
/// output of step `i` in buffer `i + 1`.
pub open spec fn buffer_of(names: Seq<Seq<char>>, id: Seq<char>) -> Option<int> {
    if id == INPUT_ID@ {
        Some(0)
    } else if last_place(names, id) >= 0 {
        Some(last_place(names, id) + 1)
    } else {
        None
    }
}

/// The buffers that feed `id`, in the order of the cables.
pub open spec fn feeds(
    wires: Seq<(Seq<char>, Seq<char>)>,
    names: Seq<Seq<char>>,
    id: Seq<char>,
) -> Seq<int>
    decreases wires.len(),
{
    if wires.len() == 0 {
        Seq::empty()
    } else {
        let before = feeds(wires.drop_last(), names, id);
        let w = wires.last();
        match buffer_of(names, w.0) {
            Some(b) => if w.1 == id {
                before.push(b)
            } else {
                before
            },
            None => before,
        }
    }
}

/// Buffer numbers without their machine type.
pub open spec fn numbers(s: Seq<usize>) -> Seq<int> {
    s.map_values(|x: usize| x as int)
}

/// One node in the order of processing.
pub struct Step {
    sources: Vec<usize>,
    params: Lines,
    bypass: Watch,
    meter: Needle,
    level: u32,
}

/// A board put in order: everything that a schedule needs but the processors.
pub struct Plan {
    kinds: Vec<NodeKind>,
    steps: Vec<Step>,
    out_src: Vec<usize>,
}

/// Compiled graph. Built on control thread, executed on audio thread.
pub struct Schedule {
    /// procs[i] does the work of step i
    procs: Vec<Box<dyn Processor>>,
    steps: Vec<Step>,
    out_src: Vec<usize>,
    /// bufs[0] = device input, bufs[i+1] = output of step i
    bufs: Vec<Buf>,
    scratch: Buf,
    /// samples that are too small count as zero when they are added
    flush: bool,
    at: Cursor,
}

/// Where a name stands last in a list, or the length of the list.
fn find_last(names: &Vec<String>, id: &str) -> (r: usize)
    ensures
        r <= names@.len(),
        last_place(graph::texts(names@), id@) == if r < names@.len() {
            r as int
        } else {
            -1
        },
{
    let ghost all = graph::texts(names@);
    let mut i: usize = names.len();
    assert(all.take(all.len() as int) =~= all);
    while i > 0
        invariant
            i <= names@.len(),
            all == graph::texts(names@),
            last_place(all, id@) == last_place(all.take(i as int), id@),
        decreases i,
    {
        proof {
            assert(all.take(i as int).last() == all[i - 1]);
            assert(all.take(i as int).drop_last() =~= all.take(i - 1));
        }
        if text::same(names[i - 1].as_str(), id) {
            return i - 1;
        }
        i -= 1;
    }
    names.len()
}

/// The buffers that feed `id`.
fn sources(connections: &Vec<Connection>, names: &Vec<String>, id: &str) -> (r: Vec<usize>)
    requires
        names@.len() < usize::MAX,
    ensures
        numbers(r@) == feeds(graph::wires_of(connections@), graph::texts(names@), id@),
        forall|i: int| 0 <= i < r@.len() ==> #[trigger] r@[i] <= names@.len(),
{
    let ghost wires = graph::wires_of(connections@);
    let ghost order = graph::texts(names@);
    let mut r: Vec<usize> = Vec::new();
    let mut k: usize = 0;
    assert(numbers(r@) =~= feeds(wires.take(0), order, id@));
    while k < connections.len()
        invariant
            k <= connections@.len(),
            names@.len() < usize::MAX,
            wires == graph::wires_of(connections@),
            order == graph::texts(names@),
            numbers(r@) == feeds(wires.take(k as int), order, id@),
            forall|i: int| 0 <= i < r@.len() ==> #[trigger] r@[i] <= names@.len(),
        decreases connections@.len() - k,
    {
        let c = &connections[k];
        proof {
            assert(wires.take(k + 1).drop_last() =~= wires.take(k as int));
            assert(wires.take(k + 1).last() == c@);
        }
        let ghost before = numbers(r@);
        if text::same(c.to.as_str(), id) {
            if text::same(c.from.as_str(), INPUT_ID) {
                r.push(0);
                assert(numbers(r@) =~= before.push(0));
            } else {
                let at = find_last(names, c.from.as_str());
                if at < names.len() {
                    r.push(at + 1);
                    assert(numbers(r@) =~= before.push(at + 1));
                }
            }
        }
        k += 1;
    }
    assert(wires.take(wires.len() as int) =~= wires);
    r
}

/// The buffers that feed each step.
spec fn step_feeds(steps: Seq<Step>) -> Seq<Seq<int>> {
    steps.map_values(|s: Step| numbers(s.sources@))
}

/// Every buffer number is that of a buffer.
spec fn sources_exist(steps: Seq<Step>, out_src: Seq<usize>) -> bool {
    &&& forall|i: int, k: int|
        0 <= i < steps.len() && 0 <= k < steps[i].sources@.len()
            ==> #[trigger] steps[i].sources@[k] <= steps.len()
    &&& forall|k: int| 0 <= k < out_src.len() ==> #[trigger] out_src[k] <= steps.len()
}

/// A block of silence.
pub open spec fn silent(b: block::Block) -> bool {
    forall|i: int|
        #![trigger b.0[i]]
        #![trigger b.1[i]]
        0 <= i < MAX_BLOCK ==> b.0[i] == sample::ZERO && b.1[i] == sample::ZERO
}

/// A step uses the cells of a live node.
spec fn uses(s: Step, n: LiveNode) -> bool {
    s.params.cells() == n.params.cells() && s.bypass.cell() == n.bypass.cell() && s.meter.cell()
        == *n.meter
}

/// The first of some names that there is no live node for.
pub open spec fn missing_at(names: Seq<Seq<char>>, live: Set<Seq<char>>, i: int) -> bool {
    &&& 0 <= i < names.len()
    &&& !live.contains(names[i])
    &&& forall|j: int| 0 <= j < i ==> live.contains(#[trigger] names[j])
}

proof fn first_missing_is_unique(names: Seq<Seq<char>>, live: Set<Seq<char>>, i: int)
    requires
        missing_at(names, live, i),
    ensures
        (choose|k: int| missing_at(names, live, k)) == i,
{
    let k = choose|k: int| missing_at(names, live, k);
    if k < i {
        assert(live.contains(names[k]));
    } else if i < k {
        assert(live.contains(names[i]));
    }
}

/// Why a graph cannot be put in order, if it cannot.
pub open spec fn unplannable(
    ids: Seq<Seq<char>>,
    wires: Seq<(Seq<char>, Seq<char>)>,
    live: Set<Seq<char>>,
) -> Option<Seq<char>> {
    let names = order::sorted(ids, wires);
    if !order::sortable(ids, wires) {
        Some("connection would create a feedback loop"@)
    } else if exists|i: int| missing_at(names, live, i) {
        Some("missing live node "@ + names[choose|i: int| missing_at(names, live, i)])
    } else {
        None
    }
}

impl Plan {
    /// The steps are the nodes of a graph in their order, each with the cells of its live
    /// node, and fed as the cables say.
    pub open spec fn realises(
        &self,
        ids: Seq<Seq<char>>,
        wires: Seq<(Seq<char>, Seq<char>)>,
        live: Map<Seq<char>, LiveNode>,
    ) -> bool {
        let names = order::sorted(ids, wires);
        &&& self.wf()
        &&& self.kinds_in_order().len() == names.len()
        &&& self.fed_by() == names.map_values(|id: Seq<char>| feeds(wires, names, id))
        &&& self.out_fed_by() == feeds(wires, names, OUTPUT_ID@)
        &&& forall|i: int|
            0 <= i < names.len() ==> {
                &&& live.dom().contains(#[trigger] names[i])
                &&& self.kinds_in_order()[i] == live[names[i]].kind
                &&& self.listens_to(i, live[names[i]])
            }
    }

    /// The kinds of the nodes, in the order of processing.
    pub closed spec fn kinds_in_order(&self) -> Seq<NodeKind> {
        self.kinds@
    }

    /// The buffers that feed each step.
    pub closed spec fn fed_by(&self) -> Seq<Seq<int>> {
        step_feeds(self.steps@)
    }

    /// The buffers that feed the output.
    pub closed spec fn out_fed_by(&self) -> Seq<int> {
        numbers(self.out_src@)
    }

    /// A step uses the cells of a live node.
    pub closed spec fn listens_to(&self, i: int, n: LiveNode) -> bool {
        uses(self.steps@[i], n)
    }

    /// There is a kind for every step, and every buffer number is that of a buffer.
    pub closed spec fn wf(&self) -> bool {
        &&& self.kinds@.len() == self.steps@.len()
        &&& self.steps@.len() < usize::MAX
        &&& sources_exist(self.steps@, self.out_src@)
    }

    /// The kinds of the nodes, in the order of processing.
    pub fn kinds(&self) -> (r: &Vec<NodeKind>)
        ensures
            r@ == self.kinds_in_order(),
    {
        &self.kinds
    }
}

impl Schedule {
    /// The buffers that feed each step.
    pub closed spec fn fed_by(&self) -> Seq<Seq<int>> {
        step_feeds(self.steps@)
    }

    /// The buffers that feed the output.
    pub closed spec fn out_fed_by(&self) -> Seq<int> {
        numbers(self.out_src@)
    }

    /// The cells, switches and meters, in the order of processing.
    pub closed spec fn kit(&self) -> block::Kit {
        block::Kit {
            cells: self.steps@.map_values(|s: Step| s.params.cells()),
            switches: self.steps@.map_values(|s: Step| s.bypass.cell()),
            meters: self.steps@.map_values(|s: Step| s.meter.cell()),
        }
    }

    /// What each step has shown on its meter, one after the other.
    pub closed spec fn shown(&self) -> Seq<Seq<u32>> {
        self.steps@.map_values(|s: Step| s.meter.shown())
    }

    /// The processors, in the order of processing.
    pub open spec fn processors(&self) -> Seq<Box<dyn Processor>> {
        self.picture().procs
    }

    /// Nothing has been played yet: every buffer is silent, and the cursor is where it rests
    /// between blocks.
    pub open spec fn is_new(&self) -> bool {
        &&& self.picture().at == (Cursor::Sending { source: 0 })
        &&& !self.picture().flush
        &&& silent(self.picture().scratch)
        &&& forall|b: int|
            0 <= b < self.picture().bufs.len() ==> silent(#[trigger] self.picture().bufs[b])
    }

    /// A step uses the cells of a live node.
    pub open spec fn listens_to(&self, i: int, n: LiveNode) -> bool {
        &&& self.kit().cells[i] == n.params.cells()
        &&& self.kit().switches[i] == n.bypass.cell()
        &&& self.kit().meters[i] == *n.meter
    }

    /// There is a processor for every step, every buffer number is that of a buffer,
    /// every buffer holds a block, and the cursor stands somewhere.
    pub closed spec fn wf(&self) -> bool {
        &&& self.procs@.len() == self.steps@.len()
        &&& self.bufs@.len() == self.steps@.len() + 1
        &&& self.steps@.len() < usize::MAX
        &&& forall|b: int| 0 <= b < self.bufs@.len() ==> nodes::full_size(#[trigger] self.bufs@[b])
        &&& nodes::full_size(self.scratch)
        &&& sources_exist(self.steps@, self.out_src@)
        &&& match self.at {
            Cursor::Mixing { step, source } => step < self.steps@.len() && source
                <= self.steps@[step as int].sources@.len(),
            Cursor::Processing { step } => step < self.steps@.len(),
            Cursor::Sending { source } => source <= self.out_src@.len(),
        }
    }

    /// Puts a board in order.
    pub fn plan(board: &Board, live: &Table<LiveNode>) -> (r: Result<Plan, String>)
        requires
            board.nodes@.len() < usize::MAX,
        ensures
            match r {
                Ok(p) => {
                    &&& unplannable(board.ids(), board.wires(), live@.dom()) is None
                    &&& p.realises(board.ids(), board.wires(), live@)
                    &&& order::proper(board.ids()) ==> block::in_order(p.fed_by())
                },
                Err(e) => unplannable(board.ids(), board.wires(), live@.dom()) == Some(e@),
            },
    {
        let names = match board.topo_order() {
            Ok(names) => names,
            Err(e) => {
                return Err(e);
            },
        };
        let ghost all = order::sorted(board.ids(), board.wires());
        assert(graph::texts(names@) == all);
        assert(names@.len() == all.len() == board.nodes@.len());
        let mut kinds: Vec<NodeKind> = Vec::new();
        let mut steps: Vec<Step> = Vec::new();
        let mut i: usize = 0;
        while i < names.len()
            invariant
                i <= names@.len(),
                names@.len() < usize::MAX,
                graph::texts(names@) == all,
                all == order::sorted(board.ids(), board.wires()),
                order::sortable(board.ids(), board.wires()),
                kinds@.len() == i,
                steps@.len() == i,
                forall|j: int|
                    0 <= j < i ==> {
                        &&& live@.dom().contains(#[trigger] all[j])
                        &&& kinds@[j] == live@[all[j]].kind
                        &&& numbers(steps@[j].sources@) == feeds(board.wires(), all, all[j])
                        &&& uses(steps@[j], live@[all[j]])
                    },
                forall|j: int, k: int|
                    0 <= j < i && 0 <= k < steps@[j].sources@.len()
                        ==> #[trigger] steps@[j].sources@[k] <= names@.len(),
            decreases names@.len() - i,
        {
            assert(all[i as int] == names@[i as int]@);
            let ln = match live.get(names[i].as_str()) {
                Some(ln) => ln,
                None => {
                    proof {
                        assert(missing_at(all, live@.dom(), i as int));
                        first_missing_is_unique(all, live@.dom(), i as int);
                        assert(unplannable(board.ids(), board.wires(), live@.dom()) == Some(
                            "missing live node "@ + all[i as int],
                        ));
                    }
                    return Err(text::joined("missing live node ", names[i].as_str()));
                },
            };
            let fed = sources(&board.connections, &names, names[i].as_str());
            let ghost before = steps@;
            kinds.push(ln.kind);
            let step = Step {
                sources: fed,
                params: ln.params.lines(),
                bypass: ln.bypass.watched(),
                meter: Needle::new(&ln.meter),
                level: sample::ZERO,
            };
            steps.push(step);
            proof {
                assert forall|j: int| 0 <= j < i + 1 implies {
                    &&& live@.dom().contains(#[trigger] all[j])
                    &&& kinds@[j] == live@[all[j]].kind
                    &&& numbers(steps@[j].sources@) == feeds(board.wires(), all, all[j])
                    &&& uses(steps@[j], live@[all[j]])
                } by {
                    if j < i {
                        assert(steps@[j] == before[j]);
                    }
                }
                assert forall|j: int, k: int|
                    0 <= j < i + 1 && 0 <= k < steps@[j].sources@.len()
                        implies #[trigger] steps@[j].sources@[k] <= names@.len() by {
                    if j < i {
                        assert(steps@[j] == before[j]);
                    }
                }
            }
            i += 1;
        }
        let out_src = sources(&board.connections, &names, OUTPUT_ID);
        let r = Plan { kinds, steps, out_src };
        assert(r.fed_by() =~= all.map_values(|id: Seq<char>| feeds(board.wires(), all, id)));
        proof {
            if exists|k: int| missing_at(all, live@.dom(), k) {
                let k = choose|k: int| missing_at(all, live@.dom(), k);
                assert(live@.dom().contains(all[k]));
            }
            if order::proper(board.ids()) {
                sortable_board_runs_in_order(board.ids(), board.wires());
            }
        }
        Ok(r)
    }

    /// Completes a plan with a processor for each step.
    pub fn build(plan: Plan, procs: Vec<Box<dyn Processor>>) -> (r: Self)
        requires
            plan.wf(),
            procs@.len() == plan.kinds_in_order().len(),
        ensures
            r.wf(),
            r.fed_by() == plan.fed_by(),
            r.out_fed_by() == plan.out_fed_by(),
            r.processors() == procs@,
            r.is_new(),
            forall|i: int, n: LiveNode|
                0 <= i < procs@.len() && plan.listens_to(i, n) ==> #[trigger] r.listens_to(i, n),
    {
        let steps = plan.steps;
        let mut bufs: Vec<Buf> = Vec::new();
        let mut b: usize = 0;
        while b <= steps.len()
            invariant
                b <= steps@.len() + 1,
                steps@.len() < usize::MAX,
                bufs@.len() == b,
                forall|j: int| 0 <= j < b ==> nodes::full_size(#[trigger] bufs@[j]),
                forall|j: int| 0 <= j < b ==> silent(block::block_of(#[trigger] bufs@[j])),
            decreases steps@.len() + 1 - b,
        {
            let fresh = new_buf();
            assert(silent(block::block_of(fresh))) by {
                assert forall|i: int| 0 <= i < MAX_BLOCK implies #[trigger] fresh[0]@[i]
                    == sample::ZERO && #[trigger] fresh[1]@[i] == sample::ZERO by {}
            }
            bufs.push(fresh);
            b += 1;
        }
        let scratch = new_buf();
        assert(silent(block::block_of(scratch))) by {
            assert forall|i: int| 0 <= i < MAX_BLOCK implies #[trigger] scratch[0]@[i]
                == sample::ZERO && #[trigger] scratch[1]@[i] == sample::ZERO by {}
        }
        let r = Schedule {
            procs,
            steps,
            out_src: plan.out_src,
            bufs,
            scratch,
            flush: false,
            at: Cursor::Sending { source: 0 },
        };
        assert forall|b: int| 0 <= b < r.picture().bufs.len() implies silent(
            #[trigger] r.picture().bufs[b],
        ) by {
            assert(silent(block::block_of(r.bufs@[b])));
        }
        r
    }
}

/// A schedule on its way from one thread to another. Whoever unwraps it finds it sound.
pub struct Parcel {
    content: Box<Schedule>,
}

impl Parcel {
    #[verifier::type_invariant]
    spec fn holds_together(self) -> bool {
        self.content.wf()
    }

    /// The schedule in here.
    pub closed spec fn schedule(&self) -> Schedule {
        *self.content
    }

    /// Wraps a schedule.
    pub fn wrap(content: Box<Schedule>) -> (r: Self)
        requires
            content.wf(),
        ensures
            r.schedule() == *content,
    {
        Parcel { content }
    }

    /// Unwraps the schedule.
    pub fn unwrap(self) -> (r: Box<Schedule>)
        ensures
            *r == self.schedule(),
            r.wf(),
    {
        proof {
            use_type_invariant(&self);
        }
        self.content
    }
}

// ---------------------------------------------------------------- running a schedule

impl Schedule {
    /// What this schedule holds and where it stands.
    pub closed spec fn picture(&self) -> block::Picture {
        block::Picture {
            fed_by: self.fed_by(),
            out_fed_by: self.out_fed_by(),
            bufs: self.bufs@.map_values(|b: Buf| block::block_of(b)),
            scratch: block::block_of(self.scratch),
            levels: self.steps@.map_values(|s: Step| s.level),
            procs: self.procs@,
            flush: self.flush,
            at: self.at,
        }
    }

    /// The buffer that the device input is put into.
    pub fn input_mut(&mut self) -> (r: &mut Buf)
        requires
            old(self).wf(),
        ensures
            nodes::full_size(*r),
            block::block_of(*r) == old(self).picture().bufs[0],
            nodes::full_size(*final(r)) ==> final(self).wf(),
            final(self).picture() == (block::Picture {
                bufs: old(self).picture().bufs.update(0, block::block_of(*final(r))),
                ..old(self).picture()
            }),
            final(self).kit() == old(self).kit(),
            final(self).shown() == old(self).shown(),
    {
        &mut self.bufs[0]
    }

    /// Whether samples that are too small count as zero when they are added.
    pub fn flush_small(&mut self, on: bool)
        requires
            old(self).wf(),
        ensures
            final(self).wf(),
            final(self).picture() == (block::Picture { flush: on, ..old(self).picture() }),
            final(self).fed_by() == old(self).fed_by(),
            final(self).out_fed_by() == old(self).out_fed_by(),
            final(self).kit() == old(self).kit(),
            final(self).shown() == old(self).shown(),
    {
        self.flush = on;
    }

    /// Begins the processing of a step, or behind the last step that of the output.
    fn enter(&mut self, step: usize, n: usize, out: &mut Buf)
        requires
            old(self).wf(),
            nodes::full_size(*old(out)),
            n <= MAX_BLOCK,
            step <= old(self).picture().fed_by.len(),
        ensures
            final(self).wf(),
            nodes::full_size(*final(out)),
            (final(self).picture(), block::block_of(*final(out))) == block::entered(
                old(self).picture(),
                block::block_of(*old(out)),
                step as int,
                n as int,
            ),
            final(self).kit() == old(self).kit(),
            final(self).shown() == old(self).shown(),
    {
        if step < self.steps.len() {
            block::silence(&mut self.scratch, n);
            self.at = Cursor::Mixing { step, source: 0 };
        } else {
            block::silence(out, n);
            self.at = Cursor::Sending { source: 0 };
        }
        assert(self.picture() =~= block::entered(
            old(self).picture(),
            block::block_of(*old(out)),
            step as int,
            n as int,
        ).0);
    }

    /// Settles the output of a step, and shows its level on the meter.
    fn settle(&mut self, step: usize, n: usize) -> (peak: u32)
        requires
            old(self).wf(),
            n <= MAX_BLOCK,
            step < old(self).picture().fed_by.len(),
        ensures
            final(self).wf(),
            final(self).picture() == block::settled(old(self).picture(), step as int, n as int),
            peak == final(self).picture().levels[step as int],
            nodes::raised_by(old(self).kit().meters[step as int].cell(), peak),
            final(self).kit() == old(self).kit(),
            final(self).shown() == old(self).shown().update(
                step as int,
                old(self).shown()[step as int].push(peak),
            ),
    {
        let peak = block::purge(&mut self.bufs[step + 1], n);
        self.steps[step].level = peak;
        self.steps[step].meter.raise(peak);
        proof {
            let p = old(self).picture();
            let q = self.picture();
            assert(q.fed_by =~= p.fed_by) by {
                assert forall|i: int| 0 <= i < p.fed_by.len() implies q.fed_by[i] == p.fed_by[i] by {
                    assert(self.steps@[i].sources == old(self).steps@[i].sources);
                }
            }
            assert(sources_exist(self.steps@, self.out_src@)) by {
                assert forall|i: int, k: int|
                    0 <= i < self.steps@.len() && 0 <= k < self.steps@[i].sources@.len()
                        implies #[trigger] self.steps@[i].sources@[k] <= self.steps@.len() by {
                    assert(self.steps@[i].sources == old(self).steps@[i].sources);
                    assert(old(self).steps@[i].sources@[k] <= old(self).steps@.len());
                }
            }
            assert(q =~= block::settled(p, step as int, n as int));
            assert(self.kit() =~= old(self).kit());
            assert(self.shown() =~= old(self).shown().update(
                step as int,
                old(self).shown()[step as int].push(peak),
            ));
        }
        peak
    }

    /// Takes the processing of a block one step on, and says what is to be done before the
    /// next. `bypass` says whether the step at hand is switched off.
    pub fn next(&mut self, n: usize, bypass: bool, out: &mut Buf) -> (r: Work)
        requires
            old(self).wf(),
            nodes::full_size(*old(out)),
            n <= MAX_BLOCK,
        ensures
            final(self).wf(),
            nodes::full_size(*final(out)),
            (final(self).picture(), block::block_of(*final(out)), r) == block::next_work(
                old(self).picture(),
                block::block_of(*old(out)),
                n as int,
                bypass,
            ),
            final(self).kit() == old(self).kit(),
            final(self).shown() == match r {
                Work::Settled { step, peak } => old(self).shown().update(
                    step as int,
                    old(self).shown()[step as int].push(peak),
                ),
                _ => old(self).shown(),
            },
            r matches Work::Settled { step, peak } ==> nodes::raised_by(
                old(self).kit().meters[step as int].cell(),
                peak,
            ),
    {
        let ghost p = self.picture();
        let ghost o = block::block_of(*out);
        match self.at {
            Cursor::Mixing { step, source } => {
                assert(p.fed_by[step as int] == numbers(self.steps@[step as int].sources@));
                if source < self.steps[step].sources.len() {
                    let src = self.steps[step].sources[source];
                    self.at = Cursor::Mixing { step, source: source + 1 };
                    assert(self.picture() =~= block::next_work(p, o, n as int, bypass).0);
                    Work::Mix { src }
                } else if bypass {
                    block::copy(&mut self.bufs[step + 1], &self.scratch, n);
                    assert(self.picture() =~= block::passed_on(p, step as int, n as int));
                    let peak = self.settle(step, n);
                    self.enter(step + 1, n, out);
                    Work::Settled { step, peak }
                } else {
                    self.at = Cursor::Processing { step };
                    assert(self.picture() =~= block::next_work(p, o, n as int, bypass).0);
                    Work::Process { step }
                }
            },
            Cursor::Processing { step } => {
                let peak = self.settle(step, n);
                self.enter(step + 1, n, out);
                Work::Settled { step, peak }
            },
            Cursor::Sending { source } => if source < self.out_src.len() {
                let src = self.out_src[source];
                self.at = Cursor::Sending { source: source + 1 };
                assert(self.picture() =~= block::next_work(p, o, n as int, bypass).0);
                Work::Send { src }
            } else {
                Work::Ready
            },
        }
    }

    /// The switch of the step whose sources are being mixed.
    closed spec fn switch_at_hand(&self) -> AtomicBool {
        self.kit().switches[self.at->Mixing_step as int]
    }

    /// Whether the step at hand is switched off at this moment: what its switch is found at,
    /// and no where no step is at hand. Another thread may turn a switch at any time, so no
    /// more is said of what it is found at.
    fn bypassed(&self) -> (r: bool)
        requires
            self.wf(),
        ensures
            if self.picture().at is Mixing {
                nodes::found_at(self.switch_at_hand(), r)
            } else {
                !r
            },
    {
        match self.at {
            Cursor::Mixing { step, source: _ } => self.steps[step].bypass.find(),
            _ => false,
        }
    }

    /// Lets the processor of a step turn the mix into the output of the step: it gets the
    /// cells of the step and the mix, and what it makes of them is the output of the step.
    /// Should it not leave room for a block there, it is silent.
    fn process(&mut self, step: usize, n: usize)
        requires
            old(self).wf(),
            step < old(self).picture().fed_by.len(),
        ensures
            final(self).wf(),
            final(self).picture() == (block::Picture {
                bufs: old(self).picture().bufs.update(
                    step + 1,
                    final(self).picture().bufs[step + 1],
                ),
                procs: final(self).picture().procs,
                ..old(self).picture()
            }),
            block::processed(
                old(self).processors(),
                step as int,
                old(self).kit().cells[step as int],
                old(self).picture().scratch,
                old(self).picture().bufs[step + 1],
                n as int,
                final(self).picture().bufs[step + 1],
                final(self).processors()[step as int].memory(),
            ),
            block::others_kept(old(self).processors(), final(self).processors(), step as int),
            final(self).kit() == old(self).kit(),
            final(self).shown() == old(self).shown(),
    {
        self.steps[step].params.drive(
            &mut self.procs[step],
            &self.scratch,
            &mut self.bufs[step + 1],
            n,
        );
        let ghost made = block::block_of(self.bufs@[step + 1]);
        block::refit(&mut self.bufs[step + 1][0]);
        block::refit(&mut self.bufs[step + 1][1]);
        assert(self.picture().bufs =~= old(self).picture().bufs.update(
            step + 1,
            self.picture().bufs[step + 1],
        ));
        proof {
            assert(old(self).processors()[step as int].may_turn(
                old(self).kit().cells[step as int],
                old(self).picture().scratch,
                old(self).picture().bufs[step + 1],
                n as int,
                made,
                self.processors()[step as int].memory(),
            ));
        }
    }

    /// Adds a buffer to the mix of the step at hand.
    fn mix(&mut self, src: usize, n: usize)
        requires
            old(self).wf(),
            src < old(self).picture().bufs.len(),
            n <= MAX_BLOCK,
        ensures
            final(self).wf(),
            final(self).picture() == (block::Picture {
                scratch: final(self).picture().scratch,
                ..old(self).picture()
            }),
            block::mixed(
                old(self).picture().flush,
                old(self).picture().scratch,
                old(self).picture().bufs[src as int],
                n as int,
                final(self).picture().scratch,
            ),
            final(self).kit() == old(self).kit(),
            final(self).shown() == old(self).shown(),
    {
        block::mix_in(&mut self.scratch, &self.bufs[src], n, self.flush);
    }

    /// Adds a buffer to the output.
    fn send(&self, src: usize, n: usize, out: &mut Buf)
        requires
            self.wf(),
            nodes::full_size(*old(out)),
            src < self.picture().bufs.len(),
            n <= MAX_BLOCK,
        ensures
            nodes::full_size(*final(out)),
            block::mixed(
                self.picture().flush,
                block::block_of(*old(out)),
                self.picture().bufs[src as int],
                n as int,
                block::block_of(*final(out)),
            ),
    {
        block::mix_in(out, &self.bufs[src], n, self.flush);
    }

    /// Process one block of `n` frames (n <= MAX_BLOCK). Input must already be in
    /// `input_mut()`. For each step its sources are added up; its processor makes its output of
    /// them, or its output is the mix itself where its switch is found turned off; what is not
    /// finite is made silent, and its meter is raised. Then the sources of the output are added
    /// up. What the processors make is their own matter; each that is called is called once, and
    /// the next block begins with what it remembers.
    pub fn run(&mut self, n: usize, out: &mut Buf)
        requires
            old(self).wf(),
            nodes::full_size(*old(out)),
            n <= MAX_BLOCK,
        ensures
            final(self).wf(),
            nodes::full_size(*final(out)),
            final(self).fed_by() == old(self).fed_by(),
            final(self).out_fed_by() == old(self).out_fed_by(),
            final(self).kit() == old(self).kit(),
            final(self).shown().len() == old(self).shown().len(),
            forall|i: int|
                0 <= i < old(self).shown().len() ==> #[trigger] final(self).shown()[i] == old(
                    self,
                ).shown()[i].push(block::block_peak(final(self).picture().bufs[i + 1], n as int)),
            final(self).processors().len() == old(self).processors().len(),
            final(self).picture().bufs[0] == old(self).picture().bufs[0],
            forall|b: int|
                1 <= b < final(self).picture().bufs.len() ==> block::clean(
                    #[trigger] final(self).picture().bufs[b],
                    n as int,
                ),
            exists|run: Seq<block::Scene>|
                {
                    &&& #[trigger] block::worked_off(
                        run,
                        (old(self).picture(), block::block_of(*old(out))),
                        n as int,
                        old(self).kit(),
                    )
                    &&& run.last() == (final(self).picture(), block::block_of(*final(out)))
                },
            block::in_order(old(self).fed_by()) ==> outcome::block_outcome(
                (old(self).picture(), block::block_of(*old(out))),
                (final(self).picture(), block::block_of(*final(out))),
                n as int,
                old(self).kit(),
            ),
            forall|ch: int, i: int|
                0 <= ch < 2 && n <= i < MAX_BLOCK ==> #[trigger] final(out)[ch]@[i] == old(
                    out,
                )[ch]@[i],
    {
        let ghost from: block::Scene = (self.picture(), block::block_of(*out));
        let ghost kit = self.kit();
        self.enter(0, n, out);
        let ghost mut run: Seq<block::Scene> = seq![(self.picture(), block::block_of(*out))];
        proof {
            schedule_is_sound(old(self));
            block::block_stays_clean(from.0, from.1, n as int, false);
        }
        loop
            invariant
                self.wf(),
                nodes::full_size(*out),
                n <= MAX_BLOCK,
                self.fed_by() == old(self).fed_by(),
                self.out_fed_by() == old(self).out_fed_by(),
                self.picture().bufs[0] == from.0.bufs[0],
                self.kit() == kit,
                self.processors().len() == old(self).processors().len(),
                self.shown().len() == self.picture().fed_by.len(),
                old(self).shown().len() == self.picture().fed_by.len(),
                forall|i: int|
                    0 <= i < self.shown().len() ==> #[trigger] self.shown()[i] == if i
                        < block::steps_done(self.picture()) {
                        old(self).shown()[i].push(
                            block::block_peak(self.picture().bufs[i + 1], n as int),
                        )
                    } else {
                        old(self).shown()[i]
                    },
                block::silenced(block::block_of(*out), n as int) == block::silenced(
                    from.1,
                    n as int,
                ),
                block::clean_so_far(self.picture(), n as int),
                run.len() > 0,
                run[0] == block::entered(from.0, from.1, 0, n as int),
                forall|i: int|
                    0 <= i < run.len() - 1 ==> #[trigger] block::linked(run, i, n as int, kit),
                run.last() == (self.picture(), block::block_of(*out)),
            ensures
                block::works_left(self.picture()) == 0,
                self.picture().at is Sending,
            decreases block::works_left(self.picture()),
        {
            let ghost a: block::Scene = (self.picture(), block::block_of(*out));
            let bypass = self.bypassed();
            proof {
                schedule_is_sound(self);
                block::block_stays_clean(a.0, a.1, n as int, bypass);
                block::block_comes_to_an_end(a.0, a.1, n as int, bypass);
            }
            let work = self.next(n, bypass, out);
            let ghost p = self.picture();
            proof {
                schedule_is_sound(self);
            }
            match work {
                Work::Mix { src } => {
                    proof {
                        let at = a.0.at;
                        assert(0 <= a.0.fed_by[at->Mixing_step as int][at->Mixing_source as int]
                            <= a.0.fed_by.len());
                    }
                    self.mix(src, n);
                },
                Work::Process { step } => {
                    self.process(step, n);
                },
                Work::Settled { step: _, peak: _ } => {},
                Work::Send { src } => {
                    proof {
                        let at = a.0.at;
                        assert(0 <= a.0.out_fed_by[at->Sending_source as int]
                            <= a.0.fed_by.len());
                    }
                    self.send(src, n, out);
                },
                Work::Ready => {
                    break;
                },
            }
            proof {
                let b: block::Scene = (self.picture(), block::block_of(*out));
                block::works_left_is_the_same(p, b.0);
                assert(block::silenced(b.1, n as int).0 =~= block::silenced(a.1, n as int).0);
                assert(block::silenced(b.1, n as int).1 =~= block::silenced(a.1, n as int).1);
                schedule_is_sound(self);
                block::block_comes_to_an_end(b.0, b.1, n as int, false);
                assert(block::worked_with(a, b, n as int, bypass, kit));
                assert(block::worked(a, b, n as int, kit));
                let longer = run.push(b);
                assert forall|i: int| 0 <= i < longer.len() - 1 implies #[trigger] block::linked(
                    longer,
                    i,
                    n as int,
                    kit,
                ) by {
                    if i < run.len() - 1 {
                        assert(block::linked(run, i, n as int, kit));
                    }
                }
                run = longer;
                assert forall|b: int| 1 <= b <= block::steps_done(self.picture()) implies block::clean(
                    #[trigger] self.picture().bufs[b],
                    n as int,
                ) by {
                    assert(block::clean(p.bufs[b], n as int));
                }
            }
        }
        assert(block::worked_off(run, from, n as int, kit));
        proof {
            let rest = block::silenced(from.1, n as int);
            assert forall|ch: int, i: int| 0 <= ch < 2 && n <= i < MAX_BLOCK implies #[trigger] out[ch]@[i]
                == old(out)[ch]@[i] by {
                assert(block::silenced(block::block_of(*out), n as int).0[i] == rest.0[i]);
                assert(block::silenced(block::block_of(*out), n as int).1[i] == rest.1[i]);
            }
            if block::in_order(old(self).fed_by()) {
                outcome::run_comes_to_its_outcome(run, from, n as int, kit);
            }
        }
    }
}

// ---------------------------------------------------------------- laws

/// Every schedule looks as it should.
pub proof fn schedule_is_sound(s: &Schedule)
    requires
        s.wf(),
    ensures
        block::sound(s.picture()),
        s.picture().fed_by == s.fed_by(),
        s.picture().out_fed_by == s.out_fed_by(),
        s.processors().len() == s.fed_by().len(),
        s.kit().cells.len() == s.fed_by().len(),
        s.kit().switches.len() == s.fed_by().len(),
        s.kit().meters.len() == s.fed_by().len(),
{
    let p = s.picture();
    assert(s.out_src.len() == p.out_fed_by.len());
    assert forall|i: int| 0 <= i < p.fed_by.len() implies (#[trigger] p.fed_by[i]).len()
        <= usize::MAX by {
        assert(s.steps@[i].sources.len() == p.fed_by[i].len());
    }
    assert forall|b: int| 0 <= b < p.bufs.len() implies (#[trigger] p.bufs[b]).0.len()
        == MAX_BLOCK && p.bufs[b].1.len() == MAX_BLOCK by {
        assert(nodes::full_size(s.bufs@[b]));
    }
    assert forall|i: int, k: int|
        0 <= i < p.fed_by.len() && 0 <= k < p.fed_by[i].len() implies 0 <= #[trigger] p.fed_by[i][k]
        <= p.fed_by.len() by {
        assert(s.steps@[i].sources@[k] <= s.steps@.len());
    }
    assert forall|k: int| 0 <= k < p.out_fed_by.len() implies 0 <= #[trigger] p.out_fed_by[k]
        <= p.fed_by.len() by {
        assert(s.out_src@[k] <= s.steps@.len());
    }
}

proof fn last_place_is_last(names: Seq<Seq<char>>, id: Seq<char>)
    ensures
        -1 <= last_place(names, id) < names.len(),
        last_place(names, id) >= 0 ==> names[last_place(names, id)] == id,
        last_place(names, id) < 0 ==> !names.contains(id),
        forall|j: int| last_place(names, id) < j < names.len() ==> #[trigger] names[j] != id,
    decreases names.len(),
{
    if names.len() > 0 && names.last() != id {
        let t = names.drop_last();
        last_place_is_last(t, id);
        assert forall|j: int| last_place(names, id) < j < names.len() implies #[trigger] names[j]
            != id by {
            if j < t.len() {
                assert(t[j] == names[j]);
            }
        }
        if names.contains(id) {
            let i = choose|i: int| 0 <= i < names.len() && names[i] == id;
            assert(t[i] == id);
        }
    }
}

proof fn feeds_come_from_wires(
    wires: Seq<(Seq<char>, Seq<char>)>,
    names: Seq<Seq<char>>,
    id: Seq<char>,
    k: int,
) -> (w: int)
    requires
        0 <= k < feeds(wires, names, id).len(),
    ensures
        0 <= w < wires.len(),
        wires[w].1 == id,
        buffer_of(names, wires[w].0) == Some(feeds(wires, names, id)[k]),
    decreases wires.len(),
{
    let t = wires.drop_last();
    let before = feeds(t, names, id);
    if k < before.len() {
        let w = feeds_come_from_wires(t, names, id, k);
        assert(t[w] == wires[w]);
        w
    } else {
        wires.len() - 1
    }
}

/// Compiled from a board whose nodes have names of their own, a schedule runs every step behind
/// all those that it takes its signal from, whatever else is wrong with the cables.
pub proof fn sortable_board_runs_in_order(
    ids: Seq<Seq<char>>,
    wires: Seq<(Seq<char>, Seq<char>)>,
)
    requires
        order::proper(ids),
        order::sortable(ids, wires),
    ensures
        block::in_order(
            order::sorted(ids, wires).map_values(
                |id: Seq<char>| feeds(wires, order::sorted(ids, wires), id),
            ),
        ),
{
    let names = order::sorted(ids, wires);
    let fed_by = names.map_values(|id: Seq<char>| feeds(wires, names, id));
    order::sorted_order_serves(ids, wires);
    assert forall|i: int, k: int| 0 <= i < fed_by.len() && 0 <= k < fed_by[i].len() implies 0
        <= #[trigger] fed_by[i][k] <= i by {
        let w = feeds_come_from_wires(wires, names, names[i], k);
        assert(wires[w].1 == names[i]);
        if wires[w].0 != INPUT_ID@ {
            let j = choose|j: int| 0 <= j < i && #[trigger] names[j] == wires[w].0;
            last_place_is_last(names, wires[w].0);
            assert(names[j] == wires[w].0);
        }
    }
}

proof fn wire_feeds(
    wires: Seq<(Seq<char>, Seq<char>)>,
    names: Seq<Seq<char>>,
    w: int,
    b: int,
)
    requires
        0 <= w < wires.len(),
        buffer_of(names, wires[w].0) == Some(b),
    ensures
        feeds(wires, names, wires[w].1).contains(b),
    decreases wires.len(),
{
    let id = wires[w].1;
    let t = wires.drop_last();
    let before = feeds(t, names, id);
    let all = feeds(wires, names, id);
    if w == wires.len() - 1 {
        assert(all[before.len() as int] == b);
    } else {
        assert(t[w] == wires[w]);
        wire_feeds(t, names, w, b);
        let i = choose|i: int| 0 <= i < before.len() && before[i] == b;
        assert(all[i] == b);
    }
}

/// Compiled from a board whose nodes have names of their own, a schedule hears every cable that
/// begins at the input or at a node: what it begins at is among the sources of what it ends at.
pub proof fn every_cable_is_heard(
    ids: Seq<Seq<char>>,
    wires: Seq<(Seq<char>, Seq<char>)>,
    w: int,
)
    requires
        order::proper(ids),
        order::sortable(ids, wires),
        0 <= w < wires.len(),
        wires[w].0 == INPUT_ID@ || ids.contains(wires[w].0),
    ensures
        buffer_of(order::sorted(ids, wires), wires[w].0) is Some,
        feeds(wires, order::sorted(ids, wires), wires[w].1).contains(
            buffer_of(order::sorted(ids, wires), wires[w].0)->0,
        ),
{
    let names = order::sorted(ids, wires);
    if wires[w].0 != INPUT_ID@ {
        order::sorted_names_all(ids, wires);
        last_place_is_last(names, wires[w].0);
    }
    wire_feeds(wires, names, w, buffer_of(names, wires[w].0)->0);
}

/// The cables that end at `id` and begin somewhere: at the device input or at one of some names.
pub open spec fn ends_at(
    names: Seq<Seq<char>>,
    id: Seq<char>,
) -> spec_fn((Seq<char>, Seq<char>)) -> bool {
    |w: (Seq<char>, Seq<char>)| w.1 == id && (w.0 == "in"@ || names.contains(w.0))
}

/// The buffer of what has a name: the first for the device input, and for a node that behind the
/// last place where it is named.
pub open spec fn begins_at(names: Seq<Seq<char>>, id: Seq<char>, b: int) -> bool {
    if id == "in"@ {
        b == 0
    } else {
        &&& 1 <= b <= names.len()
        &&& names[b - 1] == id
        &&& forall|j: int| b <= j < names.len() ==> #[trigger] names[j] != id
    }
}

/// The sources of a step, and of the output, are the cables that end there, one source for each
/// cable and in their order: the source of a cable from the device input is the input buffer, that
/// of a cable from a node is the output of the step of that name, the last if there are two.
pub proof fn every_cable_is_one_source(
    wires: Seq<(Seq<char>, Seq<char>)>,
    names: Seq<Seq<char>>,
    id: Seq<char>,
)
    ensures
        ({
            let cables = wires.filter(ends_at(names, id));
            let sources = feeds(wires, names, id);
            &&& sources.len() == cables.len()
            &&& forall|k: int|
                0 <= k < cables.len() ==> begins_at(names, cables[k].0, #[trigger] sources[k])
        }),
    decreases wires.len(),
{
    reveal(Seq::filter);
    let keep = ends_at(names, id);
    let cables = wires.filter(keep);
    let sources = feeds(wires, names, id);
    if wires.len() > 0 {
        let t = wires.drop_last();
        every_cable_is_one_source(t, names, id);
        let w = wires.last();
        last_place_is_last(names, w.0);
        let few = t.filter(keep);
        let before = feeds(t, names, id);
        if last_place(names, w.0) >= 0 {
            assert(names.contains(names[last_place(names, w.0)]));
        }
        assert(cables == if keep(w) {
            few.push(w)
        } else {
            few
        });
        assert forall|k: int| 0 <= k < cables.len() implies begins_at(
            names,
            cables[k].0,
            #[trigger] sources[k],
        ) by {
            if k < few.len() {
                assert(cables[k] == few[k]);
                assert(sources[k] == before[k]);
            }
        }
    }
}

/// A live node is set to what its description says of its parameters: a parameter that the
/// description leaves out, or says no number of, is at its default; a number within the limits is
/// taken as it is, where there are no steps; and a number beyond them becomes the limit.
pub proof fn live_values_follow_the_description(
    kind: NodeKind,
    params: Map<Seq<char>, u32>,
    i: int,
)
    requires
        0 <= i < nodes::kind_params(kind).len(),
    ensures
        live_values(kind, params).len() == nodes::kind_params(kind).len(),
        ({
            let p = nodes::kind_params(kind)[i];
            let said = params[p.id];
            let v = live_values(kind, params)[i];
            &&& !params.dom().contains(p.id) || !sample::finite(said) ==> v == p.default
            &&& params.dom().contains(p.id) && sample::finite(said) ==> {
                &&& p.options.len() == 0 && sample::value(p.min) <= sample::value(said)
                    <= sample::value(p.max) ==> v == said
                &&& sample::value(said) < sample::value(p.min) ==> sample::value(v)
                    == sample::value(p.min)
                &&& sample::value(said) > sample::value(p.max) ==> sample::value(v)
                    == sample::value(p.max)
            }
        }),
{
    let p = nodes::kind_params(kind)[i];
    nodes::defaults_are_settings(kind, i);
    nodes::settings_are_nearest(kind, i, params[p.id]);
}

/// Where no name is the first without a live node, every name has one.
pub proof fn nothing_missing(names: Seq<Seq<char>>, live: Set<Seq<char>>, k: int)
    requires
        0 <= k < names.len(),
        !exists|i: int| missing_at(names, live, i),
    ensures
        live.contains(names[k]),
    decreases k,
{
    if !live.contains(names[k]) {
        assert(!missing_at(names, live, k));
        let j = choose|j: int| 0 <= j < k && !live.contains(#[trigger] names[j]);
        nothing_missing(names, live, j);
    }
}

/// A plan has a step for each node, in an order in which none comes before what it takes its
/// signal from. Each step, and the output, has one source for each cable that ends there; and each
/// step makes the processor of its node's kind, and listens to that node's knobs and switch.
pub proof fn plans_follow_the_board(
    plan: Plan,
    ids: Seq<Seq<char>>,
    wires: Seq<(Seq<char>, Seq<char>)>,
    live: Map<Seq<char>, LiveNode>,
    i: int,
    k: int,
)
    requires
        plan.realises(ids, wires, live),
        order::proper(ids),
        order::sortable(ids, wires),
        0 <= i < ids.len(),
    ensures
        plan.kinds_in_order().len() == ids.len(),
        plan.fed_by().len() == ids.len(),
        ({
            let names = order::sorted(ids, wires);
            let cables = wires.filter(ends_at(names, names[i]));
            let last = wires.filter(ends_at(names, "out"@));
            &&& order::serves(ids, wires, names)
            &&& live.dom().contains(names[i])
            &&& plan.kinds_in_order()[i] == live[names[i]].kind
            &&& plan.listens_to(i, live[names[i]])
            &&& plan.fed_by()[i].len() == cables.len()
            &&& 0 <= k < cables.len() ==> begins_at(names, cables[k].0, plan.fed_by()[i][k])
            &&& plan.out_fed_by().len() == last.len()
            &&& 0 <= k < last.len() ==> begins_at(names, last[k].0, plan.out_fed_by()[k])
        }),
{
    let names = order::sorted(ids, wires);
    order::sorted_order_serves(ids, wires);
    every_cable_is_one_source(wires, names, names[i]);
    every_cable_is_one_source(wires, names, "out"@);
    assert(live.dom().contains(names[i]));
}

/// A step that listens to a live node reads that node's own knobs and switch, and shows its peaks
/// on that node's own meter.
pub proof fn steps_read_what_is_set(s: Schedule, i: int, n: LiveNode)
    requires
        s.listens_to(i, n),
    ensures
        s.kit().cells[i] == n.params.cells(),
        s.kit().switches[i] == n.bypass.cell(),
        s.kit().meters[i] == *n.meter,
{
}

/// What a live node was told last is what it has on record.
pub proof fn records_are_kept(n: LiveNode)
    requires
        n.wf(),
    ensures
        n.params.last() == n.values@,
        n.bypass.last() == n.bypassed,
        n.values@.len() == nodes::kind_params(n.kind).len(),
        n.params.cells().len() == n.values@.len(),
{
}

/// A new live node begins with its knobs at the values on record, its switch as on record, and
/// nothing on its meter.
pub proof fn new_live_nodes_begin_as_recorded(n: LiveNode, i: int)
    requires
        n.newly_made(),
        0 <= i < n.values@.len(),
    ensures
        nodes::made_of(n.values@[i], n.params.cells()[i].cell()),
        nodes::switch_made(n.bypassed, n.bypass.cell()),
        nodes::made_of(0, n.meter.cell()),
{
}

/// A new schedule is silent, everywhere, and has nothing begun.
pub proof fn new_schedules_are_silent(s: Schedule, b: int, i: int)
    requires
        s.is_new(),
        0 <= b < s.picture().bufs.len(),
        0 <= i < MAX_BLOCK,
    ensures
        s.picture().bufs[b].0[i] == 0 && s.picture().bufs[b].1[i] == 0,
        s.picture().scratch.0[i] == 0 && s.picture().scratch.1[i] == 0,
        !s.picture().flush,
        s.picture().at == (Cursor::Sending { source: 0 }),
{
    assert(silent(s.picture().bufs[b]));
}

/// Where a board cannot be compiled it is said why: for feedback, or else for the first node in
/// the order of processing that has no live node, by its name.
pub proof fn missing_nodes_are_named(
    ids: Seq<Seq<char>>,
    wires: Seq<(Seq<char>, Seq<char>)>,
    live: Set<Seq<char>>,
    i: int,
)
    ensures
        !order::sortable(ids, wires) ==> unplannable(ids, wires, live) == Some(
            "connection would create a feedback loop"@,
        ),
        ({
            let names = order::sorted(ids, wires);
            order::sortable(ids, wires) && 0 <= i < names.len() && !live.contains(names[i]) && (
            forall|j: int| 0 <= j < i ==> live.contains(#[trigger] names[j])) ==> unplannable(
                ids,
                wires,
                live,
            ) == Some("missing live node "@ + names[i])
        }),
{
    let names = order::sorted(ids, wires);
    if missing_at(names, live, i) {
        first_missing_is_unique(names, live, i);
    }
}

/// A board that can be compiled gives a plan in which the output has one source for each cable
/// that ends there, and so has each step.
pub proof fn planning_hears_each_cable_once(
    board: &Board,
    live: &Table<LiveNode>,
    r: Result<Plan, String>,
    i: int,
)
    requires
        call_ensures(Schedule::plan, (board, live), r),
        r is Ok,
        0 <= i < order::sorted(board.ids(), board.wires()).len(),
    ensures
        ({
            let names = order::sorted(board.ids(), board.wires());
            let plan = r->Ok_0;
            &&& plan.out_fed_by().len() == board.wires().filter(ends_at(names, "out"@)).len()
            &&& plan.fed_by()[i].len() == board.wires().filter(ends_at(names, names[i])).len()
        }),
{
    let names = order::sorted(board.ids(), board.wires());
    every_cable_is_one_source(board.wires(), names, names[i]);
    every_cable_is_one_source(board.wires(), names, "out"@);
}

} // verus!
