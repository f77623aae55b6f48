//! The pedalboard: nodes, and the connections between them.
use crate::nodes::NodeKind;
use crate::order;
use crate::table::Table;
use crate::text;
use vstd::prelude::*;

verus! {

/// The name of the device input.
pub const INPUT_ID: &'static str = "in";

/// The name of the device output.
pub const OUTPUT_ID: &'static str = "out";

/// One node of a board. Numbers are patterns.
#[derive(Clone)]
pub struct NodeDesc {
    pub id: String,
    pub kind: NodeKind,
    pub params: Table<u32>,
    pub bypass: bool,
    pub x: u32,
    pub y: u32,
}

impl NodeDesc {
    /// Two descriptions say the same.
    pub open spec fn says(&self, other: NodeDesc) -> bool {
        &&& self.id@ == other.id@
        &&& self.kind == other.kind
        &&& self.params@ == other.params@
        &&& self.bypass == other.bypass
        &&& self.x == other.x
        &&& self.y == other.y
    }

    /// A description that says the same.
    pub fn copy(&self) -> (r: Self)
        ensures
            r.says(*self),
    {
        NodeDesc {
            id: self.id.clone(),
            kind: self.kind,
            params: self.params.copy(),
            bypass: self.bypass,
            x: self.x,
            y: self.y,
        }
    }
}

/// A cable from one node to another.
#[derive(Debug, Clone, PartialEq, Eq)]
pub struct Connection {
    pub from: String,
    pub to: String,
}

impl View for Connection {
    type V = (Seq<char>, Seq<char>);

    open spec fn view(&self) -> (Seq<char>, Seq<char>) {
        (self.from@, self.to@)
    }
}

/// A pedalboard.
#[derive(Clone)]
pub struct Board {
    pub name: String,
    pub nodes: Vec<NodeDesc>,
    pub connections: Vec<Connection>,
    pub next_id: u32,
}

/// The names of some nodes.
pub open spec fn ids_of(nodes: Seq<NodeDesc>) -> Seq<Seq<char>> {
    nodes.map_values(|n: NodeDesc| n.id@)
}

/// Some connections as pairs of names.
pub open spec fn wires_of(connections: Seq<Connection>) -> Seq<(Seq<char>, Seq<char>)> {
    connections.map_values(|c: Connection| c@)
}

/// Some names as text.
pub open spec fn texts(names: Seq<String>) -> Seq<Seq<char>> {
    names.map_values(|s: String| s@)
}

/// A name that a connection may begin or end at.
pub open spec fn known(ids: Seq<Seq<char>>, id: Seq<char>) -> bool {
    id == INPUT_ID@ || id == OUTPUT_ID@ || order::slot(ids, id) >= 0
}

/// Why a connection cannot be added to a graph, if it cannot.
pub open spec fn refusal(
    ids: Seq<Seq<char>>,
    wires: Seq<(Seq<char>, Seq<char>)>,
    c: (Seq<char>, Seq<char>),
) -> Option<Seq<char>> {
    if !known(ids, c.0) || !known(ids, c.1) {
        Some("unknown node"@)
    } else if c.0 == OUTPUT_ID@ || c.1 == INPUT_ID@ || c.0 == c.1 {
        Some("invalid direction"@)
    } else if wires.contains(c) {
        Some("already connected"@)
    } else if !order::sortable(ids, wires.push(c)) {
        Some("connection would create a feedback loop"@)
    } else {
        None
    }
}

impl Board {
    /// The names of the nodes.
    pub open spec fn ids(&self) -> Seq<Seq<char>> {
        ids_of(self.nodes@)
    }

    /// The connections as pairs of names.
    pub open spec fn wires(&self) -> Seq<(Seq<char>, Seq<char>)> {
        wires_of(self.connections@)
    }
}

impl Default for Board {
    /// A board that passes the input straight to the output.
    fn default() -> (r: Self)
        ensures
            r.name@ == "Default"@,
            r.nodes@.len() == 0,
            r.wires() == seq![(INPUT_ID@, OUTPUT_ID@)],
            r.next_id == 1,
    {
        let straight = Connection { from: INPUT_ID.to_owned(), to: OUTPUT_ID.to_owned() };
        let r = Board {
            name: "Default".to_owned(),
            nodes: Vec::new(),
            connections: vec![straight],
            next_id: 1,
        };
        assert(r.wires() =~= seq![(INPUT_ID@, OUTPUT_ID@)]);
        r
    }
}

/// Whether two cables have the same ends.
pub fn same_connection(a: &Connection, b: &Connection) -> (r: bool)
    ensures
        r == (a@ == b@),
{
    a.from == b.from && a.to == b.to
}

/// Where a node stands first in a list, or the length of the list.
fn find_node(nodes: &Vec<NodeDesc>, id: &str) -> (r: usize)
    ensures
        r <= nodes@.len(),
        r < nodes@.len() ==> order::slot(ids_of(nodes@), id@) == r,
        r == nodes@.len() ==> order::slot(ids_of(nodes@), id@) == -1,
{
    let ghost ids = ids_of(nodes@);
    proof {
        order::slot_is_first(ids, id@);
    }
    let mut i: usize = 0;
    while i < nodes.len()
        invariant
            i <= nodes@.len(),
            ids == ids_of(nodes@),
            forall|j: int| 0 <= j < i ==> #[trigger] ids[j] != id@,
            -1 <= order::slot(ids, id@) < ids.len(),
            order::slot(ids, id@) >= 0 ==> ids[order::slot(ids, id@)] == id@,
        decreases nodes@.len() - i,
    {
        if text::same(nodes[i].id.as_str(), id) {
            proof {
                assert(ids[i as int] == id@);
                order::slot_of_first(ids, i as int);
            }
            return i;
        }
        assert(ids[i as int] != id@);
        i += 1;
    }
    i
}

/// How far a sort is, in terms of the model.
spec fn mirrors(waiting: Seq<usize>, ready: Seq<usize>, p: order::Progress) -> bool {
    &&& waiting.len() == p.waiting.len()
    &&& ready.len() == p.ready.len()
    &&& forall|v: int| 0 <= v < waiting.len() ==> #[trigger] waiting[v] == p.waiting[v]
    &&& forall|i: int| 0 <= i < ready.len() ==> #[trigger] ready[i] == p.ready[i]
}

/// Every slot is where its own name stands first.
spec fn firsts(ids: Seq<Seq<char>>, slots: Seq<usize>) -> bool {
    forall|i: int|
        0 <= i < slots.len() ==> 0 <= #[trigger] slots[i] < ids.len() && order::slot(
            ids,
            ids[slots[i] as int],
        ) == slots[i]
}

/// A connection with its ends looked up; an end that is no node is the number of nodes.
fn ends_of(nodes: &Vec<NodeDesc>, c: &Connection) -> (r: (usize, usize))
    ensures
        r.0 <= nodes@.len(),
        r.1 <= nodes@.len(),
        order::slot(ids_of(nodes@), c@.0) == if r.0 < nodes@.len() {
            r.0 as int
        } else {
            -1
        },
        order::slot(ids_of(nodes@), c@.1) == if r.1 < nodes@.len() {
            r.1 as int
        } else {
            -1
        },
{
    (find_node(nodes, c.from.as_str()), find_node(nodes, c.to.as_str()))
}

/// The looked-up ends of some connections.
spec fn looked_up(
    ids: Seq<Seq<char>>,
    wires: Seq<(Seq<char>, Seq<char>)>,
    ends: Seq<(usize, usize)>,
) -> bool {
    &&& ends.len() == wires.len()
    &&& forall|k: int|
        0 <= k < ends.len() ==> {
            &&& (#[trigger] ends[k]).0 <= ids.len()
            &&& ends[k].1 <= ids.len()
            &&& order::slot(ids, wires[k].0) == if ends[k].0 < ids.len() {
                ends[k].0 as int
            } else {
                -1
            }
            &&& order::slot(ids, wires[k].1) == if ends[k].1 < ids.len() {
                ends[k].1 as int
            } else {
                -1
            }
        }
}

proof fn pending_is_bounded(
    ids: Seq<Seq<char>>,
    wires: Seq<(Seq<char>, Seq<char>)>,
    done: Seq<int>,
    v: int,
)
    ensures
        0 <= order::pending(ids, wires, done, v) <= wires.len(),
    decreases wires.len(),
{
    if wires.len() > 0 {
        pending_is_bounded(ids, wires.drop_last(), done, v);
    }
}

/// Serves the wires that begin at the node at slot `v`.
fn serve_all(
    ends: &Vec<(usize, usize)>,
    v: usize,
    waiting: &mut Vec<usize>,
    ready: &mut Vec<usize>,
    Ghost(ids): Ghost<Seq<Seq<char>>>,
    Ghost(wires): Ghost<Seq<(Seq<char>, Seq<char>)>>,
    Ghost(p): Ghost<order::Progress>,
)
    requires
        looked_up(ids, wires, ends@),
        mirrors(old(waiting)@, old(ready)@, p),
        firsts(ids, old(ready)@),
        p.waiting.len() == ids.len(),
        v < ids.len(),
        order::slot(ids, ids[v as int]) == v,
    ensures
        mirrors(
            final(waiting)@,
            final(ready)@,
            order::served(ids, wires, v as int, p, wires.len() as int),
        ),
        firsts(ids, final(ready)@),
{
    let n = waiting.len();
    let mut k: usize = 0;
    while k < ends.len()
        invariant
            looked_up(ids, wires, ends@),
            k <= ends@.len(),
            n == ids.len(),
            v < ids.len(),
            order::slot(ids, ids[v as int]) == v,
            order::served(ids, wires, v as int, p, k as int).waiting.len() == ids.len(),
            mirrors(waiting@, ready@, order::served(ids, wires, v as int, p, k as int)),
            firsts(ids, ready@),
        decreases ends@.len() - k,
    {
        let ghost q = order::served(ids, wires, v as int, p, k as int);
        let e = ends[k];
        proof {
            order::slot_is_first(ids, wires[k as int].0);
            order::slot_is_first(ids, wires[k as int].1);
            assert((e.0 == v) == (wires[k as int].0 == ids[v as int]));
        }
        if e.0 == v && e.1 < n {
            let left = waiting[e.1];
            assert(left == q.waiting[e.1 as int]);
            if left > 0 {
                waiting.set(e.1, left - 1);
                if left == 1 {
                    ready.push(e.1);
                }
            }
        }
        k += 1;
    }
}

/// Sorts nodes so that each stands behind those that it takes its signal from.
fn sort(nodes: &Vec<NodeDesc>, connections: &Vec<Connection>, extra: Option<&Connection>) -> (r:
    Option<Vec<String>>)
    ensures
        ({
            let wires = wires_of(connections@) + match extra {
                Some(c) => seq![c@],
                None => Seq::empty(),
            };
            match r {
                Some(names) => order::sortable(ids_of(nodes@), wires) && texts(names@)
                    == order::sorted(ids_of(nodes@), wires),
                None => !order::sortable(ids_of(nodes@), wires),
            }
        }),
{
    let ghost ids = ids_of(nodes@);
    let ghost wires = wires_of(connections@) + match extra {
        Some(c) => seq![c@],
        None => Seq::empty(),
    };
    let n = nodes.len();
    let mut ends: Vec<(usize, usize)> = Vec::new();
    let mut waiting: Vec<usize> = vec![0; n];
    let mut k: usize = 0;
    while k < connections.len()
        invariant
            k <= connections@.len(),
            n == nodes@.len(),
            ids == ids_of(nodes@),
            wires.len() >= connections@.len(),
            wires.take(connections@.len() as int) == wires_of(connections@),
            looked_up(ids, wires.take(k as int), ends@),
            waiting@.len() == n,
            forall|v: int|
                0 <= v < n ==> #[trigger] waiting@[v] == order::pending(
                    ids,
                    wires.take(k as int),
                    Seq::empty(),
                    v,
                ),
        decreases connections@.len() - k,
    {
        let c = &connections[k];
        proof {
            assert(wires[k as int] == wires.take(connections@.len() as int)[k as int]);
        }
        count_wire(nodes, c, &mut ends, &mut waiting, Ghost(wires), Ghost(k as int));
        k += 1;
    }
    match extra {
        Some(c) => {
            count_wire(nodes, c, &mut ends, &mut waiting, Ghost(wires), Ghost(k as int));
        },
        None => {},
    }
    assert(wires.take(wires.len() as int) =~= wires);
    let ghost start = order::at_start(ids, wires);
    let mut ready: Vec<usize> = Vec::new();
    let mut i: usize = 0;
    while i < n
        invariant
            i <= n,
            n == nodes@.len(),
            ids == ids_of(nodes@),
            start == order::at_start(ids, wires),
            waiting@.len() == n,
            forall|v: int| 0 <= v < n ==> #[trigger] waiting@[v] == start.waiting[v],
            firsts(ids, ready@),
            ready@.len() == order::ready_among(ids, start.waiting, i as int).len(),
            forall|j: int|
                0 <= j < ready@.len() ==> #[trigger] ready@[j] == order::ready_among(
                    ids,
                    start.waiting,
                    i as int,
                )[j],
        decreases n - i,
    {
        let s = find_node(nodes, nodes[i].id.as_str());
        proof {
            order::slot_is_first(ids, ids[i as int]);
            assert(ids[i as int] == nodes@[i as int].id@);
            order::slot_is_first(ids, ids[s as int]);
        }
        if waiting[s] == 0 {
            ready.push(s);
        }
        i += 1;
    }
    let mut names: Vec<String> = Vec::new();
    let ghost mut rounds: nat = 0;
    while ready.len() > 0
        invariant
            n == nodes@.len(),
            ids == ids_of(nodes@),
            looked_up(ids, wires, ends@),
            order::after(ids, wires, rounds).waiting.len() == ids.len(),
            mirrors(waiting@, ready@, order::after(ids, wires, rounds)),
            firsts(ids, ready@),
            texts(names@) == order::after(ids, wires, rounds).order.map_values(|v: int| ids[v]),
        decreases order::rounds_left(order::after(ids, wires, rounds)),
    {
        let ghost p = order::after(ids, wires, rounds);
        let ghost held = ready@;
        match ready.pop() {
            Some(v) => {
                assert(held[held.len() - 1] == v);
                assert(firsts(ids, ready@)) by {
                    assert forall|j: int| 0 <= j < ready@.len() implies 0 <= #[trigger] ready@[j]
                        < ids.len() && order::slot(ids, ids[ready@[j] as int]) == ready@[j] by {
                        assert(held[j] == ready@[j]);
                    }
                }
                assert(v < ids.len() && order::slot(ids, ids[v as int]) == v);
                assert(p.ready.last() == v);
                let name = nodes[v].id.clone();
                let ghost before = names@;
                names.push(name);
                proof {
                    assert(texts(names@) =~= texts(before).push(ids[v as int]));
                    assert(order::taken(p).order.map_values(|v: int| ids[v]) =~= p.order.map_values(
                        |v: int| ids[v],
                    ).push(ids[v as int]));
                    assert(mirrors(waiting@, ready@, order::taken(p)));
                    order::advancing_uses_a_round(ids, wires, p);
                    serving_keeps_order(ids, wires, v as int, order::taken(p), wires.len() as int);
                }
                serve_all(
                    &ends,
                    v,
                    &mut waiting,
                    &mut ready,
                    Ghost(ids),
                    Ghost(wires),
                    Ghost(order::taken(p)),
                );
                proof {
                    rounds = rounds + 1;
                    assert(order::after(ids, wires, rounds) == order::advanced(ids, wires, p));
                }
            },
            None => {},
        }
    }
    proof {
        order::idle_is_the_end(ids, wires, rounds);
        assert(texts(names@) == order::sorted(ids, wires));
        assert(texts(names@).len() == names@.len());
    }
    if names.len() == n {
        Some(names)
    } else {
        None
    }
}

proof fn serving_keeps_order(
    ids: Seq<Seq<char>>,
    wires: Seq<(Seq<char>, Seq<char>)>,
    v: int,
    p: order::Progress,
    k: int,
)
    ensures
        order::served(ids, wires, v, p, k).order == p.order,
    decreases k,
{
    if k > 0 {
        serving_keeps_order(ids, wires, v, p, k - 1);
    }
}

/// Looks up the ends of the `k`-th wire and counts it for the node that it holds back.
fn count_wire(
    nodes: &Vec<NodeDesc>,
    c: &Connection,
    ends: &mut Vec<(usize, usize)>,
    waiting: &mut Vec<usize>,
    Ghost(wires): Ghost<Seq<(Seq<char>, Seq<char>)>>,
    Ghost(k): Ghost<int>,
)
    requires
        0 <= k < wires.len(),
        wires[k] == c@,
        looked_up(ids_of(nodes@), wires.take(k), old(ends)@),
        old(waiting)@.len() == nodes@.len(),
        forall|v: int|
            0 <= v < nodes@.len() ==> #[trigger] old(waiting)@[v] == order::pending(
                ids_of(nodes@),
                wires.take(k),
                Seq::empty(),
                v,
            ),
    ensures
        looked_up(ids_of(nodes@), wires.take(k + 1), final(ends)@),
        final(waiting)@.len() == nodes@.len(),
        forall|v: int|
            0 <= v < nodes@.len() ==> #[trigger] final(waiting)@[v] == order::pending(
                ids_of(nodes@),
                wires.take(k + 1),
                Seq::empty(),
                v,
            ),
{
    let ghost ids = ids_of(nodes@);
    let e = ends_of(nodes, c);
    proof {
        assert(wires.take(k + 1).drop_last() =~= wires.take(k));
        assert(wires.take(k + 1).last() == c@);
        assert(k == ends@.len());
    }
    ends.push(e);
    let total = ends.len();
    assert(looked_up(ids, wires.take(k + 1), ends@)) by {
        assert forall|j: int| 0 <= j < ends@.len() implies {
            &&& (#[trigger] ends@[j]).0 <= ids.len()
            &&& ends@[j].1 <= ids.len()
            &&& order::slot(ids, wires.take(k + 1)[j].0) == if ends@[j].0 < ids.len() {
                ends@[j].0 as int
            } else {
                -1
            }
            &&& order::slot(ids, wires.take(k + 1)[j].1) == if ends@[j].1 < ids.len() {
                ends@[j].1 as int
            } else {
                -1
            }
        } by {
            if j < k {
                assert(ends@[j] == old(ends)@[j]);
                assert(wires.take(k)[j] == wires.take(k + 1)[j]);
            }
        }
    }
    if e.1 < nodes.len() && !text::same(c.from.as_str(), INPUT_ID) {
        proof {
            pending_is_bounded(ids, wires.take(k), Seq::empty(), e.1 as int);
            assert(total == k + 1);
        }
        let w = waiting[e.1];
        waiting.set(e.1, w + 1);
    }
}

impl Board {
    /// The node with a given name.
    pub fn node(&self, id: &str) -> (r: Option<&NodeDesc>)
        ensures
            match r {
                Some(n) => order::slot(self.ids(), id@) >= 0 && *n == self.nodes@[order::slot(
                    self.ids(),
                    id@,
                )],
                None => order::slot(self.ids(), id@) < 0,
            },
    {
        let i = find_node(&self.nodes, id);
        if i < self.nodes.len() {
            Some(&self.nodes[i])
        } else {
            None
        }
    }

    /// The node with a given name, to be changed in place.
    pub fn node_mut(&mut self, id: &str) -> (r: Option<&mut NodeDesc>)
        ensures
            match r {
                Some(n) => {
                    let s = order::slot(old(self).ids(), id@);
                    &&& 0 <= s < old(self).nodes@.len()
                    &&& *n == old(self).nodes@[s]
                    &&& final(self).nodes@ == old(self).nodes@.update(s, *final(n))
                    &&& final(self).name == old(self).name
                    &&& final(self).connections == old(self).connections
                    &&& final(self).next_id == old(self).next_id
                },
                None => order::slot(old(self).ids(), id@) < 0 && *final(self) == *old(self),
            },
    {
        let i = find_node(&self.nodes, id);
        if i < self.nodes.len() {
            Some(&mut self.nodes[i])
        } else {
            None
        }
    }

    fn is_known(&self, id: &str) -> (r: bool)
        ensures
            r == known(self.ids(), id@),
    {
        text::same(id, INPUT_ID) || text::same(id, OUTPUT_ID) || self.node(id).is_some()
    }

    /// Whether a cable with these ends is there already.
    pub fn has_connection(&self, c: &Connection) -> (r: bool)
        ensures
            r == self.wires().contains(c@),
    {
        let mut i: usize = 0;
        while i < self.connections.len()
            invariant
                i <= self.connections@.len(),
                forall|j: int| 0 <= j < i ==> #[trigger] self.wires()[j] != c@,
            decreases self.connections@.len() - i,
        {
            if same_connection(&self.connections[i], c) {
                assert(self.wires()[i as int] == c@);
                return true;
            }
            i += 1;
        }
        false
    }

    /// Validates a new connection (endpoints, duplicates, cycles).
    pub fn can_connect(&self, c: &Connection) -> (r: Result<(), String>)
        ensures
            match r {
                Ok(()) => refusal(self.ids(), self.wires(), c@) is None,
                Err(e) => refusal(self.ids(), self.wires(), c@) == Some(e@),
            },
    {
        if !self.is_known(c.from.as_str()) || !self.is_known(c.to.as_str()) {
            return Err("unknown node".to_owned());
        }
        if text::same(c.from.as_str(), OUTPUT_ID) || text::same(c.to.as_str(), INPUT_ID) || c.from
            == c.to {
            return Err("invalid direction".to_owned());
        }
        if self.has_connection(c) {
            return Err("already connected".to_owned());
        }
        assert(self.wires() + seq![c@] =~= self.wires().push(c@));
        match sort(&self.nodes, &self.connections, Some(c)) {
            Some(_) => Ok(()),
            None => Err("connection would create a feedback loop".to_owned()),
        }
    }

    /// Topological sort of the processing nodes. Fails on a cycle.
    pub fn topo_order(&self) -> (r: Result<Vec<String>, String>)
        ensures
            match r {
                Ok(names) => order::sortable(self.ids(), self.wires()) && texts(names@)
                    == order::sorted(self.ids(), self.wires()),
                Err(e) => !order::sortable(self.ids(), self.wires()) && e@
                    == "connection would create a feedback loop"@,
            },
    {
        assert(self.wires() + Seq::empty() =~= self.wires());
        match sort(&self.nodes, &self.connections, None) {
            Some(names) => Ok(names),
            None => Err("connection would create a feedback loop".to_owned()),
        }
    }
}

// ---------------------------------------------------------------- editing

/// The connections that do not have the ends `c`.
pub open spec fn other_than(c: (Seq<char>, Seq<char>)) -> spec_fn((Seq<char>, Seq<char>)) -> bool {
    |w: (Seq<char>, Seq<char>)| w != c
}

/// The connections that neither begin nor end at `id`.
pub open spec fn away_from(id: Seq<char>) -> spec_fn((Seq<char>, Seq<char>)) -> bool {
    |w: (Seq<char>, Seq<char>)| w.0 != id && w.1 != id
}

/// The nodes that are not named `id`.
pub open spec fn not_named(id: Seq<char>) -> spec_fn(NodeDesc) -> bool {
    |n: NodeDesc| n.id@ != id
}

/// The names other than `id`.
pub open spec fn not_name(id: Seq<char>) -> spec_fn(Seq<char>) -> bool {
    |x: Seq<char>| x != id
}

/// Some connections without those that have the ends `c`.
pub open spec fn without_wire(
    wires: Seq<(Seq<char>, Seq<char>)>,
    c: (Seq<char>, Seq<char>),
) -> Seq<(Seq<char>, Seq<char>)> {
    wires.filter(other_than(c))
}

/// Some connections without those that begin or end at `id`.
pub open spec fn without_ends(
    wires: Seq<(Seq<char>, Seq<char>)>,
    id: Seq<char>,
) -> Seq<(Seq<char>, Seq<char>)> {
    wires.filter(away_from(id))
}

/// Some nodes without those named `id`.
pub open spec fn without_named(nodes: Seq<NodeDesc>, id: Seq<char>) -> Seq<NodeDesc> {
    nodes.filter(not_named(id))
}

/// What a filter keeps of a sequence, by its last element.
proof fn filter_last<A>(s: Seq<A>, f: spec_fn(A) -> bool)
    ensures
        s.len() == 0 ==> s.filter(f) == Seq::<A>::empty(),
        s.len() > 0 ==> s.filter(f) == if f(s.last()) {
            s.drop_last().filter(f).push(s.last())
        } else {
            s.drop_last().filter(f)
        },
{
    reveal(Seq::filter);
}

/// One element further into a sequence, what a filter keeps.
proof fn filter_step<A>(s: Seq<A>, f: spec_fn(A) -> bool, p: int)
    requires
        0 <= p < s.len(),
    ensures
        s.take(p + 1).filter(f) == if f(s[p]) {
            s.take(p).filter(f).push(s[p])
        } else {
            s.take(p).filter(f)
        },
{
    assert(s.take(p + 1).drop_last() =~= s.take(p));
    assert(s.take(p + 1).last() == s[p]);
    filter_last(s.take(p + 1), f);
}

/// A filter leaves no more than there was.
pub proof fn fewer_left<A>(s: Seq<A>, f: spec_fn(A) -> bool)
    ensures
        s.filter(f).len() <= s.len(),
    decreases s.len(),
{
    filter_last(s, f);
    if s.len() > 0 {
        fewer_left(s.drop_last(), f);
    }
}

impl Board {
    /// Takes away every cable with the ends of `c`.
    pub fn drop_connection(&mut self, c: &Connection)
        ensures
            final(self).wires() == without_wire(old(self).wires(), c@),
            final(self).name == old(self).name,
            final(self).nodes == old(self).nodes,
            final(self).next_id == old(self).next_id,
    {
        let ghost all = self.wires();
        let ghost keep = other_than(c@);
        let ghost mut p: int = 0;
        let mut i: usize = 0;
        assert(all.take(0).filter(keep) =~= Seq::empty());
        assert(all.skip(0) =~= all);
        while i < self.connections.len()
            invariant
                0 <= p <= all.len(),
                i <= self.connections@.len(),
                keep == other_than(c@),
                i == all.take(p).filter(keep).len(),
                self.wires() == all.take(p).filter(keep) + all.skip(p),
                self.name == old(self).name,
                self.nodes == old(self).nodes,
                self.next_id == old(self).next_id,
            decreases self.connections@.len() - i,
        {
            let ghost before = self.wires();
            assert(self.wires().len() == self.connections@.len());
            proof {
                assert(p < all.len());
                assert(before[i as int] == all[p]);
                filter_step(all, keep, p);
                assert(all.skip(p).drop_first() =~= all.skip(p + 1));
            }
            if same_connection(&self.connections[i], c) {
                self.connections.remove(i);
                assert(self.wires() =~= before.remove(i as int));
                assert(self.wires() =~= all.take(p + 1).filter(keep) + all.skip(p + 1));
            } else {
                i += 1;
                assert(self.wires() =~= all.take(p + 1).filter(keep) + all.skip(p + 1));
            }
            proof {
                p = p + 1;
            }
        }
        proof {
            assert(self.wires().len() == self.connections@.len());
            assert(all.skip(p).len() == 0);
            assert(all.take(p) =~= all);
            assert(self.wires() =~= all.filter(keep));
        }
    }

    /// Takes away every cable that begins or ends at `id`.
    fn drop_ends(&mut self, id: &str)
        ensures
            final(self).wires() == without_ends(old(self).wires(), id@),
            final(self).name == old(self).name,
            final(self).nodes == old(self).nodes,
            final(self).next_id == old(self).next_id,
    {
        let ghost all = self.wires();
        let ghost keep = away_from(id@);
        let ghost mut p: int = 0;
        let mut i: usize = 0;
        assert(all.take(0).filter(keep) =~= Seq::empty());
        assert(all.skip(0) =~= all);
        while i < self.connections.len()
            invariant
                0 <= p <= all.len(),
                i <= self.connections@.len(),
                keep == away_from(id@),
                i == all.take(p).filter(keep).len(),
                self.wires() == all.take(p).filter(keep) + all.skip(p),
                self.name == old(self).name,
                self.nodes == old(self).nodes,
                self.next_id == old(self).next_id,
            decreases self.connections@.len() - i,
        {
            let ghost before = self.wires();
            assert(self.wires().len() == self.connections@.len());
            proof {
                assert(p < all.len());
                assert(before[i as int] == all[p]);
                filter_step(all, keep, p);
                assert(all.skip(p).drop_first() =~= all.skip(p + 1));
            }
            if text::same(self.connections[i].from.as_str(), id) || text::same(
                self.connections[i].to.as_str(),
                id,
            ) {
                self.connections.remove(i);
                assert(self.wires() =~= before.remove(i as int));
                assert(self.wires() =~= all.take(p + 1).filter(keep) + all.skip(p + 1));
            } else {
                i += 1;
                assert(self.wires() =~= all.take(p + 1).filter(keep) + all.skip(p + 1));
            }
            proof {
                p = p + 1;
            }
        }
        proof {
            assert(self.wires().len() == self.connections@.len());
            assert(all.skip(p).len() == 0);
            assert(all.take(p) =~= all);
            assert(self.wires() =~= all.filter(keep));
        }
    }

    /// Takes away every node named `id`, and the cables that begin or end there.
    pub fn drop_node(&mut self, id: &str)
        ensures
            final(self).nodes@ == without_named(old(self).nodes@, id@),
            final(self).wires() == without_ends(old(self).wires(), id@),
            final(self).name == old(self).name,
            final(self).next_id == old(self).next_id,
    {
        let ghost all = self.nodes@;
        let ghost keep = not_named(id@);
        let ghost mut p: int = 0;
        let mut i: usize = 0;
        assert(all.take(0).filter(keep) =~= Seq::empty());
        assert(all.skip(0) =~= all);
        while i < self.nodes.len()
            invariant
                0 <= p <= all.len(),
                i <= self.nodes@.len(),
                keep == not_named(id@),
                i == all.take(p).filter(keep).len(),
                self.nodes@ == all.take(p).filter(keep) + all.skip(p),
                self.name == old(self).name,
                self.connections == old(self).connections,
                self.next_id == old(self).next_id,
            decreases self.nodes@.len() - i,
        {
            let ghost before = self.nodes@;
            proof {
                assert(p < all.len());
                assert(before[i as int] == all[p]);
                filter_step(all, keep, p);
                assert(all.skip(p).drop_first() =~= all.skip(p + 1));
            }
            if text::same(self.nodes[i].id.as_str(), id) {
                self.nodes.remove(i);
                assert(self.nodes@ =~= all.take(p + 1).filter(keep) + all.skip(p + 1));
            } else {
                i += 1;
                assert(self.nodes@ =~= all.take(p + 1).filter(keep) + all.skip(p + 1));
            }
            proof {
                p = p + 1;
            }
        }
        proof {
            assert(all.skip(p).len() == 0);
            assert(all.take(p) =~= all);
            assert(self.nodes@ =~= all.filter(keep));
        }
        self.drop_ends(id);
    }
}

// ---------------------------------------------------------------- laws

/// A graph as it should be: proper names, cables that begin and end somewhere, no cable
/// twice, and an order in which the nodes can be processed.
pub open spec fn well_formed(
    ids: Seq<Seq<char>>,
    wires: Seq<(Seq<char>, Seq<char>)>,
) -> bool {
    &&& order::proper(ids)
    &&& !ids.contains(OUTPUT_ID@)
    &&& forall|k: int|
        0 <= k < wires.len() ==> ((#[trigger] wires[k]).0 == INPUT_ID@ || ids.contains(wires[k].0))
            && (wires[k].1 == OUTPUT_ID@ || ids.contains(wires[k].1))
    &&& wires.no_duplicates()
    &&& order::sortable(ids, wires)
}

proof fn slot_means_contained(ids: Seq<Seq<char>>, id: Seq<char>)
    ensures
        order::slot(ids, id) >= 0 <==> ids.contains(id),
{
    order::slot_is_first(ids, id);
    if order::slot(ids, id) >= 0 {
        assert(ids[order::slot(ids, id)] == id);
    }
}

/// The board that everything starts from is well formed.
pub proof fn default_graph_is_well_formed()
    ensures
        well_formed(Seq::empty(), seq![(INPUT_ID@, OUTPUT_ID@)]),
{
    let ids = Seq::<Seq<char>>::empty();
    let wires = seq![(INPUT_ID@, OUTPUT_ID@)];
    order::sort_finds_an_order(ids, wires, Seq::empty());
}

/// A cable that is accepted keeps a graph well formed.
pub proof fn accepted_cable_keeps_well_formed(
    ids: Seq<Seq<char>>,
    wires: Seq<(Seq<char>, Seq<char>)>,
    c: (Seq<char>, Seq<char>),
)
    requires
        well_formed(ids, wires),
        refusal(ids, wires, c) is None,
    ensures
        well_formed(ids, wires.push(c)),
{
    slot_means_contained(ids, c.0);
    slot_means_contained(ids, c.1);
}

/// Of the cables that join two known ends the right way round and are not there yet,
/// exactly those are refused that would let the graph feed back into itself.
pub proof fn refused_means_feedback(
    ids: Seq<Seq<char>>,
    wires: Seq<(Seq<char>, Seq<char>)>,
    c: (Seq<char>, Seq<char>),
)
    requires
        well_formed(ids, wires),
        known(ids, c.0),
        known(ids, c.1),
        c.0 != OUTPUT_ID@,
        c.1 != INPUT_ID@,
        c.0 != c.1,
        !wires.contains(c),
    ensures
        refusal(ids, wires, c) is Some <==> order::has_cycle(ids, wires.push(c)),
        refusal(ids, wires, c) is Some ==> refusal(ids, wires, c) == Some(
            "connection would create a feedback loop"@,
        ),
{
    slot_means_contained(ids, c.0);
    slot_means_contained(ids, c.1);
    let more = wires.push(c);
    assert forall|k: int|
        0 <= k < more.len() && ids.contains((#[trigger] more[k]).1) implies more[k].0 == "in"@
        || ids.contains(more[k].0) by {
        if k < wires.len() {
            assert(more[k] == wires[k]);
        }
    }
    order::unsortable_means_cycle(ids, more);
}

/// A well-formed graph does not feed back into itself, and its order serves every cable.
pub proof fn well_formed_has_no_feedback(
    ids: Seq<Seq<char>>,
    wires: Seq<(Seq<char>, Seq<char>)>,
)
    requires
        well_formed(ids, wires),
    ensures
        !order::has_cycle(ids, wires),
        order::serves(ids, wires, order::sorted(ids, wires)),
{
    order::unsortable_means_cycle(ids, wires);
    order::sorted_order_serves(ids, wires);
}

proof fn filtered_without_duplicates<A>(s: Seq<A>, f: spec_fn(A) -> bool)
    requires
        s.no_duplicates(),
    ensures
        s.filter(f).no_duplicates(),
    decreases s.len(),
{
    filter_last(s, f);
    if s.len() > 0 {
        let t = s.drop_last();
        assert(t.no_duplicates()) by {
            assert forall|i: int, j: int|
                0 <= i < t.len() && 0 <= j < t.len() && i != j implies t[i] != t[j] by {
                assert(t[i] == s[i] && t[j] == s[j]);
            }
        }
        filtered_without_duplicates(t, f);
        if f(s.last()) {
            let g = t.filter(f);
            assert(!g.contains(s.last())) by {
                if g.contains(s.last()) {
                    t.lemma_filter_contains_rev(f, s.last());
                    let i = choose|i: int| 0 <= i < t.len() && t[i] == s.last();
                    assert(s[i] == s[s.len() - 1]);
                }
            }
            assert(s.filter(f) == g.push(s.last()));
        }
    }
}

/// Taking a cable away keeps a graph well formed.
pub proof fn removed_cable_keeps_well_formed(
    ids: Seq<Seq<char>>,
    wires: Seq<(Seq<char>, Seq<char>)>,
    c: (Seq<char>, Seq<char>),
)
    requires
        well_formed(ids, wires),
    ensures
        well_formed(ids, without_wire(wires, c)),
        !without_wire(wires, c).contains(c),
{
    let keep = other_than(c);
    let fewer = wires.filter(keep);
    filtered_without_duplicates(wires, keep);
    assert forall|k: int| 0 <= k < fewer.len() implies wires.contains(#[trigger] fewer[k])
        && fewer[k] != c by {
        wires.lemma_filter_pred(keep, k);
        assert(fewer.contains(fewer[k]));
        wires.lemma_filter_contains_rev(keep, fewer[k]);
    }
    order::fewer_wires_stay_sortable(ids, wires, fewer);
    assert forall|k: int| 0 <= k < fewer.len() implies ((#[trigger] fewer[k]).0 == INPUT_ID@
        || ids.contains(fewer[k].0)) && (fewer[k].1 == OUTPUT_ID@ || ids.contains(
        fewer[k].1,
    )) by {
        assert(wires.contains(fewer[k]));
        let w = choose|w: int| 0 <= w < wires.len() && wires[w] == fewer[k];
        assert(wires[w] == fewer[k]);
    }
}

/// Taking away a cable just put in gives the cables from before.
pub proof fn disconnect_undoes_connect(
    wires: Seq<(Seq<char>, Seq<char>)>,
    c: (Seq<char>, Seq<char>),
)
    requires
        !wires.contains(c),
    ensures
        without_wire(wires.push(c), c) == wires,
{
    let keep = other_than(c);
    filter_last(wires.push(c), keep);
    assert(wires.push(c).drop_last() =~= wires);
    assert(wires.push(c).filter(keep) == wires.filter(keep));
    all_kept(wires, keep);
}

proof fn all_kept<A>(s: Seq<A>, f: spec_fn(A) -> bool)
    requires
        forall|i: int| 0 <= i < s.len() ==> f(#[trigger] s[i]),
    ensures
        s.filter(f) == s,
    decreases s.len(),
{
    filter_last(s, f);
    if s.len() > 0 {
        let t = s.drop_last();
        assert forall|i: int| 0 <= i < t.len() implies f(#[trigger] t[i]) by {
            assert(t[i] == s[i]);
        }
        all_kept(t, f);
        assert(f(s[s.len() - 1]));
        assert(s.filter(f) == t.push(s.last()));
        assert(t.push(s.last()) =~= s);
    }
}

/// The names that are left when the nodes named `id` are taken away.
pub open spec fn ids_without(ids: Seq<Seq<char>>, id: Seq<char>) -> Seq<Seq<char>> {
    ids.filter(not_name(id))
}

/// Taking nodes away by name takes away their names.
pub proof fn names_without_named(nodes: Seq<NodeDesc>, id: Seq<char>)
    ensures
        ids_of(without_named(nodes, id)) == ids_without(ids_of(nodes), id),
    decreases nodes.len(),
{
    let keep = not_named(id);
    filter_last(nodes, keep);
    filter_last(ids_of(nodes), not_name(id));
    if nodes.len() > 0 {
        let t = nodes.drop_last();
        names_without_named(t, id);
        assert(ids_of(nodes).drop_last() =~= ids_of(t));
        assert(ids_of(nodes).last() == nodes.last().id@);
        if keep(nodes.last()) {
            assert(nodes.filter(keep) == t.filter(keep).push(nodes.last()));
            assert(ids_of(nodes.filter(keep)) =~= ids_of(t.filter(keep)).push(nodes.last().id@));
        } else {
            assert(nodes.filter(keep) == t.filter(keep));
        }
    } else {
        assert(ids_of(without_named(nodes, id)) =~= Seq::empty());
        assert(ids_of(nodes) =~= Seq::empty());
    }
}

proof fn filter_takes_one_out(ids: Seq<Seq<char>>, at: int)
    requires
        order::proper(ids),
        0 <= at < ids.len(),
    ensures
        ids_without(ids, ids[at]) == ids.remove(at),
    decreases ids.len(),
{
    let id = ids[at];
    let keep = not_name(id);
    filter_last(ids, keep);
    let t = ids.drop_last();
    assert(order::proper(t)) by {
        assert forall|i: int, j: int| 0 <= i < j < t.len() implies #[trigger] t[i]
            != #[trigger] t[j] by {
            assert(ids[i] != ids[j]);
        }
        assert forall|i: int| 0 <= i < t.len() implies #[trigger] t[i] != "in"@ by {
            assert(ids[i] != "in"@);
        }
    }
    if at == ids.len() - 1 {
        assert forall|i: int| 0 <= i < t.len() implies keep(#[trigger] t[i]) by {
            assert(ids[i] != ids[at]);
        }
        all_kept(t, keep);
        assert(ids.remove(at) =~= t);
    } else {
        filter_takes_one_out(t, at);
        assert(ids[at] != ids[ids.len() - 1]);
        assert(ids.filter(keep) == t.filter(keep).push(ids.last()));
        assert(t.remove(at).push(ids.last()) =~= ids.remove(at));
    }
}

/// Taking a node away together with its cables keeps a graph well formed.
pub proof fn removed_node_keeps_well_formed(
    ids: Seq<Seq<char>>,
    wires: Seq<(Seq<char>, Seq<char>)>,
    id: Seq<char>,
)
    requires
        well_formed(ids, wires),
        ids.contains(id),
    ensures
        well_formed(ids_without(ids, id), without_ends(wires, id)),
        !ids_without(ids, id).contains(id),
{
    let at = choose|at: int| 0 <= at < ids.len() && ids[at] == id;
    filter_takes_one_out(ids, at);
    let rest = ids.remove(at);
    let keep = away_from(id);
    let fewer = wires.filter(keep);
    filtered_without_duplicates(wires, keep);
    assert forall|k: int| 0 <= k < fewer.len() implies wires.contains(#[trigger] fewer[k])
        && fewer[k].0 != id && fewer[k].1 != id by {
        wires.lemma_filter_pred(keep, k);
        assert(fewer.contains(fewer[k]));
        wires.lemma_filter_contains_rev(keep, fewer[k]);
    }
    order::without_node_stays_sortable(ids, wires, at, fewer);
    assert forall|x: Seq<char>| ids.contains(x) && x != id implies rest.contains(x) by {
        let i = choose|i: int| 0 <= i < ids.len() && ids[i] == x;
        let j = if i < at {
            i
        } else {
            i - 1
        };
        assert(rest[j] == x);
    }
    assert(!rest.contains(OUTPUT_ID@) && !rest.contains(id)) by {
        assert forall|j: int| 0 <= j < rest.len() implies rest[j] != OUTPUT_ID@ && rest[j]
            != id by {
            let i = if j < at {
                j
            } else {
                j + 1
            };
            assert(rest[j] == ids[i]);
            assert(ids.contains(ids[i]));
            if i < at {
                assert(ids[i] != ids[at]);
            } else {
                assert(ids[at] != ids[i]);
            }
        }
    }
    assert forall|k: int| 0 <= k < fewer.len() implies ((#[trigger] fewer[k]).0 == INPUT_ID@
        || rest.contains(fewer[k].0)) && (fewer[k].1 == OUTPUT_ID@ || rest.contains(
        fewer[k].1,
    )) by {
        assert(wires.contains(fewer[k]));
        let w = choose|w: int| 0 <= w < wires.len() && wires[w] == fewer[k];
        assert(wires[w] == fewer[k]);
    }
}

/// A new node with a name of its own keeps a graph well formed.
pub proof fn new_node_keeps_well_formed(
    ids: Seq<Seq<char>>,
    wires: Seq<(Seq<char>, Seq<char>)>,
    id: Seq<char>,
)
    requires
        well_formed(ids, wires),
        !ids.contains(id),
        id != INPUT_ID@,
        id != OUTPUT_ID@,
    ensures
        well_formed(ids.push(id), wires),
{
    let more = ids.push(id);
    assert(order::proper(more)) by {
        assert forall|i: int, j: int| 0 <= i < j < more.len() implies #[trigger] more[i]
            != #[trigger] more[j] by {
            assert(more[i] == ids[i]);
            assert(ids.contains(ids[i]));
            if j < ids.len() {
                assert(more[j] == ids[j]);
            }
        }
        assert forall|i: int| 0 <= i < more.len() implies #[trigger] more[i] != "in"@ by {
            if i < ids.len() {
                assert(more[i] == ids[i]);
            }
        }
    }
    assert forall|k: int| 0 <= k < wires.len() implies (#[trigger] wires[k]).1 != id by {}
    order::new_node_stays_sortable(ids, wires, id);
    assert forall|x: Seq<char>| ids.contains(x) implies more.contains(x) by {
        let i = choose|i: int| 0 <= i < ids.len() && ids[i] == x;
        assert(more[i] == x);
    }
    assert(!more.contains(OUTPUT_ID@)) by {
        assert forall|i: int| 0 <= i < more.len() implies more[i] != OUTPUT_ID@ by {
            if i < ids.len() {
                assert(ids.contains(ids[i]));
            }
        }
    }
}

/// The name of the `k`-th node ever added to a board.
pub open spec fn numbered_id(k: nat) -> Seq<char> {
    "n"@ + text::decimal(k)
}

/// No node has the name of a number that has not been given out yet.
pub open spec fn unclaimed(ids: Seq<Seq<char>>, next: nat) -> bool {
    forall|k: nat| next <= k ==> !ids.contains(#[trigger] numbered_id(k))
}

/// Different numbers make different names: a name that was given out is never given out again.
pub proof fn numbers_make_different_names(i: nat, j: nat)
    requires
        i != j,
    ensures
        numbered_id(i) != numbered_id(j),
{
    let a = text::decimal(i);
    let b = text::decimal(j);
    assert(numbered_id(i).skip("n"@.len() as int) =~= a);
    assert(numbered_id(j).skip("n"@.len() as int) =~= b);
    if a == b {
        text::decimal_is_injective(i, j);
    }
}

/// On a board where no later number is claimed, the next number makes a name of its own, and
/// behind it no later number is claimed either.
pub proof fn next_name_is_new(ids: Seq<Seq<char>>, next: nat)
    requires
        unclaimed(ids, next),
    ensures
        !ids.contains(numbered_id(next)),
        numbered_id(next) != INPUT_ID@,
        numbered_id(next) != OUTPUT_ID@,
        unclaimed(ids.push(numbered_id(next)), next + 1),
{
    let id = numbered_id(next);
    reveal_strlit("n");
    reveal_strlit("in");
    reveal_strlit("out");
    assert(id[0] == 'n');
    assert(INPUT_ID@[0] == 'i');
    assert(OUTPUT_ID@[0] == 'o');
    let more = ids.push(id);
    assert forall|k: nat| next + 1 <= k implies !more.contains(#[trigger] numbered_id(k)) by {
        numbers_make_different_names(next, k);
        if more.contains(numbered_id(k)) {
            let i = choose|i: int| 0 <= i < more.len() && more[i] == numbered_id(k);
            if i < ids.len() {
                assert(ids[i] == numbered_id(k));
                assert(ids.contains(numbered_id(k)));
            }
        }
    }
}

/// What a cable may begin or end at is the device input, the device output, or any node on the
/// board.
pub proof fn known_means_there(ids: Seq<Seq<char>>, id: Seq<char>)
    ensures
        known(ids, id) <==> id == "in"@ || id == "out"@ || ids.contains(id),
{
    slot_means_contained(ids, id);
}

/// A cable between two ends that are there, the right way round, that is not there yet, is
/// accepted unless the graph would feed back into itself; every other cable is refused, for the
/// first of the reasons that there are. Feedback is spoken of where no name stands twice and no
/// cable begins nowhere.
pub proof fn cables_are_refused_for_a_reason(
    ids: Seq<Seq<char>>,
    wires: Seq<(Seq<char>, Seq<char>)>,
    c: (Seq<char>, Seq<char>),
)
    ensures
        ({
            let there = |id: Seq<char>| id == "in"@ || id == "out"@ || ids.contains(id);
            let forward = c.0 != "out"@ && c.1 != "in"@ && c.0 != c.1;
            if !(there(c.0) && there(c.1)) {
                refusal(ids, wires, c) == Some("unknown node"@)
            } else if !forward {
                refusal(ids, wires, c) == Some("invalid direction"@)
            } else if wires.contains(c) {
                refusal(ids, wires, c) == Some("already connected"@)
            } else {
                let why = "connection would create a feedback loop"@;
                &&& refusal(ids, wires, c) is None || refusal(ids, wires, c) == Some(why)
                &&& order::proper(ids) && order::attached(ids, wires) ==> (refusal(ids, wires, c)
                    is None <==> !order::has_cycle(ids, wires.push(c)))
            }
        }),
{
    known_means_there(ids, c.0);
    known_means_there(ids, c.1);
    let more = wires.push(c);
    if known(ids, c.0) && c.0 != "out"@ && order::proper(ids) && order::attached(ids, wires) {
        assert forall|k: int|
            0 <= k < more.len() && ids.contains((#[trigger] more[k]).1) implies more[k].0 == "in"@
            || ids.contains(more[k].0) by {
            if k < wires.len() {
                assert(more[k] == wires[k]);
            }
        }
        order::unsortable_means_cycle(ids, more);
    }
}

/// Taking a cable away takes it away as often as it is there, and every other cable stays where
/// it is.
pub proof fn only_that_cable_goes(
    wires: Seq<(Seq<char>, Seq<char>)>,
    w: (Seq<char>, Seq<char>),
    c: (Seq<char>, Seq<char>),
)
    ensures
        without_wire(Seq::empty(), c) == Seq::<(Seq<char>, Seq<char>)>::empty(),
        w == c ==> without_wire(wires.push(w), c) == without_wire(wires, c),
        w != c ==> without_wire(wires.push(w), c) == without_wire(wires, c).push(w),
{
    filter_last(Seq::<(Seq<char>, Seq<char>)>::empty(), other_than(c));
    filter_last(wires.push(w), other_than(c));
    assert(wires.push(w).drop_last() =~= wires);
}

/// Taking a node away takes away the cables that begin or end there, and every other cable stays
/// where it is.
pub proof fn only_its_cables_go(
    wires: Seq<(Seq<char>, Seq<char>)>,
    w: (Seq<char>, Seq<char>),
    id: Seq<char>,
)
    ensures
        without_ends(Seq::empty(), id) == Seq::<(Seq<char>, Seq<char>)>::empty(),
        w.0 == id || w.1 == id ==> without_ends(wires.push(w), id) == without_ends(wires, id),
        w.0 != id && w.1 != id ==> without_ends(wires.push(w), id) == without_ends(
            wires,
            id,
        ).push(w),
{
    filter_last(Seq::<(Seq<char>, Seq<char>)>::empty(), away_from(id));
    filter_last(wires.push(w), away_from(id));
    assert(wires.push(w).drop_last() =~= wires);
}

/// Taking a node away takes away what has its name, and every other node stays where it is.
pub proof fn only_that_node_goes(nodes: Seq<NodeDesc>, n: NodeDesc, id: Seq<char>)
    ensures
        without_named(Seq::empty(), id) == Seq::<NodeDesc>::empty(),
        n.id@ == id ==> without_named(nodes.push(n), id) == without_named(nodes, id),
        n.id@ != id ==> without_named(nodes.push(n), id) == without_named(nodes, id).push(n),
{
    filter_last(Seq::<NodeDesc>::empty(), not_named(id));
    filter_last(nodes.push(n), not_named(id));
    assert(nodes.push(n).drop_last() =~= nodes);
}

/// The name of a node is the letter n and the digits of its number.
pub proof fn names_are_read_back(k: nat)
    ensures
        numbered_id(k).len() > 1,
        numbered_id(k)[0] == 'n',
        text::digits_value(numbered_id(k).skip(1)) == k,
{
    reveal_strlit("n");
    text::decimal_reads_back(k);
    assert(numbered_id(k).skip(1) =~= text::decimal(k));
}

/// Where a node is taken away, the nodes that stay are those of other names.
pub proof fn kept_nodes_are_the_others(nodes: Seq<NodeDesc>, id: Seq<char>, n: NodeDesc)
    ensures
        without_named(nodes, id).contains(n) <==> nodes.contains(n) && n.id@ != id,
    decreases nodes.len(),
{
    if nodes.len() > 0 {
        let t = nodes.drop_last();
        let m = nodes.last();
        kept_nodes_are_the_others(t, id, n);
        only_that_node_goes(t, m, id);
        assert(t.push(m) =~= nodes);
        pushed_is_contained(t, m, n);
        pushed_is_contained(without_named(t, id), m, n);
    } else {
        assert(nodes =~= Seq::empty());
        only_that_node_goes(nodes, n, id);
    }
}

/// Where a node is taken away, the cables that stay are those between others.
pub proof fn kept_cables_are_the_others(
    wires: Seq<(Seq<char>, Seq<char>)>,
    id: Seq<char>,
    w: (Seq<char>, Seq<char>),
)
    ensures
        without_ends(wires, id).contains(w) <==> wires.contains(w) && w.0 != id && w.1 != id,
    decreases wires.len(),
{
    if wires.len() > 0 {
        let t = wires.drop_last();
        let v = wires.last();
        kept_cables_are_the_others(t, id, w);
        only_its_cables_go(t, v, id);
        assert(t.push(v) =~= wires);
        pushed_is_contained(t, v, w);
        pushed_is_contained(without_ends(t, id), v, w);
    } else {
        assert(wires =~= Seq::empty());
        only_its_cables_go(wires, w, id);
    }
}

proof fn pushed_is_contained<A>(s: Seq<A>, a: A, x: A)
    ensures
        s.push(a).contains(x) <==> s.contains(x) || x == a,
{
    if s.contains(x) {
        let i = choose|i: int| 0 <= i < s.len() && s[i] == x;
        assert(s.push(a)[i] == x);
    }
    assert(s.push(a)[s.len() as int] == a);
}

/// A description that says the same as another says it of everything.
pub proof fn copies_say_everything(a: NodeDesc, b: NodeDesc)
    requires
        a.says(b),
    ensures
        a.id@ == b.id@,
        a.kind == b.kind,
        a.params@ == b.params@,
        a.bypass == b.bypass,
        a.x == b.x,
        a.y == b.y,
{
}

/// The names and the cables of a board are those of its nodes and its connections, in their
/// order, each cable from where it begins to where it ends.
pub proof fn boards_are_seen_as_they_are(board: Board, i: int)
    ensures
        board.ids().len() == board.nodes@.len(),
        board.wires().len() == board.connections@.len(),
        0 <= i < board.nodes@.len() ==> board.ids()[i] == board.nodes@[i].id@,
        0 <= i < board.connections@.len() ==> board.wires()[i].0 == board.connections@[i].from@
            && board.wires()[i].1 == board.connections@[i].to@,
{
}

/// Where a cable is taken away, the cables that stay are the others.
pub proof fn kept_cables_are_the_others_than(
    wires: Seq<(Seq<char>, Seq<char>)>,
    c: (Seq<char>, Seq<char>),
    w: (Seq<char>, Seq<char>),
)
    ensures
        without_wire(wires, c).contains(w) <==> wires.contains(w) && w != c,
    decreases wires.len(),
{
    if wires.len() > 0 {
        let t = wires.drop_last();
        let v = wires.last();
        kept_cables_are_the_others_than(t, c, w);
        only_that_cable_goes(t, v, c);
        assert(t.push(v) =~= wires);
        pushed_is_contained(t, v, w);
        pushed_is_contained(without_wire(t, c), v, w);
    } else {
        assert(wires =~= Seq::empty());
        only_that_cable_goes(wires, w, c);
    }
}

/// Whether a cable may be put in is decided by what is on the board: both its ends have to be
/// there, it may not run backwards or to where it begins, and it may not be there already.
pub proof fn cables_are_judged_by_the_board(b: &Board, c: &Connection, r: Result<(), String>)
    requires
        call_ensures(Board::can_connect, (b, c), r),
    ensures
        ({
            let there = |id: Seq<char>| id == "in"@ || id == "out"@ || b.ids().contains(id);
            let forward = c.from@ != "out"@ && c.to@ != "in"@ && c.from@ != c.to@;
            &&& r is Ok ==> there(c.from@) && there(c.to@) && forward && !b.wires().contains(c@)
            &&& r is Err && r->Err_0@ == "unknown node"@ <==> !(there(c.from@) && there(c.to@))
            &&& there(c.from@) && there(c.to@) && !forward ==> r is Err && r->Err_0@
                == "invalid direction"@
            &&& there(c.from@) && there(c.to@) && forward && b.wires().contains(c@) ==> r is Err
                && r->Err_0@ == "already connected"@
        }),
{
    reveal_strlit("unknown node");
    reveal_strlit("invalid direction");
    reveal_strlit("already connected");
    reveal_strlit("connection would create a feedback loop");
    assert("unknown node"@.len() == 12 && "invalid direction"@.len() == 17);
    assert("already connected"@.len() == 17);
    assert("connection would create a feedback loop"@.len() == 39);
    cables_are_refused_for_a_reason(b.ids(), b.wires(), c@);
}

} // verus!
