//! The order in which nodes are processed, as a mathematical model.
//!
//! A graph is a list of node names and a list of wires, each from one name to another.
//! The nodes are sorted by repeatedly taking one whose wires have all been served,
//! newest first. The model says exactly which order comes out; the proofs say that it
//! serves every wire, and that it is complete whenever the graph allows it.
use vstd::prelude::*;

verus! {

/// Where a name stands first in a list of names, or -1.
pub open spec fn slot(ids: Seq<Seq<char>>, id: Seq<char>) -> int
    decreases ids.len(),
{
    if ids.len() == 0 {
        -1
    } else {
        let p = slot(ids.drop_last(), id);
        if p >= 0 {
            p
        } else if ids.last() == id {
            ids.len() - 1
        } else {
            -1
        }
    }
}

/// A wire that the node at slot `v` has to wait for: it ends there, and it does not
/// begin at the device input.
pub open spec fn holds_back(
    ids: Seq<Seq<char>>,
    wire: (Seq<char>, Seq<char>),
    v: int,
) -> bool {
    wire.0 != "in"@ && slot(ids, wire.1) == v
}

/// How many wires hold back the node at slot `v` when the nodes in `done` are served.
pub open spec fn pending(
    ids: Seq<Seq<char>>,
    wires: Seq<(Seq<char>, Seq<char>)>,
    done: Seq<int>,
    v: int,
) -> int
    decreases wires.len(),
{
    if wires.len() == 0 {
        0
    } else {
        let w = wires.last();
        pending(ids, wires.drop_last(), done, v) + if holds_back(ids, w, v) && !done.contains(
            slot(ids, w.0),
        ) {
            1int
        } else {
            0
        }
    }
}

/// A sort under way: how many wires each node waits for, which nodes wait for none,
/// and which have been taken. Nodes are given by their slots.
pub ghost struct Progress {
    pub waiting: Seq<int>,
    pub ready: Seq<int>,
    pub order: Seq<int>,
}

/// The first `k` nodes, of those the ones that wait for nothing.
pub open spec fn ready_among(ids: Seq<Seq<char>>, waiting: Seq<int>, k: int) -> Seq<int>
    decreases k,
{
    if k <= 0 {
        Seq::empty()
    } else {
        let before = ready_among(ids, waiting, k - 1);
        let s = slot(ids, ids[k - 1]);
        if waiting[s] == 0 {
            before.push(s)
        } else {
            before
        }
    }
}

/// Before anything is taken.
pub open spec fn at_start(
    ids: Seq<Seq<char>>,
    wires: Seq<(Seq<char>, Seq<char>)>,
) -> Progress {
    let waiting = Seq::new(ids.len(), |v: int| pending(ids, wires, Seq::empty(), v));
    Progress { waiting, ready: ready_among(ids, waiting, ids.len() as int), order: Seq::empty() }
}

/// One wire that begins at a node just taken is served; its end may become ready.
pub open spec fn serve(p: Progress, t: int) -> Progress {
    if t >= 0 && p.waiting[t] > 0 {
        let left = p.waiting[t] - 1;
        Progress {
            waiting: p.waiting.update(t, left),
            ready: if left == 0 {
                p.ready.push(t)
            } else {
                p.ready
            },
            order: p.order,
        }
    } else {
        p
    }
}

/// The first `k` wires are gone through on behalf of the node at slot `v`.
pub open spec fn served(
    ids: Seq<Seq<char>>,
    wires: Seq<(Seq<char>, Seq<char>)>,
    v: int,
    p: Progress,
    k: int,
) -> Progress
    decreases k,
{
    if k <= 0 {
        p
    } else {
        let q = served(ids, wires, v, p, k - 1);
        let w = wires[k - 1];
        if w.0 == ids[v] {
            serve(q, slot(ids, w.1))
        } else {
            q
        }
    }
}

/// The node that became ready last is taken.
pub open spec fn taken(p: Progress) -> Progress {
    Progress {
        waiting: p.waiting,
        ready: p.ready.drop_last(),
        order: p.order.push(p.ready.last()),
    }
}

/// One node is taken and its wires are served.
pub open spec fn advanced(
    ids: Seq<Seq<char>>,
    wires: Seq<(Seq<char>, Seq<char>)>,
    p: Progress,
) -> Progress {
    if p.ready.len() == 0 {
        p
    } else {
        served(ids, wires, p.ready.last(), taken(p), wires.len() as int)
    }
}

/// After at most `n` nodes have been taken.
pub open spec fn after(
    ids: Seq<Seq<char>>,
    wires: Seq<(Seq<char>, Seq<char>)>,
    n: nat,
) -> Progress
    decreases n,
{
    if n == 0 {
        at_start(ids, wires)
    } else {
        advanced(ids, wires, after(ids, wires, (n - 1) as nat))
    }
}

/// The slots in the order in which the sort takes them. A round takes one node, and each
/// name is taken at most once more often than it stands in the list, so this many rounds
/// are enough.
pub open spec fn sorted_slots(
    ids: Seq<Seq<char>>,
    wires: Seq<(Seq<char>, Seq<char>)>,
) -> Seq<int> {
    after(ids, wires, 2 * ids.len()).order
}

/// The names in the order in which the sort takes them.
pub open spec fn sorted(
    ids: Seq<Seq<char>>,
    wires: Seq<(Seq<char>, Seq<char>)>,
) -> Seq<Seq<char>> {
    sorted_slots(ids, wires).map_values(|v: int| ids[v])
}

/// The sort took every node.
pub open spec fn sortable(ids: Seq<Seq<char>>, wires: Seq<(Seq<char>, Seq<char>)>) -> bool {
    sorted_slots(ids, wires).len() == ids.len()
}

/// Names that can name nodes: no two alike, none that of the device input.
pub open spec fn proper(ids: Seq<Seq<char>>) -> bool {
    &&& forall|i: int, j: int| 0 <= i < j < ids.len() ==> #[trigger] ids[i] != #[trigger] ids[j]
    &&& forall|i: int| 0 <= i < ids.len() ==> #[trigger] ids[i] != "in"@
}

/// A list of names in which every node stands once, and behind everything that it
/// takes its signal from.
pub open spec fn serves(
    ids: Seq<Seq<char>>,
    wires: Seq<(Seq<char>, Seq<char>)>,
    order: Seq<Seq<char>>,
) -> bool {
    &&& order.len() == ids.len()
    &&& order.no_duplicates()
    &&& forall|i: int| 0 <= i < order.len() ==> ids.contains(#[trigger] order[i])
    &&& forall|k: int, i: int|
        0 <= k < wires.len() && 0 <= i < order.len() && (#[trigger] wires[k]).1 == (
        #[trigger] order[i]) && wires[k].0 != "in"@ ==> exists|j: int|
            0 <= j < i && #[trigger] order[j] == wires[k].0
}

// ---------------------------------------------------------------- slots

pub proof fn slot_is_first(ids: Seq<Seq<char>>, id: Seq<char>)
    ensures
        -1 <= slot(ids, id) < ids.len(),
        slot(ids, id) >= 0 ==> ids[slot(ids, id)] == id && forall|j: int|
            0 <= j < slot(ids, id) ==> #[trigger] ids[j] != id,
        slot(ids, id) < 0 ==> forall|j: int| 0 <= j < ids.len() ==> #[trigger] ids[j] != id,
    decreases ids.len(),
{
    if ids.len() > 0 {
        let t = ids.drop_last();
        slot_is_first(t, id);
        assert forall|j: int| 0 <= j < t.len() implies t[j] == #[trigger] ids[j] by {}
    }
}

/// A name has the slot of its first place.
pub proof fn slot_of_first(ids: Seq<Seq<char>>, i: int)
    requires
        0 <= i < ids.len(),
        forall|j: int| 0 <= j < i ==> #[trigger] ids[j] != ids[i],
    ensures
        slot(ids, ids[i]) == i,
{
    slot_is_first(ids, ids[i]);
}

proof fn slot_of_proper(ids: Seq<Seq<char>>, i: int)
    requires
        proper(ids),
        0 <= i < ids.len(),
    ensures
        slot(ids, ids[i]) == i,
{
    slot_of_first(ids, i);
}

// ---------------------------------------------------------------- counting wires

/// How many of the wires begin at the node at slot `v` and end at slot `t`.
spec fn hits(
    ids: Seq<Seq<char>>,
    wires: Seq<(Seq<char>, Seq<char>)>,
    v: int,
    t: int,
) -> int
    decreases wires.len(),
{
    if wires.len() == 0 {
        0
    } else {
        let w = wires.last();
        hits(ids, wires.drop_last(), v, t) + if w.0 == ids[v] && slot(ids, w.1) == t {
            1int
        } else {
            0
        }
    }
}

proof fn pending_after_one_more(
    ids: Seq<Seq<char>>,
    wires: Seq<(Seq<char>, Seq<char>)>,
    done: Seq<int>,
    v: int,
    t: int,
)
    requires
        proper(ids),
        0 <= v < ids.len(),
        !done.contains(v),
    ensures
        pending(ids, wires, done.push(v), t) == pending(ids, wires, done, t) - hits(
            ids,
            wires,
            v,
            t,
        ),
        0 <= hits(ids, wires, v, t),
        0 <= pending(ids, wires, done.push(v), t),
    decreases wires.len(),
{
    if wires.len() > 0 {
        let w = wires.last();
        pending_after_one_more(ids, wires.drop_last(), done, v, t);
        slot_of_proper(ids, v);
        slot_is_first(ids, w.0);
        let s = slot(ids, w.0);
        let d = done.push(v);
        assert(d.contains(s) <==> done.contains(s) || s == v) by {
            if done.contains(s) {
                let i = choose|i: int| 0 <= i < done.len() && done[i] == s;
                assert(d[i] == s);
            }
            if s == v {
                assert(d[done.len() as int] == s);
            }
        }
    }
}

proof fn hits_of_prefix(
    ids: Seq<Seq<char>>,
    wires: Seq<(Seq<char>, Seq<char>)>,
    v: int,
    t: int,
    k: int,
)
    requires
        0 <= k <= wires.len(),
    ensures
        0 <= hits(ids, wires.take(k), v, t) <= hits(ids, wires, v, t),
    decreases wires.len(),
{
    if k == wires.len() {
        assert(wires.take(k) =~= wires);
        if k > 0 {
            hits_of_prefix(ids, wires.drop_last(), v, t, k - 1);
            assert(wires.drop_last().take(k - 1) =~= wires.drop_last());
        }
    } else {
        hits_of_prefix(ids, wires.drop_last(), v, t, k);
        assert(wires.drop_last().take(k) =~= wires.take(k));
    }
}

/// A node that still waits has a wire whose beginning has not been taken.
proof fn waiting_has_a_wire(
    ids: Seq<Seq<char>>,
    wires: Seq<(Seq<char>, Seq<char>)>,
    done: Seq<int>,
    v: int,
) -> (k: int)
    requires
        pending(ids, wires, done, v) > 0,
    ensures
        0 <= k < wires.len(),
        holds_back(ids, wires[k], v),
        !done.contains(slot(ids, wires[k].0)),
    decreases wires.len(),
{
    let w = wires.last();
    if holds_back(ids, w, v) && !done.contains(slot(ids, w.0)) {
        wires.len() - 1
    } else {
        waiting_has_a_wire(ids, wires.drop_last(), done, v)
    }
}

/// A node that waits for nothing has all its wires served.
proof fn idle_is_served(
    ids: Seq<Seq<char>>,
    wires: Seq<(Seq<char>, Seq<char>)>,
    done: Seq<int>,
    v: int,
)
    ensures
        pending(ids, wires, done, v) >= 0,
        pending(ids, wires, done, v) == 0 ==> forall|k: int|
            0 <= k < wires.len() && holds_back(ids, #[trigger] wires[k], v) ==> done.contains(
                slot(ids, wires[k].0),
            ),
    decreases wires.len(),
{
    if wires.len() > 0 {
        let rest = wires.drop_last();
        idle_is_served(ids, rest, done, v);
        if pending(ids, wires, done, v) == 0 {
            assert forall|k: int|
                0 <= k < wires.len() && holds_back(
                    ids,
                    #[trigger] wires[k],
                    v,
                ) implies done.contains(slot(ids, wires[k].0)) by {
                if k < rest.len() {
                    assert(rest[k] == wires[k]);
                }
            }
        }
    }
}

// ---------------------------------------------------------------- the invariant

/// What holds of a sort between two rounds.
spec fn sound(
    ids: Seq<Seq<char>>,
    wires: Seq<(Seq<char>, Seq<char>)>,
    p: Progress,
) -> bool {
    &&& p.waiting.len() == ids.len()
    &&& in_range(p.ready, ids.len() as int)
    &&& in_range(p.order, ids.len() as int)
    &&& p.ready.no_duplicates()
    &&& p.order.no_duplicates()
    &&& forall|v: int| #[trigger] p.ready.contains(v) ==> !p.order.contains(v)
    &&& forall|v: int|
        0 <= v < ids.len() ==> #[trigger] p.waiting[v] == pending(ids, wires, p.order, v)
    &&& forall|v: int|
        0 <= v < ids.len() ==> (#[trigger] p.waiting[v] == 0 <==> p.ready.contains(v)
            || p.order.contains(v))
    &&& orderly(ids, wires, p.order)
}

spec fn in_range(s: Seq<int>, n: int) -> bool {
    forall|i: int| 0 <= i < s.len() ==> 0 <= #[trigger] s[i] < n
}

/// Every node taken was taken behind the beginnings of its wires.
spec fn orderly(
    ids: Seq<Seq<char>>,
    wires: Seq<(Seq<char>, Seq<char>)>,
    order: Seq<int>,
) -> bool {
    forall|k: int, i: int|
        0 <= k < wires.len() && 0 <= i < order.len() && holds_back(
            ids,
            #[trigger] wires[k],
            #[trigger] order[i],
        ) ==> order.take(i).contains(slot(ids, wires[k].0))
}

proof fn push_contains(s: Seq<int>, x: int, y: int)
    ensures
        s.push(x).contains(y) <==> s.contains(y) || y == x,
{
    if s.contains(y) {
        let i = choose|i: int| 0 <= i < s.len() && s[i] == y;
        assert(s.push(x)[i] == y);
    }
    assert(s.push(x)[s.len() as int] == x);
}

proof fn start_is_sound(ids: Seq<Seq<char>>, wires: Seq<(Seq<char>, Seq<char>)>)
    requires
        proper(ids),
    ensures
        sound(ids, wires, at_start(ids, wires)),
{
    let p = at_start(ids, wires);
    ready_among_is_exact(ids, p.waiting, ids.len() as int);
}

proof fn ready_among_is_exact(ids: Seq<Seq<char>>, waiting: Seq<int>, k: int)
    requires
        proper(ids),
        0 <= k <= ids.len(),
    ensures
        in_range(ready_among(ids, waiting, k), k),
        ready_among(ids, waiting, k).no_duplicates(),
        forall|v: int| #[trigger]
            ready_among(ids, waiting, k).contains(v) <==> 0 <= v < k && waiting[v] == 0,
    decreases k,
{
    if k > 0 {
        ready_among_is_exact(ids, waiting, k - 1);
        slot_of_proper(ids, k - 1);
        let before = ready_among(ids, waiting, k - 1);
        assert forall|v: int| #[trigger]
            ready_among(ids, waiting, k).contains(v) <==> 0 <= v < k && waiting[v] == 0 by {
            push_contains(before, k - 1, v);
            assert(before.contains(v) <==> 0 <= v < k - 1 && waiting[v] == 0);
        }
        assert(!before.contains(k - 1));
    }
}

/// In the middle of a round: `old` is the order before the node `v` was taken.
spec fn midway(
    ids: Seq<Seq<char>>,
    wires: Seq<(Seq<char>, Seq<char>)>,
    old: Seq<int>,
    v: int,
    p: Progress,
    k: int,
) -> bool {
    &&& p.waiting.len() == ids.len()
    &&& p.order == old.push(v)
    &&& in_range(p.ready, ids.len() as int)
    &&& p.ready.no_duplicates()
    &&& forall|u: int| #[trigger] p.ready.contains(u) ==> !p.order.contains(u)
    &&& forall|u: int|
        0 <= u < ids.len() ==> #[trigger] p.waiting[u] == pending(ids, wires, old, u) - hits(
            ids,
            wires.take(k),
            v,
            u,
        )
    &&& forall|u: int|
        0 <= u < ids.len() ==> (#[trigger] p.waiting[u] == 0 <==> p.ready.contains(u)
            || p.order.contains(u))
}

proof fn serving_keeps_midway(
    ids: Seq<Seq<char>>,
    wires: Seq<(Seq<char>, Seq<char>)>,
    old: Seq<int>,
    v: int,
    p: Progress,
    k: int,
)
    requires
        proper(ids),
        0 <= v < ids.len(),
        !old.contains(v),
        midway(ids, wires, old, v, p, 0),
        0 <= k <= wires.len(),
    ensures
        midway(ids, wires, old, v, served(ids, wires, v, p, k), k),
    decreases k,
{
    if k > 0 {
        serving_keeps_midway(ids, wires, old, v, p, k - 1);
        let q = served(ids, wires, v, p, k - 1);
        let r = served(ids, wires, v, p, k);
        let w = wires[k - 1];
        let t = slot(ids, w.1);
        slot_is_first(ids, w.1);
        assert(wires.take(k).drop_last() =~= wires.take(k - 1));
        assert(wires.take(k).last() == w);
        if w.0 == ids[v] && t >= 0 {
            hits_of_prefix(ids, wires, v, t, k);
            pending_after_one_more(ids, wires, old, v, t);
            assert(q.waiting[t] > 0);
            assert(r.waiting =~= q.waiting.update(t, q.waiting[t] - 1));
            assert(!q.ready.contains(t) && !q.order.contains(t));
            assert forall|u: int| #[trigger] r.ready.contains(u) implies !r.order.contains(u) by {
                push_contains(q.ready, t, u);
                assert(q.ready.contains(u) || u == t);
            }
            assert forall|u: int| 0 <= u < ids.len() implies (#[trigger] r.waiting[u] == 0
                <==> r.ready.contains(u) || r.order.contains(u)) by {
                push_contains(q.ready, t, u);
                assert(q.waiting[u] == 0 <==> q.ready.contains(u) || q.order.contains(u));
            }
            assert forall|u: int| 0 <= u < ids.len() implies #[trigger] r.waiting[u] == pending(
                ids,
                wires,
                old,
                u,
            ) - hits(ids, wires.take(k), v, u) by {
                assert(q.waiting[u] == pending(ids, wires, old, u) - hits(
                    ids,
                    wires.take(k - 1),
                    v,
                    u,
                ));
            }
        } else {
            assert(r == q);
            assert forall|u: int| 0 <= u < ids.len() implies #[trigger] r.waiting[u] == pending(
                ids,
                wires,
                old,
                u,
            ) - hits(ids, wires.take(k), v, u) by {}
        }
    }
}

proof fn advancing_is_sound(
    ids: Seq<Seq<char>>,
    wires: Seq<(Seq<char>, Seq<char>)>,
    p: Progress,
)
    requires
        proper(ids),
        sound(ids, wires, p),
    ensures
        sound(ids, wires, advanced(ids, wires, p)),
{
    if p.ready.len() > 0 {
        let v = p.ready.last();
        let q = taken(p);
        let old = p.order;
        let rest = p.ready.drop_last();
        assert(p.ready =~= rest.push(v));
        assert(p.ready.contains(v));
        assert(!rest.contains(v)) by {
            if rest.contains(v) {
                let i = choose|i: int| 0 <= i < rest.len() && rest[i] == v;
                assert(p.ready[i] == p.ready[p.ready.len() - 1]);
            }
        }
        assert(in_range(rest, ids.len() as int)) by {
            assert forall|i: int| 0 <= i < rest.len() implies 0 <= #[trigger] rest[i]
                < ids.len() by {
                assert(rest[i] == p.ready[i]);
            }
        }
        assert(0 <= v < ids.len()) by {
            assert(p.ready[p.ready.len() - 1] == v);
        }
        assert(rest.no_duplicates()) by {
            assert forall|i: int, j: int|
                0 <= i < rest.len() && 0 <= j < rest.len() && i != j implies rest[i] != rest[j] by {
                assert(rest[i] == p.ready[i] && rest[j] == p.ready[j]);
            }
        }
        assert(wires.take(0) =~= Seq::empty());
        assert forall|u: int| #[trigger] q.ready.contains(u) implies !q.order.contains(u) by {
            push_contains(old, v, u);
            push_contains(rest, v, u);
            assert(p.ready.contains(u));
        }
        assert forall|u: int| 0 <= u < ids.len() implies (#[trigger] q.waiting[u] == 0
            <==> q.ready.contains(u) || q.order.contains(u)) by {
            push_contains(old, v, u);
            push_contains(rest, v, u);
            assert(p.waiting[u] == 0 <==> p.ready.contains(u) || p.order.contains(u));
        }
        assert forall|u: int| 0 <= u < ids.len() implies #[trigger] q.waiting[u] == pending(
            ids,
            wires,
            old,
            u,
        ) - hits(ids, wires.take(0), v, u) by {
            assert(p.waiting[u] == pending(ids, wires, p.order, u));
        }
        assert(midway(ids, wires, old, v, q, 0));
        let n = wires.len() as int;
        serving_keeps_midway(ids, wires, old, v, q, n);
        let r = advanced(ids, wires, p);
        assert(wires.take(n) =~= wires);
        assert forall|u: int| 0 <= u < ids.len() implies #[trigger] r.waiting[u] == pending(
            ids,
            wires,
            r.order,
            u,
        ) by {
            pending_after_one_more(ids, wires, old, v, u);
        }
        assert(in_range(r.order, ids.len() as int)) by {
            assert forall|i: int| 0 <= i < r.order.len() implies 0 <= #[trigger] r.order[i]
                < ids.len() by {
                if i < old.len() {
                    assert(r.order[i] == old[i]);
                }
            }
        }
        assert(!old.contains(v));
        assert(r.order.no_duplicates());
        assert(p.waiting[v] == 0);
        idle_is_served(ids, wires, old, v);
        assert forall|k: int, i: int|
            0 <= k < wires.len() && 0 <= i < r.order.len() && holds_back(
                ids,
                #[trigger] wires[k],
                #[trigger] r.order[i],
            ) implies r.order.take(i).contains(slot(ids, wires[k].0)) by {
            if i < old.len() {
                assert(old[i] == r.order[i]);
                assert(r.order.take(i) =~= old.take(i));
            } else {
                assert(r.order.take(i) =~= old);
            }
        }
    }
}

proof fn after_is_sound(ids: Seq<Seq<char>>, wires: Seq<(Seq<char>, Seq<char>)>, n: nat)
    requires
        proper(ids),
    ensures
        sound(ids, wires, after(ids, wires, n)),
    decreases n,
{
    if n == 0 {
        start_is_sound(ids, wires);
    } else {
        after_is_sound(ids, wires, (n - 1) as nat);
        advancing_is_sound(ids, wires, after(ids, wires, (n - 1) as nat));
    }
}

// ---------------------------------------------------------------- the sort ends

/// How many nodes wait.
pub open spec fn waiters(waiting: Seq<int>) -> nat
    decreases waiting.len(),
{
    if waiting.len() == 0 {
        0
    } else {
        waiters(waiting.drop_last()) + if waiting.last() > 0 {
            1nat
        } else {
            0
        }
    }
}

/// How many rounds are left at most.
pub open spec fn rounds_left(p: Progress) -> nat {
    waiters(p.waiting) + p.ready.len()
}

proof fn waiters_at_most_all(waiting: Seq<int>)
    ensures
        waiters(waiting) <= waiting.len(),
    decreases waiting.len(),
{
    if waiting.len() > 0 {
        waiters_at_most_all(waiting.drop_last());
    }
}

proof fn waiters_after_update(waiting: Seq<int>, t: int, x: int)
    requires
        0 <= t < waiting.len(),
    ensures
        waiters(waiting.update(t, x)) == waiters(waiting) - (if waiting[t] > 0 {
            1int
        } else {
            0
        }) + (if x > 0 {
            1int
        } else {
            0
        }),
    decreases waiting.len(),
{
    let after = waiting.update(t, x);
    if t == waiting.len() - 1 {
        assert(after.drop_last() =~= waiting.drop_last());
    } else {
        assert(after.drop_last() =~= waiting.drop_last().update(t, x));
        waiters_after_update(waiting.drop_last(), t, x);
    }
}

proof fn serving_keeps_rounds(
    ids: Seq<Seq<char>>,
    wires: Seq<(Seq<char>, Seq<char>)>,
    v: int,
    p: Progress,
    k: int,
)
    requires
        p.waiting.len() == ids.len(),
    ensures
        served(ids, wires, v, p, k).waiting.len() == ids.len(),
        rounds_left(served(ids, wires, v, p, k)) == rounds_left(p),
    decreases k,
{
    if k > 0 {
        serving_keeps_rounds(ids, wires, v, p, k - 1);
        let q = served(ids, wires, v, p, k - 1);
        let t = slot(ids, wires[k - 1].1);
        slot_is_first(ids, wires[k - 1].1);
        if t >= 0 && q.waiting[t] > 0 {
            waiters_after_update(q.waiting, t, q.waiting[t] - 1);
        }
    }
}

/// Each round that takes a node leaves one round less.
pub proof fn advancing_uses_a_round(
    ids: Seq<Seq<char>>,
    wires: Seq<(Seq<char>, Seq<char>)>,
    p: Progress,
)
    requires
        p.waiting.len() == ids.len(),
    ensures
        advanced(ids, wires, p).waiting.len() == ids.len(),
        p.ready.len() > 0 ==> rounds_left(advanced(ids, wires, p)) == rounds_left(p) - 1,
{
    if p.ready.len() > 0 {
        serving_keeps_rounds(ids, wires, p.ready.last(), taken(p), wires.len() as int);
    }
}

proof fn ready_among_at_most(ids: Seq<Seq<char>>, waiting: Seq<int>, k: int)
    requires
        k >= 0,
    ensures
        ready_among(ids, waiting, k).len() <= k,
    decreases k,
{
    if k > 0 {
        ready_among_at_most(ids, waiting, k - 1);
    }
}

proof fn rounds_run_out(ids: Seq<Seq<char>>, wires: Seq<(Seq<char>, Seq<char>)>, n: nat)
    ensures
        after(ids, wires, n).waiting.len() == ids.len(),
        after(ids, wires, n).ready.len() == 0 || rounds_left(after(ids, wires, n)) + n <= 2
            * ids.len(),
    decreases n,
{
    if n == 0 {
        let p = at_start(ids, wires);
        waiters_at_most_all(p.waiting);
        ready_among_at_most(ids, p.waiting, ids.len() as int);
    } else {
        rounds_run_out(ids, wires, (n - 1) as nat);
        advancing_uses_a_round(ids, wires, after(ids, wires, (n - 1) as nat));
    }
}

/// Once nothing is ready, nothing more happens.
proof fn idle_stays_idle(
    ids: Seq<Seq<char>>,
    wires: Seq<(Seq<char>, Seq<char>)>,
    n: nat,
    m: nat,
)
    requires
        n <= m,
        after(ids, wires, n).ready.len() == 0,
    ensures
        after(ids, wires, m) == after(ids, wires, n),
    decreases m,
{
    if n < m {
        idle_stays_idle(ids, wires, n, (m - 1) as nat);
    }
}

/// A sort that has nothing left to take has come to its end.
pub proof fn idle_is_the_end(ids: Seq<Seq<char>>, wires: Seq<(Seq<char>, Seq<char>)>, n: nat)
    requires
        after(ids, wires, n).ready.len() == 0,
    ensures
        sorted_slots(ids, wires) == after(ids, wires, n).order,
{
    let m = 2 * ids.len();
    rounds_run_out(ids, wires, m);
    if n <= m {
        idle_stays_idle(ids, wires, n, m);
    } else {
        idle_stays_idle(ids, wires, m, n);
    }
}

// ---------------------------------------------------------------- what the order is worth

proof fn range_is_the_limit(s: Seq<int>, n: int)
    requires
        n >= 0,
        s.no_duplicates(),
        in_range(s, n),
    ensures
        s.len() <= n,
        s.len() == n ==> forall|v: int| 0 <= v < n ==> #[trigger] s.contains(v),
{
    vstd::set_lib::lemma_int_range(0, n);
    let all = vstd::set_lib::set_int_range(0, n);
    s.unique_seq_to_set();
    vstd::seq_lib::seq_to_set_is_finite(s);
    assert(s.to_set().subset_of(all)) by {
        assert forall|v: int| s.to_set().contains(v) implies all.contains(v) by {
            let i = choose|i: int| 0 <= i < s.len() && s[i] == v;
            assert(0 <= s[i] < n);
        }
    }
    vstd::set_lib::lemma_len_subset(s.to_set(), all);
    if s.len() == n {
        vstd::set_lib::lemma_subset_equality(s.to_set(), all);
        assert forall|v: int| 0 <= v < n implies #[trigger] s.contains(v) by {
            assert(all.contains(v));
            assert(s.to_set().contains(v));
        }
    }
}

proof fn contained_is_not_longer(s: Seq<int>, t: Seq<int>)
    requires
        s.no_duplicates(),
        forall|i: int| 0 <= i < s.len() ==> t.contains(#[trigger] s[i]),
    ensures
        s.len() <= t.len(),
{
    s.unique_seq_to_set();
    vstd::seq_lib::seq_to_set_is_finite(s);
    vstd::seq_lib::seq_to_set_is_finite(t);
    assert(s.to_set().subset_of(t.to_set())) by {
        assert forall|v: int| s.to_set().contains(v) implies t.to_set().contains(v) by {
            let i = choose|i: int| 0 <= i < s.len() && s[i] == v;
            assert(t.contains(s[i]));
        }
    }
    vstd::set_lib::lemma_len_subset(s.to_set(), t.to_set());
    t.lemma_cardinality_of_set();
}

/// The sort never takes more nodes than there are.
pub proof fn sorted_is_not_longer(ids: Seq<Seq<char>>, wires: Seq<(Seq<char>, Seq<char>)>)
    requires
        proper(ids),
    ensures
        sorted_slots(ids, wires).len() <= ids.len(),
{
    after_is_sound(ids, wires, 2 * ids.len());
    range_is_the_limit(sorted_slots(ids, wires), ids.len() as int);
}

/// When the sort takes every node, each stands once in its order, and behind everything
/// that it takes its signal from.
pub proof fn sorted_order_serves(ids: Seq<Seq<char>>, wires: Seq<(Seq<char>, Seq<char>)>)
    requires
        proper(ids),
        sortable(ids, wires),
    ensures
        serves(ids, wires, sorted(ids, wires)),
{
    let n = ids.len() as int;
    after_is_sound(ids, wires, 2 * ids.len());
    let slots = sorted_slots(ids, wires);
    let order = sorted(ids, wires);
    assert forall|i: int, j: int|
        0 <= i < order.len() && 0 <= j < order.len() && i != j implies order[i] != order[j] by {
        assert(0 <= slots[i] < n && 0 <= slots[j] < n);
        if slots[i] < slots[j] {
            assert(ids[slots[i]] != ids[slots[j]]);
        } else {
            assert(ids[slots[j]] != ids[slots[i]]);
        }
    }
    assert forall|i: int| 0 <= i < order.len() implies ids.contains(#[trigger] order[i]) by {
        assert(0 <= slots[i] < n);
        assert(ids[slots[i]] == order[i]);
    }
    assert forall|k: int, i: int|
        0 <= k < wires.len() && 0 <= i < order.len() && (#[trigger] wires[k]).1 == (
        #[trigger] order[i]) && wires[k].0 != "in"@ implies exists|j: int|
        0 <= j < i && #[trigger] order[j] == wires[k].0 by {
        assert(0 <= slots[i] < n);
        slot_of_proper(ids, slots[i]);
        assert(holds_back(ids, wires[k], slots[i]));
        let f = slot(ids, wires[k].0);
        assert(slots.take(i).contains(f));
        let j = choose|j: int| 0 <= j < slots.take(i).len() && slots.take(i)[j] == f;
        assert(slots[j] == f);
        assert(0 <= slots[j] < n);
        slot_is_first(ids, wires[k].0);
        assert(order[j] == wires[k].0);
    }
}

/// When there is any order that serves every wire, the sort takes every node.
pub proof fn sort_finds_an_order(
    ids: Seq<Seq<char>>,
    wires: Seq<(Seq<char>, Seq<char>)>,
    order: Seq<Seq<char>>,
)
    requires
        proper(ids),
        serves(ids, wires, order),
    ensures
        sortable(ids, wires),
{
    let m = 2 * ids.len();
    after_is_sound(ids, wires, m);
    rounds_run_out(ids, wires, m);
    let slots = order.map_values(|id: Seq<char>| slot(ids, id));
    assert forall|i: int| 0 <= i < slots.len() implies 0 <= #[trigger] slots[i] < ids.len()
        && ids[slots[i]] == order[i] by {
        slot_is_first(ids, order[i]);
        let j = choose|j: int| 0 <= j < ids.len() && ids[j] == order[i];
        assert(ids[j] == order[i]);
    }
    assert(slots.no_duplicates()) by {
        assert forall|i: int, j: int|
            0 <= i < slots.len() && 0 <= j < slots.len() && i != j implies slots[i]
            != slots[j] by {
            assert(order[i] != order[j]);
        }
    }
    every_one_is_taken(ids, wires, order, order.len() as int);
    assert forall|i: int| 0 <= i < slots.len() implies sorted_slots(ids, wires).contains(
        #[trigger] slots[i],
    ) by {
        assert(order[i] == order[i]);
    }
    contained_is_not_longer(slots, sorted_slots(ids, wires));
    sorted_is_not_longer(ids, wires);
}

proof fn every_one_is_taken(
    ids: Seq<Seq<char>>,
    wires: Seq<(Seq<char>, Seq<char>)>,
    order: Seq<Seq<char>>,
    n: int,
)
    requires
        proper(ids),
        serves(ids, wires, order),
        0 <= n <= order.len(),
    ensures
        forall|i: int|
            0 <= i < n ==> sorted_slots(ids, wires).contains(slot(ids, #[trigger] order[i])),
    decreases n,
{
    if n > 0 {
        every_one_is_taken(ids, wires, order, n - 1);
        let m = 2 * ids.len();
        let p = after(ids, wires, m);
        after_is_sound(ids, wires, m);
        rounds_run_out(ids, wires, m);
        let v = slot(ids, order[n - 1]);
        slot_is_first(ids, order[n - 1]);
        let at = choose|j: int| 0 <= j < ids.len() && ids[j] == order[n - 1];
        assert(ids[at] == order[n - 1]);
        if !p.order.contains(v) {
            assert(!p.ready.contains(v));
            assert(p.waiting[v] != 0);
            idle_is_served(ids, wires, p.order, v);
            let k = waiting_has_a_wire(ids, wires, p.order, v);
            slot_is_first(ids, wires[k].1);
            assert(wires[k].1 == order[n - 1]);
            let j = choose|j: int| 0 <= j < n - 1 && #[trigger] order[j] == wires[k].0;
            assert(p.order.contains(slot(ids, order[j])));
        }
    }
}

// ---------------------------------------------------------------- cycles

/// A path follows a wire from its `i`-th name to the next.
pub open spec fn follows(
    wires: Seq<(Seq<char>, Seq<char>)>,
    path: Seq<Seq<char>>,
    i: int,
) -> bool {
    wires.contains((path[i], path[i + 1]))
}

/// A walk along wires, from node to node, that comes back to where it began.
pub open spec fn is_cycle(
    ids: Seq<Seq<char>>,
    wires: Seq<(Seq<char>, Seq<char>)>,
    path: Seq<Seq<char>>,
) -> bool {
    &&& path.len() >= 2
    &&& path[0] == path.last()
    &&& forall|i: int| 0 <= i < path.len() ==> ids.contains(#[trigger] path[i])
    &&& forall|i: int| 0 <= i < path.len() - 1 ==> #[trigger] follows(wires, path, i)
}

/// The graph feeds back into itself.
pub open spec fn has_cycle(ids: Seq<Seq<char>>, wires: Seq<(Seq<char>, Seq<char>)>) -> bool {
    exists|path: Seq<Seq<char>>| is_cycle(ids, wires, path)
}

/// Every wire into a node begins at the device input or at a node.
pub open spec fn attached(ids: Seq<Seq<char>>, wires: Seq<(Seq<char>, Seq<char>)>) -> bool {
    forall|k: int|
        0 <= k < wires.len() && ids.contains((#[trigger] wires[k]).1) ==> wires[k].0 == "in"@
            || ids.contains(wires[k].0)
}

/// On a graph whose wires are attached, the sort fails exactly when there is a cycle.
pub proof fn unsortable_means_cycle(
    ids: Seq<Seq<char>>,
    wires: Seq<(Seq<char>, Seq<char>)>,
)
    requires
        proper(ids),
        attached(ids, wires),
    ensures
        sortable(ids, wires) <==> !has_cycle(ids, wires),
{
    if sortable(ids, wires) {
        sortable_has_no_cycle(ids, wires);
    } else {
        unsortable_has_cycle(ids, wires);
    }
}

proof fn sortable_has_no_cycle(ids: Seq<Seq<char>>, wires: Seq<(Seq<char>, Seq<char>)>)
    requires
        proper(ids),
        sortable(ids, wires),
    ensures
        !has_cycle(ids, wires),
{
    if has_cycle(ids, wires) {
        let path = choose|path: Seq<Seq<char>>| is_cycle(ids, wires, path);
        sorted_order_serves(ids, wires);
        sorted_names_all(ids, wires);
        places_rise(ids, wires, sorted(ids, wires), path, path.len() - 1);
    }
}

/// When the sort takes every node, every node stands in its order.
pub proof fn sorted_names_all(ids: Seq<Seq<char>>, wires: Seq<(Seq<char>, Seq<char>)>)
    requires
        proper(ids),
        sortable(ids, wires),
    ensures
        forall|id: Seq<char>| ids.contains(id) ==> sorted(ids, wires).contains(id),
{
    let order = sorted(ids, wires);
    let slots = sorted_slots(ids, wires);
    after_is_sound(ids, wires, 2 * ids.len());
    range_is_the_limit(slots, ids.len() as int);
    assert forall|id: Seq<char>| ids.contains(id) implies order.contains(id) by {
        let v = choose|v: int| 0 <= v < ids.len() && ids[v] == id;
        assert(slots.contains(v));
        let i = choose|i: int| 0 <= i < slots.len() && slots[i] == v;
        assert(order[i] == id);
    }
}

/// Every name in a sorted order is that of a node.
pub proof fn sorted_takes_names(ids: Seq<Seq<char>>, wires: Seq<(Seq<char>, Seq<char>)>, i: int)
    requires
        proper(ids),
        0 <= i < sorted(ids, wires).len(),
    ensures
        ids.contains(sorted(ids, wires)[i]),
{
    after_is_sound(ids, wires, 2 * ids.len());
    let slots = sorted_slots(ids, wires);
    assert(ids[slots[i]] == sorted(ids, wires)[i]);
}

proof fn unsortable_has_cycle(ids: Seq<Seq<char>>, wires: Seq<(Seq<char>, Seq<char>)>)
    requires
        proper(ids),
        attached(ids, wires),
        !sortable(ids, wires),
    ensures
        has_cycle(ids, wires),
{
    let n = ids.len() as int;
    let p = after(ids, wires, 2 * ids.len());
    after_is_sound(ids, wires, 2 * ids.len());
    rounds_run_out(ids, wires, 2 * ids.len());
    range_is_the_limit(p.order, n);
    let v = untaken(n, p.order);
    let walk = walk_back(ids, wires, p, v, ids.len());
    if walk.no_duplicates() {
        range_is_the_limit(walk, n);
    }
    let (i, j) = choose|i: int, j: int|
        0 <= i < walk.len() && 0 <= j < walk.len() && i != j && walk[i] == walk[j];
    if i < j {
        loop_in_walk(ids, wires, walk, i, j);
    } else {
        loop_in_walk(ids, wires, walk, j, i);
    }
}

/// The `i`-th node of a walk takes its signal from the next.
spec fn fed(
    ids: Seq<Seq<char>>,
    wires: Seq<(Seq<char>, Seq<char>)>,
    walk: Seq<int>,
    i: int,
) -> bool {
    wires.contains((ids[walk[i + 1]], ids[walk[i]]))
}

proof fn loop_in_walk(
    ids: Seq<Seq<char>>,
    wires: Seq<(Seq<char>, Seq<char>)>,
    walk: Seq<int>,
    a: int,
    b: int,
)
    requires
        in_range(walk, ids.len() as int),
        forall|i: int| 0 <= i < walk.len() - 1 ==> #[trigger] fed(ids, wires, walk, i),
        0 <= a < b < walk.len(),
        walk[a] == walk[b],
    ensures
        has_cycle(ids, wires),
{
    let path = Seq::new((b - a + 1) as nat, |q: int| ids[walk[b - q]]);
    assert forall|q: int| 0 <= q < path.len() implies ids.contains(#[trigger] path[q]) by {
        assert(0 <= walk[b - q] < ids.len());
        assert(ids[walk[b - q]] == path[q]);
    }
    assert forall|q: int| 0 <= q < path.len() - 1 implies #[trigger] follows(wires, path, q) by {
        assert(fed(ids, wires, walk, b - q - 1));
    }
    assert(is_cycle(ids, wires, path));
}

/// Where a name stands in an order without repetitions.
spec fn place(order: Seq<Seq<char>>, id: Seq<char>) -> int {
    choose|i: int| 0 <= i < order.len() && order[i] == id
}

proof fn places_rise(
    ids: Seq<Seq<char>>,
    wires: Seq<(Seq<char>, Seq<char>)>,
    order: Seq<Seq<char>>,
    path: Seq<Seq<char>>,
    k: int,
)
    requires
        proper(ids),
        serves(ids, wires, order),
        is_cycle(ids, wires, path),
        forall|id: Seq<char>| ids.contains(id) ==> order.contains(id),
        0 < k < path.len(),
    ensures
        place(order, path[0]) < place(order, path[k]),
    decreases k,
{
    assert(follows(wires, path, k - 1));
    let w = choose|w: int| 0 <= w < wires.len() && wires[w] == (path[k - 1], path[k]);
    assert(ids.contains(path[k]) && ids.contains(path[k - 1]));
    let i = place(order, path[k]);
    let from = choose|f: int| 0 <= f < ids.len() && ids[f] == path[k - 1];
    assert(ids[from] != "in"@);
    assert(wires[w].1 == order[i]);
    let j = choose|j: int| 0 <= j < i && #[trigger] order[j] == wires[w].0;
    assert(place(order, path[k - 1]) == j);
    if k > 1 {
        places_rise(ids, wires, order, path, k - 1);
    }
}

/// A node that was not taken.
proof fn untaken(n: int, order: Seq<int>) -> (v: int)
    requires
        order.no_duplicates(),
        in_range(order, n),
        0 <= order.len() < n,
    ensures
        0 <= v < n,
        !order.contains(v),
{
    let all = Seq::new(n as nat, |i: int| i);
    if forall|v: int| 0 <= v < n ==> order.contains(v) {
        contained_is_not_longer(all, order);
    }
    choose|v: int| 0 <= v < n && !order.contains(v)
}

/// Nodes that were not taken, each fed by the next.
proof fn walk_back(
    ids: Seq<Seq<char>>,
    wires: Seq<(Seq<char>, Seq<char>)>,
    p: Progress,
    v: int,
    n: nat,
) -> (walk: Seq<int>)
    requires
        proper(ids),
        attached(ids, wires),
        sound(ids, wires, p),
        p.ready.len() == 0,
        0 <= v < ids.len(),
        !p.order.contains(v),
    ensures
        walk.len() == n + 1,
        in_range(walk, ids.len() as int),
        forall|i: int| 0 <= i < walk.len() ==> !p.order.contains(#[trigger] walk[i]),
        forall|i: int| 0 <= i < n ==> #[trigger] fed(ids, wires, walk, i),
    decreases n,
{
    if n == 0 {
        seq![v]
    } else {
        let before = walk_back(ids, wires, p, v, (n - 1) as nat);
        let last = before[n - 1];
        assert(!p.order.contains(last) && !p.ready.contains(last));
        assert(0 <= last < ids.len());
        assert(p.waiting[last] != 0);
        idle_is_served(ids, wires, p.order, last);
        let k = waiting_has_a_wire(ids, wires, p.order, last);
        slot_is_first(ids, wires[k].1);
        assert(ids.contains(wires[k].1));
        let f = slot(ids, wires[k].0);
        slot_is_first(ids, wires[k].0);
        assert(f >= 0) by {
            let at = choose|at: int| 0 <= at < ids.len() && ids[at] == wires[k].0;
            assert(ids[at] == wires[k].0);
        }
        let walk = before.push(f);
        assert(wires[k] == (ids[f], ids[last]));
        assert forall|i: int| 0 <= i < n implies #[trigger] fed(ids, wires, walk, i) by {
            if i < n - 1 {
                assert(fed(ids, wires, before, i));
                assert(before[i] == walk[i] && before[i + 1] == walk[i + 1]);
            }
        }
        walk
    }
}

// ---------------------------------------------------------------- wires to the devices

/// The wires that neither begin at the device input nor end at the device output.
pub open spec fn between_nodes() -> spec_fn((Seq<char>, Seq<char>)) -> bool {
    |w: (Seq<char>, Seq<char>)| w.0 != "in"@ && w.1 != "out"@
}

proof fn inner_wires_by_last(wires: Seq<(Seq<char>, Seq<char>)>)
    ensures
        wires.len() == 0 ==> wires.filter(between_nodes()) == Seq::<
            (Seq<char>, Seq<char>),
        >::empty(),
        wires.len() > 0 ==> wires.filter(between_nodes()) == if between_nodes()(wires.last()) {
            wires.drop_last().filter(between_nodes()).push(wires.last())
        } else {
            wires.drop_last().filter(between_nodes())
        },
{
    reveal(Seq::filter);
}

proof fn no_slot_for_the_output(ids: Seq<Seq<char>>)
    requires
        !ids.contains("out"@),
    ensures
        slot(ids, "out"@) == -1,
{
    slot_is_first(ids, "out"@);
    if slot(ids, "out"@) >= 0 {
        assert(ids.contains(ids[slot(ids, "out"@)]));
    }
}

proof fn inner_wires_hold_back(
    ids: Seq<Seq<char>>,
    wires: Seq<(Seq<char>, Seq<char>)>,
    done: Seq<int>,
    v: int,
)
    requires
        !ids.contains("out"@),
        0 <= v,
    ensures
        pending(ids, wires.filter(between_nodes()), done, v) == pending(ids, wires, done, v),
    decreases wires.len(),
{
    inner_wires_by_last(wires);
    no_slot_for_the_output(ids);
    if wires.len() > 0 {
        let rest = wires.drop_last();
        inner_wires_hold_back(ids, rest, done, v);
        if between_nodes()(wires.last()) {
            let inner = rest.filter(between_nodes());
            assert(inner.push(wires.last()).drop_last() =~= inner);
        }
    }
}

/// What is served does not depend on the wires that come later.
proof fn served_by_the_first(
    ids: Seq<Seq<char>>,
    wires: Seq<(Seq<char>, Seq<char>)>,
    few: Seq<(Seq<char>, Seq<char>)>,
    v: int,
    p: Progress,
    k: int,
)
    requires
        0 <= k <= wires.len(),
        k <= few.len(),
        forall|i: int| 0 <= i < k ==> wires[i] == #[trigger] few[i],
    ensures
        served(ids, wires, v, p, k) == served(ids, few, v, p, k),
    decreases k,
{
    if k > 0 {
        served_by_the_first(ids, wires, few, v, p, k - 1);
        assert(wires[k - 1] == few[k - 1]);
    }
}

proof fn inner_wires_are_served(
    ids: Seq<Seq<char>>,
    wires: Seq<(Seq<char>, Seq<char>)>,
    v: int,
    p: Progress,
)
    requires
        proper(ids),
        !ids.contains("out"@),
        0 <= v < ids.len(),
    ensures
        ({
            let inner = wires.filter(between_nodes());
            served(ids, inner, v, p, inner.len() as int) == served(
                ids,
                wires,
                v,
                p,
                wires.len() as int,
            )
        }),
    decreases wires.len(),
{
    inner_wires_by_last(wires);
    no_slot_for_the_output(ids);
    if wires.len() > 0 {
        let rest = wires.drop_last();
        let few = rest.filter(between_nodes());
        let inner = wires.filter(between_nodes());
        inner_wires_are_served(ids, rest, v, p);
        served_by_the_first(ids, wires, rest, v, p, rest.len() as int);
        assert(ids[v] != "in"@);
        if between_nodes()(wires.last()) {
            served_by_the_first(ids, inner, few, v, p, few.len() as int);
        }
    }
}

proof fn inner_wires_decide(ids: Seq<Seq<char>>, wires: Seq<(Seq<char>, Seq<char>)>, n: nat)
    requires
        proper(ids),
        !ids.contains("out"@),
    ensures
        after(ids, wires.filter(between_nodes()), n) == after(ids, wires, n),
    decreases n,
{
    let inner = wires.filter(between_nodes());
    if n == 0 {
        assert forall|v: int| 0 <= v < ids.len() implies #[trigger] at_start(ids, inner).waiting[v]
            == at_start(ids, wires).waiting[v] by {
            inner_wires_hold_back(ids, wires, Seq::empty(), v);
        }
        assert(at_start(ids, inner).waiting =~= at_start(ids, wires).waiting);
    } else {
        let m = (n - 1) as nat;
        inner_wires_decide(ids, wires, m);
        let p = after(ids, wires, m);
        after_is_sound(ids, wires, m);
        if p.ready.len() > 0 {
            assert(0 <= p.ready[p.ready.len() - 1] < ids.len());
            inner_wires_are_served(ids, wires, p.ready.last(), taken(p));
        }
    }
}

/// Wires from the device input and to the device output never change the order, and never make
/// the sort fail: two graphs with the same nodes and the same wires between them are sorted
/// alike, or neither can be.
pub proof fn device_wires_do_not_matter(
    ids: Seq<Seq<char>>,
    wires: Seq<(Seq<char>, Seq<char>)>,
    others: Seq<(Seq<char>, Seq<char>)>,
)
    requires
        proper(ids),
        !ids.contains("out"@),
        wires.filter(between_nodes()) == others.filter(between_nodes()),
    ensures
        sortable(ids, wires) == sortable(ids, others),
        sorted(ids, wires) == sorted(ids, others),
{
    inner_wires_decide(ids, wires, 2 * ids.len());
    inner_wires_decide(ids, others, 2 * ids.len());
}

proof fn unwired_after(ids: Seq<Seq<char>>, n: nat)
    requires
        proper(ids),
        n <= ids.len(),
    ensures
        after(ids, Seq::empty(), n).ready == Seq::new((ids.len() - n) as nat, |i: int| i),
        after(ids, Seq::empty(), n).order == Seq::new(n, |i: int| ids.len() - 1 - i),
    decreases n,
{
    let none = Seq::<(Seq<char>, Seq<char>)>::empty();
    if n == 0 {
        let waiting = at_start(ids, none).waiting;
        unwired_ready(ids, waiting, ids.len() as int);
        assert(after(ids, none, n).order =~= Seq::new(n, |i: int| ids.len() - 1 - i));
    } else {
        unwired_after(ids, (n - 1) as nat);
        let p = after(ids, none, (n - 1) as nat);
        assert(p.ready.last() == ids.len() - n);
        assert(taken(p).ready =~= Seq::new((ids.len() - n) as nat, |i: int| i));
        assert(taken(p).order =~= Seq::new(n, |i: int| ids.len() - 1 - i));
    }
}

proof fn unwired_ready(ids: Seq<Seq<char>>, waiting: Seq<int>, k: int)
    requires
        proper(ids),
        0 <= k <= ids.len(),
        waiting.len() == ids.len(),
        forall|v: int| 0 <= v < waiting.len() ==> #[trigger] waiting[v] == 0,
    ensures
        ready_among(ids, waiting, k) == Seq::new(k as nat, |i: int| i),
    decreases k,
{
    if k > 0 {
        unwired_ready(ids, waiting, k - 1);
        slot_of_proper(ids, k - 1);
    }
    assert(ready_among(ids, waiting, k) =~= Seq::new(k as nat, |i: int| i));
}

/// Of nodes that wait for none of the others, the newest is taken first: without wires between
/// them, nodes are taken from the last to the first.
pub proof fn unwired_nodes_are_taken_backwards(
    ids: Seq<Seq<char>>,
    wires: Seq<(Seq<char>, Seq<char>)>,
)
    requires
        proper(ids),
        !ids.contains("out"@),
        forall|k: int|
            0 <= k < wires.len() ==> (#[trigger] wires[k]).0 == "in"@ || wires[k].1 == "out"@,
    ensures
        sortable(ids, wires),
        sorted(ids, wires) == ids.reverse(),
{
    let none = Seq::<(Seq<char>, Seq<char>)>::empty();
    no_inner_wires(wires);
    inner_wires_by_last(none);
    device_wires_do_not_matter(ids, wires, none);
    unwired_after(ids, ids.len());
    idle_is_the_end(ids, none, ids.len());
    assert(sorted(ids, none) =~= ids.reverse());
}

proof fn no_inner_wires(wires: Seq<(Seq<char>, Seq<char>)>)
    requires
        forall|k: int|
            0 <= k < wires.len() ==> (#[trigger] wires[k]).0 == "in"@ || wires[k].1 == "out"@,
    ensures
        wires.filter(between_nodes()) == Seq::<(Seq<char>, Seq<char>)>::empty(),
    decreases wires.len(),
{
    inner_wires_by_last(wires);
    if wires.len() > 0 {
        let rest = wires.drop_last();
        assert forall|k: int| 0 <= k < rest.len() implies (#[trigger] rest[k]).0 == "in"@
            || rest[k].1 == "out"@ by {
            assert(rest[k] == wires[k]);
        }
        no_inner_wires(rest);
        assert(!between_nodes()(wires[wires.len() - 1]));
    }
}

proof fn freed_by_serving(
    ids: Seq<Seq<char>>,
    wires: Seq<(Seq<char>, Seq<char>)>,
    v: int,
    p: Progress,
    k: int,
) -> (j: int)
    requires
        0 <= k <= wires.len(),
    ensures
        served(ids, wires, v, p, k).order == p.order,
        served(ids, wires, v, p, k).ready == p.ready || {
            &&& 0 <= j < k
            &&& wires[j].0 == ids[v]
            &&& served(ids, wires, v, p, k).ready.len() > 0
            &&& 0 <= slot(ids, wires[j].1) == served(ids, wires, v, p, k).ready.last()
        },
    decreases k,
{
    if k > 0 {
        let j = freed_by_serving(ids, wires, v, p, k - 1);
        let q = served(ids, wires, v, p, k - 1);
        let r = served(ids, wires, v, p, k);
        if r.ready == q.ready {
            j
        } else {
            k - 1
        }
    } else {
        0
    }
}

proof fn order_grows(ids: Seq<Seq<char>>, wires: Seq<(Seq<char>, Seq<char>)>, n: nat, m: nat)
    requires
        n <= m,
    ensures
        after(ids, wires, n).order.is_prefix_of(after(ids, wires, m).order),
    decreases m,
{
    if n < m {
        order_grows(ids, wires, n, (m - 1) as nat);
        let p = after(ids, wires, (m - 1) as nat);
        if p.ready.len() > 0 {
            let _ = freed_by_serving(ids, wires, p.ready.last(), taken(p), wires.len() as int);
            assert(taken(p).order == p.order.push(p.ready.last()));
        }
    }
}

proof fn one_is_taken_each_round(ids: Seq<Seq<char>>, wires: Seq<(Seq<char>, Seq<char>)>, n: nat)
    requires
        n < sorted_slots(ids, wires).len(),
    ensures
        after(ids, wires, n).order.len() == n,
        after(ids, wires, n).ready.len() > 0,
    decreases n,
{
    if n > 0 {
        one_is_taken_each_round(ids, wires, (n - 1) as nat);
        let p = after(ids, wires, (n - 1) as nat);
        let _ = freed_by_serving(ids, wires, p.ready.last(), taken(p), wires.len() as int);
    }
    if after(ids, wires, n).ready.len() == 0 {
        idle_is_the_end(ids, wires, n);
    }
}

proof fn ready_is_next(ids: Seq<Seq<char>>, wires: Seq<(Seq<char>, Seq<char>)>, n: nat)
    requires
        proper(ids),
        n < sorted_slots(ids, wires).len(),
    ensures
        sorted_slots(ids, wires)[n as int] == after(ids, wires, n).ready.last(),
        after(ids, wires, n).ready.len() > 0,
        after(ids, wires, n).order == sorted_slots(ids, wires).take(n as int),
{
    one_is_taken_each_round(ids, wires, n);
    sorted_is_not_longer(ids, wires);
    let p = after(ids, wires, n);
    let _ = freed_by_serving(ids, wires, p.ready.last(), taken(p), wires.len() as int);
    order_grows(ids, wires, n, 2 * ids.len());
    order_grows(ids, wires, n + 1, 2 * ids.len());
    let next = after(ids, wires, n + 1).order;
    assert(next == p.order.push(p.ready.last()));
    assert(next[n as int] == p.ready.last());
    assert(p.order =~= sorted_slots(ids, wires).take(n as int));
}

/// A path is followed as far as it goes: where a node waits for nothing but the node that was
/// just taken and those before, one that takes its signal from that node is taken next.
pub proof fn freed_nodes_come_next(
    ids: Seq<Seq<char>>,
    wires: Seq<(Seq<char>, Seq<char>)>,
    i: int,
    id: Seq<char>,
)
    requires
        proper(ids),
        0 <= i < sorted(ids, wires).len() - 1,
        ids.contains(id),
        wires.contains((sorted(ids, wires)[i], id)),
        forall|k: int|
            0 <= k < wires.len() && (#[trigger] wires[k]).1 == id ==> wires[k].0 == "in"@
                || sorted(ids, wires).take(i + 1).contains(wires[k].0),
    ensures
        wires.contains((sorted(ids, wires)[i], sorted(ids, wires)[i + 1])),
{
    let slots = sorted_slots(ids, wires);
    let names = sorted(ids, wires);
    let n = i as nat;
    let p = after(ids, wires, n);
    let v = p.ready.last();
    let q = taken(p);
    let r = after(ids, wires, n + 1);
    ready_is_next(ids, wires, n);
    ready_is_next(ids, wires, n + 1);
    after_is_sound(ids, wires, n);
    after_is_sound(ids, wires, n + 1);
    after_is_sound(ids, wires, 2 * ids.len());
    assert(0 <= slots[i] < ids.len() && 0 <= slots[i + 1] < ids.len());
    slot_is_first(ids, id);
    let u = slot(ids, id);
    let c = choose|c: int| 0 <= c < wires.len() && wires[c] == (names[i], id);
    slot_of_proper(ids, v);
    assert(p.ready.contains(v)) by {
        assert(p.ready[p.ready.len() - 1] == v);
    }
    assert(holds_back(ids, wires[c], u));
    if p.waiting[u] == 0 {
        idle_is_served(ids, wires, p.order, u);
        assert(p.order.contains(slot(ids, wires[c].0)));
    }
    if r.waiting[u] != 0 {
        idle_is_served(ids, wires, r.order, u);
        let k = waiting_has_a_wire(ids, wires, r.order, u);
        slot_is_first(ids, wires[k].1);
        assert(wires[k].1 == id);
        let had = names.take(i + 1);
        assert(had.contains(wires[k].0));
        let j = choose|j: int| 0 <= j < had.len() && had[j] == wires[k].0;
        assert(0 <= slots[j] < ids.len());
        slot_of_proper(ids, slots[j]);
        assert(r.order[j] == slots[j]);
        assert(r.order.contains(slot(ids, wires[k].0)));
    }
    push_contains(p.order, v, u);
    assert(p.waiting[v] == 0);
    let j = freed_by_serving(ids, wires, v, q, wires.len() as int);
    if r.ready == q.ready {
        let x = choose|x: int| 0 <= x < q.ready.len() && q.ready[x] == u;
        assert(p.ready[x] == u);
        assert(p.ready.contains(u));
    }
    slot_is_first(ids, wires[j].1);
    assert(wires[j] == (names[i], names[i + 1]));
}

// ---------------------------------------------------------------- editing a graph

/// Taking wires away keeps a graph sortable.
pub proof fn fewer_wires_stay_sortable(
    ids: Seq<Seq<char>>,
    wires: Seq<(Seq<char>, Seq<char>)>,
    fewer: Seq<(Seq<char>, Seq<char>)>,
)
    requires
        proper(ids),
        sortable(ids, wires),
        forall|k: int| 0 <= k < fewer.len() ==> wires.contains(#[trigger] fewer[k]),
    ensures
        sortable(ids, fewer),
{
    sorted_order_serves(ids, wires);
    let order = sorted(ids, wires);
    assert forall|k: int, i: int|
        0 <= k < fewer.len() && 0 <= i < order.len() && (#[trigger] fewer[k]).1 == (
        #[trigger] order[i]) && fewer[k].0 != "in"@ implies exists|j: int|
        0 <= j < i && #[trigger] order[j] == fewer[k].0 by {
        let w = choose|w: int| 0 <= w < wires.len() && wires[w] == fewer[k];
        assert(wires[w].1 == order[i]);
    }
    sort_finds_an_order(ids, fewer, order);
}

/// A new node without wires keeps a graph sortable.
pub proof fn new_node_stays_sortable(
    ids: Seq<Seq<char>>,
    wires: Seq<(Seq<char>, Seq<char>)>,
    id: Seq<char>,
)
    requires
        proper(ids.push(id)),
        sortable(ids, wires),
        forall|k: int| 0 <= k < wires.len() ==> (#[trigger] wires[k]).1 != id,
    ensures
        proper(ids),
        sortable(ids.push(id), wires),
{
    let more = ids.push(id);
    assert(proper(ids)) by {
        assert forall|i: int, j: int| 0 <= i < j < ids.len() implies #[trigger] ids[i]
            != #[trigger] ids[j] by {
            assert(more[i] != more[j]);
        }
        assert forall|i: int| 0 <= i < ids.len() implies #[trigger] ids[i] != "in"@ by {
            assert(more[i] != "in"@);
        }
    }
    sorted_order_serves(ids, wires);
    let order = sorted(ids, wires);
    let longer = order.push(id);
    assert(!ids.contains(id)) by {
        if ids.contains(id) {
            let i = choose|i: int| 0 <= i < ids.len() && ids[i] == id;
            assert(more[i] != more[ids.len() as int]);
        }
    }
    assert forall|i: int, j: int|
        0 <= i < longer.len() && 0 <= j < longer.len() && i != j implies longer[i]
        != longer[j] by {
        assert(i < order.len() ==> ids.contains(order[i]));
        assert(j < order.len() ==> ids.contains(order[j]));
    }
    assert forall|i: int| 0 <= i < longer.len() implies more.contains(#[trigger] longer[i]) by {
        if i < order.len() {
            assert(ids.contains(order[i]));
            let f = choose|f: int| 0 <= f < ids.len() && ids[f] == order[i];
            assert(more[f] == longer[i]);
        } else {
            assert(more[ids.len() as int] == id);
        }
    }
    assert forall|k: int, i: int|
        0 <= k < wires.len() && 0 <= i < longer.len() && (#[trigger] wires[k]).1 == (
        #[trigger] longer[i]) && wires[k].0 != "in"@ implies exists|j: int|
        0 <= j < i && #[trigger] longer[j] == wires[k].0 by {
        assert(i < order.len());
        assert(order[i] == longer[i]);
        let j = choose|j: int| 0 <= j < i && #[trigger] order[j] == wires[k].0;
        assert(longer[j] == wires[k].0);
    }
    sort_finds_an_order(more, wires, longer);
}

/// Taking out a node together with its wires keeps a graph sortable.
pub proof fn without_node_stays_sortable(
    ids: Seq<Seq<char>>,
    wires: Seq<(Seq<char>, Seq<char>)>,
    at: int,
    fewer: Seq<(Seq<char>, Seq<char>)>,
)
    requires
        proper(ids),
        sortable(ids, wires),
        0 <= at < ids.len(),
        forall|k: int|
            0 <= k < fewer.len() ==> wires.contains(#[trigger] fewer[k]) && fewer[k].0 != ids[at]
                && fewer[k].1 != ids[at],
    ensures
        proper(ids.remove(at)),
        sortable(ids.remove(at), fewer),
{
    let id = ids[at];
    let rest = ids.remove(at);
    assert(proper(rest)) by {
        assert forall|i: int, j: int| 0 <= i < j < rest.len() implies #[trigger] rest[i]
            != #[trigger] rest[j] by {
            let x = if i < at {
                i
            } else {
                i + 1
            };
            let y = if j < at {
                j
            } else {
                j + 1
            };
            assert(ids[x] != ids[y]);
        }
        assert forall|i: int| 0 <= i < rest.len() implies #[trigger] rest[i] != "in"@ by {
            let x = if i < at {
                i
            } else {
                i + 1
            };
            assert(ids[x] != "in"@);
        }
    }
    sorted_order_serves(ids, wires);
    let order = sorted(ids, wires);
    let slots = sorted_slots(ids, wires);
    after_is_sound(ids, wires, 2 * ids.len());
    range_is_the_limit(slots, ids.len() as int);
    assert(slots.contains(at));
    let p = choose|p: int| 0 <= p < slots.len() && slots[p] == at;
    assert(order[p] == id);
    let shorter = order.remove(p);
    assert forall|i: int| 0 <= i < shorter.len() implies rest.contains(#[trigger] shorter[i]) by {
        let x = if i < p {
            i
        } else {
            i + 1
        };
        assert(order[x] == shorter[i]);
        assert(order[x] != order[p]);
        assert(ids.contains(order[x]));
        let f = choose|f: int| 0 <= f < ids.len() && ids[f] == order[x];
        let g = if f < at {
            f
        } else {
            f - 1
        };
        assert(rest[g] == shorter[i]);
    }
    assert forall|i: int, j: int|
        0 <= i < shorter.len() && 0 <= j < shorter.len() && i != j implies shorter[i]
        != shorter[j] by {
        let x = if i < p {
            i
        } else {
            i + 1
        };
        let y = if j < p {
            j
        } else {
            j + 1
        };
        assert(order[x] != order[y]);
    }
    assert forall|k: int, i: int|
        0 <= k < fewer.len() && 0 <= i < shorter.len() && (#[trigger] fewer[k]).1 == (
        #[trigger] shorter[i]) && fewer[k].0 != "in"@ implies exists|j: int|
        0 <= j < i && #[trigger] shorter[j] == fewer[k].0 by {
        let x = if i < p {
            i
        } else {
            i + 1
        };
        let w = choose|w: int| 0 <= w < wires.len() && wires[w] == fewer[k];
        assert(wires[w].1 == order[x]);
        let y = choose|y: int| 0 <= y < x && #[trigger] order[y] == wires[w].0;
        assert(y != p);
        let j = if y < p {
            y
        } else {
            y - 1
        };
        assert(shorter[j] == fewer[k].0);
    }
    sort_finds_an_order(rest, fewer, shorter);
}

} // verus!
