//! The handles by which the control side steers a node that is being played, its knobs and its
//! switch, and those by which the audio side reads them and shows what it plays.
//!
//! Cells are shared between threads, and whoever holds a reference can store in them. So the
//! cells are kept in here, and a handle knows what was stored through it. What the control side
//! has on record is then what the audio side was told last, and what the audio side shows on its
//! meters it shows just once.
use crate::audio::EngineStats;
use crate::block;
use crate::nodes::{AtomicF32, Buf, Processor};
use crate::nodes;
use std::sync::atomic::{AtomicBool, Ordering};
use std::sync::Arc;
use vstd::prelude::*;

verus! {

/// The switch of a node, as the control side holds it.
pub struct Switch {
    cell: Arc<AtomicBool>,
    last: Ghost<bool>,
    kept: Ghost<bool>,
}

/// The switch of a node, as the audio side sees it.
pub struct Watch {
    cell: Arc<AtomicBool>,
}

impl Switch {
    /// The cell that is shared.
    pub closed spec fn cell(&self) -> AtomicBool {
        *self.cell
    }

    /// What the switch was turned to last.
    pub closed spec fn last(&self) -> bool {
        self.last@
    }

    /// Somebody keeps a record of what the switch was turned to last, and relies on it.
    pub closed spec fn recorded(&self) -> bool {
        self.kept@
    }

    /// A switch that is on or off.
    pub fn new(on: bool) -> (r: Self)
        ensures
            nodes::switch_made(on, r.cell()),
            r.last() == on,
            r.recorded(),
    {
        Switch { cell: Arc::new(AtomicBool::new(on)), last: Ghost(on), kept: Ghost(true) }
    }

    /// Turns the switch, for the audio side to see.
    pub fn turn(&mut self, on: bool)
        ensures
            nodes::turned_to(final(self).cell(), on),
            final(self).cell() == old(self).cell(),
            final(self).last() == on,
            final(self).recorded() == old(self).recorded(),
    {
        self.cell.store(on, Ordering::Relaxed);
        self.last = Ghost(on);
    }

    /// From now on nobody relies on a record of the switch.
    pub fn forget(&mut self)
        ensures
            final(self).cell() == old(self).cell(),
            final(self).last() == old(self).last(),
            !final(self).recorded(),
    {
        self.kept = Ghost(false);
    }

    /// Turns the switch without a record. All that matters here is relaxed.
    pub fn store(&self, on: bool, order: Ordering)
        requires
            !self.recorded(),
            order == Ordering::Relaxed,
        ensures
            nodes::turned_to(self.cell(), on),
    {
        self.cell.store(on, order);
    }

    /// What the switch is found at.
    pub fn load(&self, order: Ordering) -> (r: bool)
        requires
            order == Ordering::Relaxed,
        ensures
            nodes::found_at(self.cell(), r),
    {
        self.cell.load(order)
    }

    /// The same switch for the audio side.
    pub fn watched(&self) -> (r: Watch)
        ensures
            r.cell() == self.cell(),
    {
        Watch { cell: self.cell.clone() }
    }
}

impl Watch {
    /// The cell that is shared.
    pub closed spec fn cell(&self) -> AtomicBool {
        *self.cell
    }

    /// What the switch is found at.
    pub fn find(&self) -> (r: bool)
        ensures
            nodes::found_at(self.cell(), r),
    {
        self.cell.load(Ordering::Relaxed)
    }
}

/// The knobs of a node, as the control side holds them.
pub struct Knobs {
    cells: Arc<Vec<AtomicF32>>,
    last: Ghost<Seq<u32>>,
    kept: Ghost<bool>,
}

/// The knobs of a node, as the audio side sees them.
pub struct Lines {
    cells: Arc<Vec<AtomicF32>>,
}

impl Knobs {
    /// The cells that are shared.
    pub closed spec fn cells(&self) -> Seq<AtomicF32> {
        self.cells@
    }

    /// What the knobs were set to last.
    pub closed spec fn last(&self) -> Seq<u32> {
        self.last@
    }

    /// Somebody keeps a record of what the knobs were set to last, and relies on it.
    pub closed spec fn recorded(&self) -> bool {
        self.kept@
    }

    /// Knobs that are set to some values.
    pub fn new(values: &Vec<u32>) -> (r: Self)
        ensures
            r.cells().len() == values@.len(),
            forall|i: int|
                0 <= i < values@.len() ==> nodes::made_of(
                    values@[i],
                    (#[trigger] r.cells()[i]).cell(),
                ),
            r.last() == values@,
            r.recorded(),
    {
        let mut cells: Vec<AtomicF32> = Vec::new();
        let mut i: usize = 0;
        while i < values.len()
            invariant
                i <= values@.len(),
                cells@.len() == i,
                forall|j: int|
                    0 <= j < i ==> nodes::made_of(values@[j], (#[trigger] cells@[j]).cell()),
            decreases values@.len() - i,
        {
            cells.push(AtomicF32::new(values[i]));
            i += 1;
        }
        Knobs { cells: Arc::new(cells), last: Ghost(values@), kept: Ghost(true) }
    }

    /// Sets a knob, for the audio side to see.
    pub fn put(&mut self, i: usize, v: u32)
        requires
            i < old(self).cells().len(),
        ensures
            nodes::stored_in(final(self).cells()[i as int].cell(), v),
            final(self).cells() == old(self).cells(),
            final(self).last() == old(self).last().update(i as int, v),
            final(self).recorded() == old(self).recorded(),
    {
        self.cells[i].set(v);
        self.last = Ghost(self.last@.update(i as int, v));
    }

    /// From now on nobody relies on a record of the knobs.
    pub fn forget(&mut self)
        ensures
            final(self).cells() == old(self).cells(),
            final(self).last() == old(self).last(),
            !final(self).recorded(),
    {
        self.kept = Ghost(false);
    }

    /// The cells one by one, for whoever needs no record.
    pub fn iter(&self) -> (r: std::slice::Iter<'_, AtomicF32>)
        requires
            !self.recorded(),
        ensures
            vstd::std_specs::iter::IteratorSpec::remaining(&r).len() == self.cells().len(),
    {
        self.cells.iter()
    }

    /// The same knobs for the audio side.
    pub fn lines(&self) -> (r: Lines)
        ensures
            r.cells() == self.cells(),
    {
        Lines { cells: self.cells.clone() }
    }
}

impl vstd::std_specs::core::IndexSpecImpl<usize> for Knobs {
    /// A cell is given out only where no record is relied on.
    open spec fn index_req(&self, index: &usize) -> bool {
        *index < self.cells().len() && !self.recorded()
    }
}

impl std::ops::Index<usize> for Knobs {
    type Output = AtomicF32;

    /// A cell, for whoever needs no record.
    fn index(&self, index: usize) -> (r: &AtomicF32)
        ensures
            *r == self.cells()[index as int],
    {
        &self.cells[index]
    }
}

impl Lines {
    /// The cells that are shared.
    pub closed spec fn cells(&self) -> Seq<AtomicF32> {
        self.cells@
    }

    /// Lets a processor turn a mix into an output, with the knobs as it finds them.
    pub fn drive(
        &self,
        proc: &mut Box<dyn Processor>,
        input: &Buf,
        output: &mut Buf,
        n: usize,
    )
        ensures
            old(proc).may_turn(
                self.cells(),
                block::block_of(*input),
                block::block_of(*old(output)),
                n as int,
                block::block_of(*final(output)),
                final(proc).memory(),
            ),
    {
        proc.process(&self.cells, input, output, n);
    }
}

/// The meter of a node, as the audio side holds it.
pub struct Needle {
    cell: Arc<AtomicF32>,
    shown: Ghost<Seq<u32>>,
}

impl Needle {
    /// The cell that is shared.
    pub closed spec fn cell(&self) -> AtomicF32 {
        *self.cell
    }

    /// What the meter was raised to through this handle, one after the other.
    pub closed spec fn shown(&self) -> Seq<u32> {
        self.shown@
    }

    /// A handle for a meter, through which nothing has been shown yet.
    pub fn new(meter: &Arc<AtomicF32>) -> (r: Self)
        ensures
            r.cell() == **meter,
            r.shown() == Seq::<u32>::empty(),
    {
        Needle { cell: meter.clone(), shown: Ghost(Seq::empty()) }
    }

    /// Raises the meter.
    pub fn raise(&mut self, v: u32)
        ensures
            nodes::raised_by(final(self).cell().cell(), v),
            final(self).cell() == old(self).cell(),
            final(self).shown() == old(self).shown().push(v),
    {
        self.cell.max(v);
        self.shown = Ghost(self.shown@.push(v));
    }
}

/// Something that the output callback has shown or counted.
pub enum Note {
    /// The meters of the output were raised to the peaks of a block.
    Output { left: u32, right: u32 },
    /// A callback was counted that did not get what it needed.
    Lack,
}

/// The meters and stats of the engine, as the output callback holds them.
pub struct Panel {
    stats: Arc<EngineStats>,
    notes: Ghost<Seq<Note>>,
}

impl Panel {
    /// The meters and stats that are shared.
    pub closed spec fn stats(&self) -> EngineStats {
        *self.stats
    }

    /// What was shown and counted through this handle, one after the other.
    pub closed spec fn notes(&self) -> Seq<Note> {
        self.notes@
    }

    /// A handle through which nothing has been shown or counted yet.
    pub fn new(stats: Arc<EngineStats>) -> (r: Self)
        ensures
            r.stats() == *stats,
            r.notes() == Seq::<Note>::empty(),
    {
        Panel { stats, notes: Ghost(Seq::empty()) }
    }

    /// Raises the meters of the output.
    pub fn show_output(&mut self, left: u32, right: u32)
        ensures
            nodes::raised_by(old(self).stats().out_peak[0].cell(), left),
            nodes::raised_by(old(self).stats().out_peak[1].cell(), right),
            final(self).stats() == old(self).stats(),
            final(self).notes() == old(self).notes().push(Note::Output { left, right }),
    {
        self.stats.show_output(left, right);
        self.notes = Ghost(self.notes@.push(Note::Output { left, right }));
    }

    /// Counts a callback that did not get what it needed.
    pub fn count_lack(&mut self)
        ensures
            nodes::counted_up(old(self).stats().xruns),
            final(self).stats() == old(self).stats(),
            final(self).notes() == old(self).notes().push(Note::Lack),
    {
        self.stats.count_xrun();
        self.notes = Ghost(self.notes@.push(Note::Lack));
    }
}

} // verus!
