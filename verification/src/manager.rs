//! The row manager: owns a growable collection of indicators, tracks which
//! row slots are bound or free, and on every notification decides whether to
//! compact the visible rows, hide a newly completed indicator, or promote a
//! waiting one into a freed slot.
//!
//! Every state change of the manager is pinned to a functional model:
//! [`push_model`], [`notify_model`] and [`remove_model`] say exactly what the
//! corresponding operation does to the abstract state [`ManagerV`].

use crate::indicator::{Indicator, IndicatorV};
use crate::slots::{set_min, SlotSet};
use vstd::prelude::*;
use vstd::set_lib::lemma_int_range;
use vstd::set_lib::lemma_len_subset;
use vstd::set_lib::set_int_range;

verus! {

/// The mathematical model of a [`RowManager`]: the two slot sets, the
/// insertion-ordered entries (each an indicator together with its
/// initial-disable snapshot taken at push time), and the fixed row capacity.
#[verifier::ext_equal]
pub ghost struct ManagerV {
    /// Slot indices bound to a visible indicator.
    pub acquired: Set<int>,
    /// Slot indices freed by a completed or removed indicator.
    pub available: Set<int>,
    /// The tracked indicators in insertion order, with the disable snapshot.
    pub entries: Seq<(IndicatorV, bool)>,
    /// Number of simultaneously visible row slots.
    pub nrows: u16,
}

/// Well-formedness of the abstract state: both slot sets are finite and hold
/// only valid slot indices, below the row capacity.
pub open spec fn wf(m: ManagerV) -> bool {
    &&& m.acquired.finite()
    &&& m.available.finite()
    &&& m.acquired.disjoint(m.available)
    &&& forall|x: int| m.acquired.contains(x) ==> 0 <= x < m.nrows
    &&& forall|x: int| m.available.contains(x) ==> 0 <= x < m.nrows
}

/// A well-formed manager never binds more slots than it has rows.
pub proof fn lemma_acquired_bounded(m: ManagerV)
    requires
        wf(m),
    ensures
        m.acquired.len() <= m.nrows,
{
    lemma_int_range(0, m.nrows as int);
    assert(m.acquired.subset_of(set_int_range(0, m.nrows as int)));
    lemma_len_subset(m.acquired, set_int_range(0, m.nrows as int));
}

/// The state of a freshly constructed manager: no entries, no slots bound,
/// no slots freed.
pub open spec fn fresh_model(nrows: u16) -> ManagerV {
    ManagerV {
        acquired: Set::<int>::empty(),
        available: Set::<int>::empty(),
        entries: Seq::<(IndicatorV, bool)>::empty(),
        nrows,
    }
}

/// How many of the first `j` entries are finished.
pub open spec fn done_before(entries: Seq<(IndicatorV, bool)>, j: int) -> nat
    decreases j,
{
    if j <= 0 {
        0
    } else {
        done_before(entries, j - 1) + (if entries[j - 1].0.done {
            1nat
        } else {
            0nat
        })
    }
}

/// How many entries still want a row: the total minus the finished ones.
pub open spec fn remaining_count(entries: Seq<(IndicatorV, bool)>) -> int {
    entries.len() - done_before(entries, entries.len() as int)
}

/// Whether an entry takes part in compaction and promotion: it was not
/// disabled when pushed and has not finished.
pub open spec fn wants_row(e: (IndicatorV, bool)) -> bool {
    !e.1 && !e.0.done
}

/// How many of the first `j` entries want a row.
pub open spec fn wants_before(entries: Seq<(IndicatorV, bool)>, j: int) -> nat
    decreases j,
{
    if j <= 0 {
        0
    } else {
        wants_before(entries, j - 1) + (if wants_row(entries[j - 1]) {
            1nat
        } else {
            0nat
        })
    }
}

/// In any prefix, the entries that want a row and the finished entries
/// together never exceed the prefix length.
pub proof fn lemma_wants_done_le(entries: Seq<(IndicatorV, bool)>, j: int)
    ensures
        wants_before(entries, j) + done_before(entries, j) <= (if j <= 0 {
            0int
        } else {
            j
        }),
    decreases j,
{
    if j > 0 {
        lemma_wants_done_le(entries, j - 1);
    }
}

pub proof fn lemma_wants_before_mono(entries: Seq<(IndicatorV, bool)>, j: int, k: int)
    requires
        j <= k,
    ensures
        wants_before(entries, j) <= wants_before(entries, k),
    decreases k - j,
{
    if j < k {
        lemma_wants_before_mono(entries, j, k - 1);
    }
}

/// The entries that want a row never exceed the remaining (unfinished) ones.
pub proof fn lemma_wants_le_remaining(entries: Seq<(IndicatorV, bool)>)
    ensures
        wants_before(entries, entries.len() as int) <= remaining_count(entries),
{
    lemma_wants_done_le(entries, entries.len() as int);
}

/// Whether two entry sequences agree on everything the manager never writes:
/// length, snapshots, and each indicator's completion flag, leave flag,
/// display line and sink.
pub open spec fn same_fixed_fields(
    a: Seq<(IndicatorV, bool)>,
    b: Seq<(IndicatorV, bool)>,
) -> bool {
    &&& a.len() == b.len()
    &&& forall|j: int|
        0 <= j < a.len() ==> {
            &&& (#[trigger] b[j]).1 == a[j].1
            &&& b[j].0.done == a[j].0.done
            &&& b[j].0.leave == a[j].0.leave
            &&& b[j].0.text == a[j].0.text
            &&& b[j].0.writer == a[j].0.writer
        }
}

pub proof fn lemma_same_fixed_done(a: Seq<(IndicatorV, bool)>, b: Seq<(IndicatorV, bool)>, j: int)
    requires
        same_fixed_fields(a, b),
        j <= a.len(),
    ensures
        done_before(a, j) == done_before(b, j),
        wants_before(a, j) == wants_before(b, j),
    decreases j,
{
    if j > 0 {
        lemma_same_fixed_done(a, b, j - 1);
        if 0 < j <= a.len() {
            assert(b[j - 1].1 == a[j - 1].1);
        }
    }
}

/// Replacing one entry with one that agrees on the fixed fields keeps two
/// sequences agreeing on them.
pub proof fn lemma_same_fixed_update(
    a: Seq<(IndicatorV, bool)>,
    b: Seq<(IndicatorV, bool)>,
    j: int,
    e: (IndicatorV, bool),
)
    requires
        same_fixed_fields(a, b),
        0 <= j < b.len(),
        e.1 == b[j].1,
        e.0.done == b[j].0.done,
        e.0.leave == b[j].0.leave,
        e.0.text == b[j].0.text,
        e.0.writer == b[j].0.writer,
    ensures
        same_fixed_fields(a, b.update(j, e)),
{
    let b2 = b.update(j, e);
    assert forall|p: int| 0 <= p < a.len() implies {
        &&& (#[trigger] b2[p]).1 == a[p].1
        &&& b2[p].0.done == a[p].0.done
        &&& b2[p].0.leave == a[p].0.leave
        &&& b2[p].0.text == a[p].0.text
        &&& b2[p].0.writer == a[p].0.writer
    } by {
        if p == j {
            assert(b[p].1 == a[p].1);
        } else {
            assert(b2[p] == b[p]);
        }
    }
}

pub proof fn lemma_same_fixed_trans(
    a: Seq<(IndicatorV, bool)>,
    b: Seq<(IndicatorV, bool)>,
    c: Seq<(IndicatorV, bool)>,
)
    requires
        same_fixed_fields(a, b),
        same_fixed_fields(b, c),
    ensures
        same_fixed_fields(a, c),
{
}

/// The first step of a notification: if the target entry is enabled and has
/// finished, it is hidden, and the slot it stands on moves from the acquired
/// set to the available set if it was bound there.
pub open spec fn finish_target(m: ManagerV, i: int) -> ManagerV {
    let ind = m.entries[i].0;
    let snap = m.entries[i].1;
    if !ind.disable && ind.done {
        let entries2 = m.entries.update(i, (IndicatorV { disable: true, ..ind }, snap));
        if m.acquired.contains(ind.position as int) {
            ManagerV {
                acquired: m.acquired.remove(ind.position as int),
                available: m.available.insert(ind.position as int),
                entries: entries2,
                nrows: m.nrows,
            }
        } else {
            ManagerV { entries: entries2, ..m }
        }
    } else {
        m
    }
}

/// The slack-case walk from entry `j` onward: every entry that wants a row
/// is given the next compacted slot number, counting from `count`; an entry
/// whose slot already matches is left untouched, any other is re-enabled and
/// moved.
pub open spec fn compact_from(entries: Seq<(IndicatorV, bool)>, j: int, count: u16) -> Seq<
    (IndicatorV, bool),
>
    decreases entries.len() - j,
{
    if j < 0 || j >= entries.len() {
        entries
    } else {
        let ind = entries[j].0;
        let snap = entries[j].1;
        if wants_row(entries[j]) {
            if ind.position != count {
                compact_from(
                    entries.update(j, (IndicatorV { position: count, disable: false, ..ind }, snap)),
                    j + 1,
                    (count + 1) as u16,
                )
            } else {
                compact_from(entries, j + 1, (count + 1) as u16)
            }
        } else {
            compact_from(entries, j + 1, count)
        }
    }
}

/// One promotion: entry `j` is moved onto the smallest free slot, revealed
/// if that slot lies within capacity, and the slot moves from the available
/// set to the acquired set.
pub open spec fn promote_one(m: ManagerV, j: int) -> ManagerV {
    let ind = m.entries[j].0;
    let snap = m.entries[j].1;
    let pos = set_min(m.available);
    let ind2 = IndicatorV {
        position: pos as u16,
        disable: if pos < m.nrows {
            false
        } else {
            ind.disable
        },
        ..ind
    };
    ManagerV {
        acquired: m.acquired.insert(pos),
        available: m.available.remove(pos),
        entries: m.entries.update(j, (ind2, snap)),
        nrows: m.nrows,
    }
}

/// The saturated-case walk from entry `j` onward: for each entry that wants
/// a row, while any slot is free, a hidden entry whose slot differs from the
/// smallest free slot is moved onto that slot, revealed if the slot lies
/// within capacity, and the slot moves from the available set to the
/// acquired set.
pub open spec fn promote_from(m: ManagerV, j: int) -> ManagerV
    decreases m.entries.len() - j,
{
    if j < 0 || j >= m.entries.len() {
        m
    } else {
        let ind = m.entries[j].0;
        if wants_row(m.entries[j]) && m.available != Set::<int>::empty() {
            let pos = set_min(m.available);
            if ind.disable && ind.position as int != pos {
                promote_from(promote_one(m, j), j + 1)
            } else {
                promote_from(m, j + 1)
            }
        } else {
            promote_from(m, j + 1)
        }
    }
}

/// What a notification does to the abstract state.  First the target entry
/// is settled by `finish_target`; then, with room for every remaining
/// indicator (the slack case), the visible rows are compacted and the slot
/// sets are rebound to the compacted rows, so the bound slots are exactly
/// the contiguous rows from the top and every other tracked slot is free;
/// else (the saturated case) the waiting entries are promoted onto freed
/// slots, smallest slot first.
pub open spec fn notify_model(m: ManagerV, i: int) -> ManagerV {
    let remaining = remaining_count(m.entries);
    let m1 = finish_target(m, i);
    if m1.nrows > remaining {
        let cnt = wants_before(m1.entries, m1.entries.len() as int) as int;
        ManagerV {
            acquired: set_int_range(0, cnt),
            available: m1.acquired.union(m1.available).difference(set_int_range(0, cnt)),
            entries: compact_from(m1.entries, 0, 0),
            nrows: m1.nrows,
        }
    } else {
        promote_from(m1, 0)
    }
}

/// The notifications that write nothing to the terminal: the target needs
/// no settling, there is room for every remaining indicator, and the
/// compacted numbering is already in place.  Such a notification is owed
/// success: no stream is asked to do anything.
pub open spec fn notify_is_quiet(m: ManagerV, i: int) -> bool {
    &&& !(!m.entries[i].0.disable && m.entries[i].0.done)
    &&& m.nrows as int > remaining_count(m.entries)
    &&& compact_from(m.entries, 0, 0) == m.entries
}

/// What a push does to the abstract state: the indicator is put on the slot
/// numbered by the count of bound slots; within capacity that slot is bound
/// (and unmarked free, had it been freed before) and the indicator drawn;
/// beyond capacity the indicator is queued hidden and no slot is taken.
pub open spec fn push_model(m: ManagerV, ind: IndicatorV) -> ManagerV {
    let p = m.acquired.len() as u16;
    if p < m.nrows {
        ManagerV {
            acquired: m.acquired.insert(p as int),
            available: m.available.remove(p as int),
            entries: m.entries.push((IndicatorV { position: p, ..ind }, ind.disable)),
            nrows: m.nrows,
        }
    } else {
        ManagerV {
            entries: m.entries.push(
                (IndicatorV { position: p, disable: true, ..ind }, ind.disable),
            ),
            ..m
        }
    }
}

/// What a removal does to the abstract state: the entry leaves the sequence,
/// and its slot moves from the acquired set to the available set if it was
/// bound there.
pub open spec fn remove_model(m: ManagerV, i: int) -> ManagerV {
    let pos = m.entries[i].0.position as int;
    let entries2 = m.entries.remove(i);
    if m.acquired.contains(pos) {
        ManagerV {
            acquired: m.acquired.remove(pos),
            available: m.available.insert(pos),
            entries: entries2,
            nrows: m.nrows,
        }
    } else {
        ManagerV { entries: entries2, ..m }
    }
}

/// Stores and updates many progress indicators inside a viewport of `nrows`
/// terminal rows.  All indicators beyond the capacity are hidden, and become
/// visible once an active indicator completes.
pub struct RowManager {
    acquired_pos: SlotSet,
    available_pos: SlotSet,
    bars: Vec<(Indicator, bool)>,
    nrows: u16,
}

impl View for RowManager {
    type V = ManagerV;

    closed spec fn view(&self) -> ManagerV {
        ManagerV {
            acquired: self.acquired_pos@,
            available: self.available_pos@,
            entries: Seq::new(self.bars@.len(), |i: int| (self.bars@[i].0@, self.bars@[i].1)),
            nrows: self.nrows,
        }
    }
}

impl RowManager {
    /// Representation invariant: the slot vectors are duplicate-free and the
    /// abstract state is well formed.
    pub closed spec fn inv(&self) -> bool {
        &&& self.acquired_pos.inv()
        &&& self.available_pos.inv()
        &&& wf(self@)
    }

    /// A new manager with the given number of rows: no entries, no slot
    /// bound, no slot freed.
    pub fn new(nrows: u16) -> (r: RowManager)
        ensures
            r.inv(),
            r@ == fresh_model(nrows),
    {
        let r = RowManager {
            acquired_pos: SlotSet::new(),
            available_pos: SlotSet::new(),
            bars: Vec::new(),
            nrows,
        };
        proof {
            assert(r@ =~= fresh_model(nrows));
        }
        r
    }

    /// The row capacity derived from a detected terminal height: two rows
    /// are reserved below the viewport; when no height can be detected, or
    /// the terminal is too small to reserve them, a default of three rows is
    /// used instead.
    pub fn capacity_for_height(height: Option<u16>) -> (r: u16)
        ensures
            height is None ==> r == 3,
            height matches Some(h) ==> (if h >= 2 {
                r == h - 2
            } else {
                r == 3
            }),
    {
        match height {
            Some(h) => if h >= 2 {
                h - 2
            } else {
                3
            },
            None => 3,
        }
    }

    /// A new manager sized from the terminal window: the detected height
    /// less a two-row reserve, falling back to three rows when the size
    /// cannot be detected.
    pub fn from_window_size() -> (r: RowManager)
        ensures
            r.inv(),
            r@.entries == Seq::<(IndicatorV, bool)>::empty(),
            r@.acquired == Set::<int>::empty(),
            r@.available == Set::<int>::empty(),
    {
        RowManager::new(RowManager::capacity_for_height(detected_terminal_height()))
    }

    /// Pushes an indicator, returning the stable handle to hand to
    /// [`notify`](RowManager::notify) and [`remove`](RowManager::remove).
    ///
    /// The indicator is put on the slot numbered by the count of bound
    /// slots.  Within capacity it is drawn at once and the slot is bound;
    /// an error of that first draw is returned with the manager unchanged.
    /// Beyond capacity the indicator is queued hidden, no slot is taken,
    /// and the push cannot fail.
    pub fn push(&mut self, pb: Indicator) -> (r: Result<usize, std::io::Error>)
        requires
            old(self).inv(),
        ensures
            final(self).inv(),
            wf(final(self)@),
            r matches Ok(idx) ==> idx == old(self)@.entries.len() && final(self)@ == push_model(
                old(self)@,
                pb@,
            ),
            r is Err ==> final(self)@ == old(self)@,
            old(self)@.acquired.len() >= old(self)@.nrows ==> r is Ok,
    {
        let mut pb = pb;
        let ghost orig = pb@;
        proof {
            lemma_acquired_bounded(old(self)@);
        }
        let bound = self.acquired_pos.len();
        pb.position = bound as u16;
        let disable = pb.disable;
        if self.nrows > pb.position {
            match pb.refresh() {
                Ok(()) => {},
                Err(e) => {
                    proof {
                        assert(self@ =~= old(self)@);
                    }
                    return Err(e);
                },
            }
            self.available_pos.remove(pb.position);
            self.acquired_pos.insert(pb.position);
            let ghost pbv = pb@;
            self.bars.push((pb, disable));
            proof {
                assert(self@.entries =~= old(self)@.entries.push((pbv, disable)));
                assert(self@ =~~= push_model(old(self)@, orig));
            }
        } else {
            pb.disable = true;
            let ghost pbv = pb@;
            self.bars.push((pb, disable));
            proof {
                assert(self@.entries =~= old(self)@.entries.push((pbv, disable)));
                assert(self@ =~~= push_model(old(self)@, orig));
            }
        }
        let idx = self.bars.len() - 1;
        Ok(idx)
    }

    /// A mutable reference to the indicator at `index`, through which the
    /// caller advances its progress; the bookkeeping is untouched.
    pub fn get_mut(&mut self, index: usize) -> (r: Option<&mut Indicator>)
        requires
            old(self).inv(),
        ensures
            (index < old(self)@.entries.len()) == (r is Some),
            r is None ==> final(self)@ == old(self)@ && final(self).inv(),
            r is Some ==> (*r.unwrap())@ == old(self)@.entries[index as int].0 && final(self).inv()
                && final(self)@.entries == old(self)@.entries.update(
                index as int,
                ((*final(r.unwrap()))@, old(self)@.entries[index as int].1),
            ) && final(self)@.acquired == old(self)@.acquired && final(self)@.available == old(
                self,
            )@.available && final(self)@.nrows == old(self)@.nrows,
    {
        if index < self.bars.len() {
            let r = &mut self.bars[index].0;
            Some(r)
        } else {
            proof {
                assert(self@ =~= old(self)@);
            }
            None
        }
    }

    /// One promotion in the saturated case: moves the hidden entry at `j`
    /// onto the smallest free slot `pos`, reveals it if the slot lies within
    /// capacity, redraws it, and binds the slot.  On a failed redraw the slot
    /// sets are left untouched.
    #[verifier::rlimit(100)]
    fn promote_entry(&mut self, j: usize, pos: u16) -> (r: Result<(), std::io::Error>)
        requires
            old(self).inv(),
            j < old(self)@.entries.len(),
            old(self)@.available.contains(pos as int),
            pos as int == set_min(old(self)@.available),
        ensures
            final(self).inv(),
            final(self)@.nrows == old(self)@.nrows,
            same_fixed_fields(old(self)@.entries, final(self)@.entries),
            r is Ok ==> final(self)@ == promote_one(old(self)@, j as int),
    {
        let ghost pre = self@;
        proof {
            assert(pos < pre.nrows);
        }
        self.bars[j].0.position = pos;
        if self.nrows > pos {
            self.bars[j].0.disable = false;
        }
        let ghost nd: bool = if pos < pre.nrows {
            false
        } else {
            pre.entries[j as int].0.disable
        };
        let ghost e3 = (
            (IndicatorV { position: pos, disable: nd, ..pre.entries[j as int].0 }),
            pre.entries[j as int].1,
        );
        proof {
            assert(self@.entries =~= pre.entries.update(j as int, e3));
            lemma_same_fixed_update(pre.entries, pre.entries, j as int, e3);
        }
        match self.bars[j].0.refresh() {
            Ok(()) => {},
            Err(e) => {
                return Err(e);
            },
        }
        let removed = self.available_pos.remove(pos);
        proof {
            assert(removed);
        }
        if removed {
            self.acquired_pos.insert(pos);
        }
        proof {
            assert(self@ =~~= promote_one(pre, j as int));
        }
        Ok(())
    }

    /// Settles the indicator at `index` after the caller advanced its
    /// progress.  If the target is enabled and has completed, its final line
    /// goes to the scroll-back when its leave flag is set, its row is
    /// cleared, it is hidden, and its slot is freed.  Then, with room for
    /// every remaining indicator, the visible rows are compacted to stay
    /// contiguous from the top and the slot sets are rebound to the
    /// compacted rows; otherwise a status line is printed below the highest
    /// bound slot and waiting indicators are promoted onto freed slots,
    /// smallest slot first.
    ///
    /// On an I/O error the bookkeeping already applied stays in place: the
    /// error is returned at once and nothing is rolled back.
    #[verifier::rlimit(100)]
    pub fn notify(&mut self, index: usize) -> (r: Result<(), std::io::Error>)
        requires
            old(self).inv(),
            index < old(self)@.entries.len(),
        ensures
            final(self).inv(),
            wf(final(self)@),
            final(self)@.nrows == old(self)@.nrows,
            same_fixed_fields(old(self)@.entries, final(self)@.entries),
            r is Ok ==> final(self)@ == notify_model(old(self)@, index as int),
            notify_is_quiet(old(self)@, index as int) ==> r is Ok && final(self)@.entries == old(
                self,
            )@.entries,
    {
        let ghost m0 = self@;
        let total = self.bars.len();
        let mut completed_count: usize = 0;
        for j in 0..total
            invariant
                self == old(self),
                m0 == old(self)@,
                old(self).inv(),
                index < total,
                total == self@.entries.len(),
                completed_count == done_before(m0.entries, j as int),
                completed_count <= j,
        {
            proof {
                assert(self@.entries[j as int] == m0.entries[j as int]);
                assert(done_before(m0.entries, j as int + 1) == done_before(m0.entries, j as int)
                    + (if m0.entries[j as int].0.done {
                    1nat
                } else {
                    0nat
                }));
            }
            if self.bars[j].0.completed() {
                completed_count += 1;
            }
        }
        let remaining_bars = total - completed_count;
        proof {
            assert(remaining_bars == remaining_count(m0.entries));
        }

        let snap = self.bars[index].1;
        let target_disable = self.bars[index].0.disable;
        let target_done = self.bars[index].0.completed();
        if !target_disable && target_done {
            if self.bars[index].0.leave {
                let text = self.bars[index].0.render();
                let line = leave_line_bytes(&text);
                let w = self.bars[index].0.writer;
                match w.print(line.as_slice()) {
                    Ok(()) => {},
                    Err(e) => {
                        return Err(e);
                    },
                }
            }
            match self.bars[index].0.clear() {
                Ok(()) => {},
                Err(e) => {
                    return Err(e);
                },
            }
            let pos = self.bars[index].0.position;
            self.bars[index].0.disable = true;
            proof {
                assert(self@.entries =~= m0.entries.update(
                    index as int,
                    (IndicatorV { disable: true, ..m0.entries[index as int].0 }, snap),
                ));
            }
            if self.acquired_pos.remove(pos) {
                self.available_pos.insert(pos);
            }
            proof {
                assert forall|x: int| self@.acquired.contains(x) implies !self@.available.contains(
                    x,
                ) by {
                    assert(m0.acquired.contains(x) ==> !m0.available.contains(x));
                }
                assert(self@ =~~= finish_target(m0, index as int));
            }
        } else {
            proof {
                assert(self@ =~~= finish_target(m0, index as int));
            }
        }
        let ghost m1 = self@;
        proof {
            assert(same_fixed_fields(m0.entries, m1.entries));
            lemma_same_fixed_done(m0.entries, m1.entries, total as int);
            assert(remaining_count(m1.entries) == remaining_count(m0.entries));
        }

        if (self.nrows as usize) > remaining_bars {
            // the slack case: room for every remaining indicator
            let mut count: u16 = 0;
            for j in 0..total
                invariant
                    self.inv(),
                    m0 == old(self)@,
                    index < total,
                    m1 == finish_target(m0, index as int),
                    m0.nrows as int > remaining_count(m0.entries),
                    total == self@.entries.len(),
                    total == m1.entries.len(),
                    total == m0.entries.len(),
                    self@.acquired == m1.acquired,
                    self@.available == m1.available,
                    self@.nrows == m1.nrows,
                    self@.nrows == m0.nrows,
                    m1.nrows as int > remaining_count(m1.entries),
                    same_fixed_fields(m1.entries, self@.entries),
                    same_fixed_fields(m0.entries, self@.entries),
                    count as nat == wants_before(m1.entries, j as int),
                    compact_from(m1.entries, 0, 0) == compact_from(
                        self@.entries,
                        j as int,
                        count,
                    ),
                    notify_is_quiet(m0, index as int) ==> m1 == m0 && self@.entries
                        == m1.entries,
            {
                let ghost pre = self@;
                let snapj = self.bars[j].1;
                let donej = self.bars[j].0.completed();
                if !snapj && !donej {
                    proof {
                        lemma_wants_before_mono(m1.entries, j as int + 1, total as int);
                        lemma_wants_le_remaining(m1.entries);
                        assert(wants_before(m1.entries, j as int + 1) == count as nat + 1);
                        assert(count as int + 1 < m1.nrows);
                    }
                    if self.bars[j].0.position != count {
                        proof {
                            if notify_is_quiet(m0, index as int) {
                                let e1 = (
                                    IndicatorV {
                                        position: count,
                                        disable: false,
                                        ..pre.entries[j as int].0
                                    },
                                    pre.entries[j as int].1,
                                );
                                let e2 = pre.entries.update(j as int, e1);
                                crate::laws::lemma_compact_basic(
                                    e2,
                                    j as int + 1,
                                    (count + 1) as u16,
                                );
                                assert(compact_from(pre.entries, j as int, count) == compact_from(
                                    e2,
                                    j as int + 1,
                                    (count + 1) as u16,
                                ));
                                assert(compact_from(e2, j as int + 1, (count + 1) as u16)[j as int]
                                    == e2[j as int]);
                                assert(m1.entries[j as int].0.position == count);
                                assert(false);
                            }
                        }
                        self.bars[j].0.disable = false;
                        proof {
                            let e1 = (
                                IndicatorV { disable: false, ..pre.entries[j as int].0 },
                                pre.entries[j as int].1,
                            );
                            assert(self@.entries =~= pre.entries.update(j as int, e1));
                            lemma_same_fixed_update(m0.entries, pre.entries, j as int, e1);
                            lemma_same_fixed_update(m1.entries, pre.entries, j as int, e1);
                        }
                        match self.bars[j].0.clear() {
                            Ok(()) => {},
                            Err(e) => {
                                return Err(e);
                            },
                        }
                        self.bars[j].0.position = count;
                        proof {
                            let e2 = (
                                IndicatorV {
                                    position: count,
                                    disable: false,
                                    ..pre.entries[j as int].0
                                },
                                pre.entries[j as int].1,
                            );
                            assert(self@.entries =~= pre.entries.update(j as int, e2));
                            lemma_same_fixed_update(m0.entries, pre.entries, j as int, e2);
                            lemma_same_fixed_update(m1.entries, pre.entries, j as int, e2);
                            assert(compact_from(pre.entries, j as int, count) == compact_from(
                                self@.entries,
                                j as int + 1,
                                (count + 1) as u16,
                            ));
                        }
                        match self.bars[j].0.refresh() {
                            Ok(()) => {},
                            Err(e) => {
                                return Err(e);
                            },
                        }
                    } else {
                        proof {
                            assert(compact_from(pre.entries, j as int, count) == compact_from(
                                self@.entries,
                                j as int + 1,
                                (count + 1) as u16,
                            ));
                        }
                    }
                    count += 1;
                } else {
                    proof {
                        assert(compact_from(pre.entries, j as int, count) == compact_from(
                            self@.entries,
                            j as int + 1,
                            count,
                        ));
                    }
                }
            }
            proof {
                assert(compact_from(self@.entries, total as int, count) == self@.entries);
                lemma_wants_le_remaining(m1.entries);
                assert(count as int <= remaining_count(m1.entries));
                assert(count < m1.nrows);
                assert(forall|x: int| m1.acquired.contains(x) ==> 0 <= x < m1.nrows);
                assert(forall|x: int| m1.available.contains(x) ==> 0 <= x < m1.nrows);
            }
            let new_acquired = SlotSet::range(count);
            let mut new_available = SlotSet::new();
            new_available.insert_at_or_above(&self.acquired_pos, count);
            new_available.insert_at_or_above(&self.available_pos, count);
            self.acquired_pos = new_acquired;
            self.available_pos = new_available;
            proof {
                self.available_pos.lemma_finite();
                assert(self@.available =~= m1.acquired.union(m1.available).difference(
                    set_int_range(0, count as int),
                ));
                vstd::set_lib::lemma_int_range(0, count as int);
                assert(wf(self@));
                assert(self@ =~~= notify_model(m0, index as int));
            }
            Ok(())
        } else {
            // the saturated case: the viewport is full or over-subscribed
            let maxpos = self.acquired_pos.max_or_zero();
            proof {
                assert(maxpos as int + 1 <= u16::MAX as int);
            }
            let w = self.bars[index].0.writer;
            let status: &str = if (self.nrows as usize) == remaining_bars {
                "                      "
            } else {
                " ... (more hidden) ..."
            };
            match w.print_at(maxpos + 1, status.as_bytes()) {
                Ok(()) => {},
                Err(e) => {
                    return Err(e);
                },
            }
            for j in 0..total
                invariant
                    self.inv(),
                    m0 == old(self)@,
                    index < total,
                    m1 == finish_target(m0, index as int),
                    !(m0.nrows as int > remaining_count(m0.entries)),
                    total == self@.entries.len(),
                    total == m0.entries.len(),
                    self@.nrows == m1.nrows,
                    self@.nrows == m0.nrows,
                    same_fixed_fields(m0.entries, self@.entries),
                    promote_from(m1, 0) == promote_from(self@, j as int),
            {
                let ghost pre = self@;
                let snapj = self.bars[j].1;
                let donej = self.bars[j].0.completed();
                if !snapj && !donej {
                    match self.available_pos.min() {
                        None => {
                            proof {
                                assert(promote_from(pre, j as int) == promote_from(
                                    self@,
                                    j as int + 1,
                                ));
                            }
                        },
                        Some(pos) => {
                            if self.bars[j].0.disable && self.bars[j].0.position != pos {
                                match self.promote_entry(j, pos) {
                                    Ok(()) => {},
                                    Err(e) => {
                                        proof {
                                            lemma_same_fixed_trans(
                                                m0.entries,
                                                pre.entries,
                                                self@.entries,
                                            );
                                        }
                                        return Err(e);
                                    },
                                }
                                proof {
                                    lemma_same_fixed_trans(m0.entries, pre.entries, self@.entries);
                                    assert(self@ == promote_one(pre, j as int));
                                    assert(promote_from(pre, j as int) == promote_from(
                                        self@,
                                        j as int + 1,
                                    ));
                                }
                            } else {
                                proof {
                                    assert(promote_from(pre, j as int) == promote_from(
                                        self@,
                                        j as int + 1,
                                    ));
                                }
                            }
                        },
                    }
                } else {
                    proof {
                        assert(promote_from(pre, j as int) == promote_from(self@, j as int + 1));
                    }
                }
            }
            proof {
                assert(promote_from(self@, total as int) == self@);
                assert(self@ =~~= notify_model(m0, index as int));
            }
            Ok(())
        }
    }

    /// How many indicators are tracked.
    pub fn len(&self) -> (r: usize)
        ensures
            r == self@.entries.len(),
    {
        self.bars.len()
    }

    /// How many slots are currently bound to a visible indicator.
    pub fn acquired_count(&self) -> (r: usize)
        requires
            self.inv(),
        ensures
            r == self@.acquired.len(),
    {
        self.acquired_pos.len()
    }

    /// Whether `slot` is currently bound to a visible indicator.
    pub fn is_acquired(&self, slot: u16) -> (r: bool)
        ensures
            r == self@.acquired.contains(slot as int),
    {
        self.acquired_pos.contains(slot)
    }

    /// Whether `slot` stands freed, eligible for reuse.
    pub fn is_available(&self, slot: u16) -> (r: bool)
        ensures
            r == self@.available.contains(slot as int),
    {
        self.available_pos.contains(slot)
    }

    /// Removes the entry at `index` and returns its indicator; the slot it
    /// stood on moves back to the available set if it was bound.  No drawing
    /// or clearing is done: the caller owns the final cleanup.
    pub fn remove(&mut self, index: usize) -> (r: Indicator)
        requires
            old(self).inv(),
            index < old(self)@.entries.len(),
        ensures
            final(self).inv(),
            wf(final(self)@),
            final(self)@ == remove_model(old(self)@, index as int),
            r@ == old(self)@.entries[index as int].0,
    {
        let (pb, _snap) = self.bars.remove(index);
        let pos = pb.position;
        if self.acquired_pos.remove(pos) {
            self.available_pos.insert(pos);
        }
        proof {
            assert(self@.entries =~= old(self)@.entries.remove(index as int));
            assert(self@ =~= remove_model(old(self)@, index as int));
        }
        pb
    }
}

/// Relies on `terminal_size::terminal_size`: reports the terminal's current
/// height in rows, if the streams are attached to a terminal whose size can
/// be detected.
#[verifier::external_body]
fn detected_terminal_height() -> (r: Option<u16>) {
    terminal_size::terminal_size().map(|(_, h)| h.0)
}

/// The scroll-back line for a finished indicator that leaves a trace: a
/// carriage return, the rendered text, then a newline — exactly the bytes
/// `notify` prints before clearing a completed indicator whose leave flag is
/// set.
pub fn leave_line_bytes(text: &Vec<u8>) -> (r: Vec<u8>)
    ensures
        r@ == seq![13u8] + text@ + seq![10u8],
{
    let mut out: Vec<u8> = Vec::new();
    out.push(13);
    crate::writer::append_bytes(&mut out, text.as_slice());
    out.push(10);
    proof {
        assert(out@ =~= seq![13u8] + text@ + seq![10u8]);
    }
    out
}

} // verus!
