//! The general laws of the row manager, proved against the functional models
//! that the manager's contracts are stated over.

use crate::indicator::IndicatorV;
use crate::manager::{
    compact_from, finish_target, fresh_model, lemma_acquired_bounded, lemma_same_fixed_done,
    lemma_same_fixed_trans, lemma_same_fixed_update, lemma_wants_le_remaining, notify_model,
    push_model, remaining_count, remove_model, same_fixed_fields, wants_before, wants_row, wf,
    ManagerV,
};
use vstd::prelude::*;
use vstd::set_lib::lemma_int_range;
use vstd::set_lib::set_int_range;

verus! {

/// The state after pushing each indicator of `inds`, in order.
pub open spec fn push_seq(m: ManagerV, inds: Seq<IndicatorV>) -> ManagerV
    decreases inds.len(),
{
    if inds.len() == 0 {
        m
    } else {
        push_seq(push_model(m, inds[0]), inds.drop_first())
    }
}

/// Helper induction for the filling law: pushing onto a manager whose rows
/// are filled contiguously from the top keeps them so, as long as capacity
/// is not exceeded.
proof fn lemma_push_seq_fills(m: ManagerV, inds: Seq<IndicatorV>)
    requires
        wf(m),
        m.available == Set::<int>::empty(),
        m.acquired == set_int_range(0, m.entries.len() as int),
        m.entries.len() + inds.len() <= m.nrows,
        forall|p: int| 0 <= p < m.entries.len() ==> (#[trigger] m.entries[p]).0.position == p,
    ensures
        wf(push_seq(m, inds)),
        push_seq(m, inds).nrows == m.nrows,
        push_seq(m, inds).available == Set::<int>::empty(),
        push_seq(m, inds).entries.len() == m.entries.len() + inds.len(),
        push_seq(m, inds).acquired == set_int_range(0, (m.entries.len() + inds.len()) as int),
        forall|p: int|
            0 <= p < m.entries.len() + inds.len() ==> (#[trigger] push_seq(
                m,
                inds,
            ).entries[p]).0.position == p,
    decreases inds.len(),
{
    lemma_int_range(0, m.entries.len() as int);
    if inds.len() == 0 {
    } else {
        let m2 = push_model(m, inds[0]);
        let n = m.entries.len() as int;
        assert(m.acquired.len() == n);
        assert(m2.acquired =~= set_int_range(0, n + 1));
        assert(m2.available =~= Set::<int>::empty());
        assert(m2.entries[n].0.position == n);
        lemma_push_seq_fills(m2, inds.drop_first());
        assert(push_seq(m, inds) == push_seq(m2, inds.drop_first()));
    }
}

/// After the first `k` pushes into a fresh manager with `k` rows, every row
/// is bound, and the indicators stand on the distinct rows `0..k-1`, in
/// insertion order.
pub proof fn lemma_pushes_fill_all_rows(inds: Seq<IndicatorV>, k: u16)
    requires
        inds.len() == k as nat,
    ensures
        push_seq(fresh_model(k), inds).acquired == set_int_range(0, k as int),
        push_seq(fresh_model(k), inds).acquired.len() == k as nat,
        push_seq(fresh_model(k), inds).entries.len() == k as nat,
        forall|p: int|
            0 <= p < k ==> (#[trigger] push_seq(fresh_model(k), inds).entries[p]).0.position == p,
{
    assert(fresh_model(k).acquired =~= set_int_range(0, 0));
    lemma_push_seq_fills(fresh_model(k), inds);
    lemma_int_range(0, k as int);
}

/// Pushing beyond capacity: when every row is already bound, the pushed
/// indicator is queued disabled and neither slot set changes.
pub proof fn lemma_push_beyond_capacity(m: ManagerV, ind: IndicatorV)
    requires
        wf(m),
        m.acquired.len() >= m.nrows,
    ensures
        push_model(m, ind).acquired == m.acquired,
        push_model(m, ind).available == m.available,
        push_model(m, ind).entries.last().0.disable,
{
    lemma_acquired_bounded(m);
}

/// Completing an enabled indicator and notifying frees its row: the
/// completion step moves the slot from the acquired set to the available
/// set, and the indicator stays hidden.  In the slack case the rows are then
/// compacted, so at the end of the call the slot stands bound again exactly
/// where compaction re-used it for one of the remaining rows, and free
/// otherwise; it is never in both sets.
pub proof fn lemma_notify_frees_slot(m: ManagerV, i: int)
    requires
        wf(m),
        0 <= i < m.entries.len(),
        !m.entries[i].0.disable,
        m.entries[i].0.done,
        m.acquired.contains(m.entries[i].0.position as int),
        m.nrows as int > remaining_count(m.entries),
    ensures
        !finish_target(m, i).acquired.contains(m.entries[i].0.position as int),
        finish_target(m, i).available.contains(m.entries[i].0.position as int),
        notify_model(m, i).entries[i].0.disable,
        notify_model(m, i).acquired.contains(m.entries[i].0.position as int)
            <==> (m.entries[i].0.position as int) < wants_before(
            m.entries,
            m.entries.len() as int,
        ),
        notify_model(m, i).available.contains(m.entries[i].0.position as int)
            <==> (m.entries[i].0.position as int) >= wants_before(
            m.entries,
            m.entries.len() as int,
        ),
{
    let pos = m.entries[i].0.position as int;
    let m1 = finish_target(m, i);
    lemma_compact_basic(m1.entries, 0, 0);
    assert(!wants_row(m1.entries[i]));
    assert(notify_model(m, i).entries[i] == m1.entries[i]);
    assert(same_fixed_fields(m.entries, m1.entries)) by {
        let e = (IndicatorV { disable: true, ..m.entries[i].0 }, m.entries[i].1);
        lemma_same_fixed_update(m.entries, m.entries, i, e);
    }
    lemma_same_fixed_done(m.entries, m1.entries, m.entries.len() as int);
    let cnt = wants_before(m1.entries, m1.entries.len() as int) as int;
    assert(cnt == wants_before(m.entries, m.entries.len() as int));
    lemma_int_range(0, cnt);
    assert(m1.available.contains(pos));
    assert(notify_model(m, i).acquired == set_int_range(0, cnt));
    assert(notify_model(m, i).available.contains(pos) <==> pos >= cnt);
}

/// Removing a slot-holding entry frees its slot: afterwards the available
/// set holds it and the acquired set does not.
pub proof fn lemma_remove_frees_slot(m: ManagerV, i: int)
    requires
        0 <= i < m.entries.len(),
        m.acquired.contains(m.entries[i].0.position as int),
    ensures
        remove_model(m, i).available.contains(m.entries[i].0.position as int),
        !remove_model(m, i).acquired.contains(m.entries[i].0.position as int),
{
}

/// Basic shape of the slack-case compaction: the length is kept, the fields
/// the manager never writes are kept, and every entry that does not take
/// part (before `j`, or not wanting a row) is left exactly as it stands.
pub proof fn lemma_compact_basic(entries: Seq<(IndicatorV, bool)>, j: int, count: u16)
    ensures
        compact_from(entries, j, count).len() == entries.len(),
        same_fixed_fields(entries, compact_from(entries, j, count)),
        forall|p: int| 0 <= p < j && p < entries.len() ==> #[trigger] compact_from(
            entries,
            j,
            count,
        )[p] == entries[p],
        forall|p: int|
            j <= p < entries.len() && !wants_row(entries[p]) ==> #[trigger] compact_from(
                entries,
                j,
                count,
            )[p] == entries[p],
    decreases entries.len() - j,
{
    if j < 0 || j >= entries.len() {
    } else {
        let c = compact_from(entries, j, count);
        if wants_row(entries[j]) && entries[j].0.position != count {
            let e1 = (
                (IndicatorV { position: count, disable: false, ..entries[j].0 }),
                entries[j].1,
            );
            let e2 = entries.update(j, e1);
            lemma_same_fixed_update(entries, entries, j, e1);
            lemma_compact_basic(e2, j + 1, (count + 1) as u16);
            lemma_same_fixed_trans(entries, e2, compact_from(e2, j + 1, (count + 1) as u16));
            assert forall|p: int|
                j <= p < entries.len() && !wants_row(entries[p]) implies #[trigger] c[p]
                == entries[p] by {
                assert(e2[p] == entries[p]);
                assert(!wants_row(e2[p]));
            }
        } else if wants_row(entries[j]) {
            lemma_compact_basic(entries, j + 1, (count + 1) as u16);
        } else {
            lemma_compact_basic(entries, j + 1, count);
        }
    }
}

/// The slots that compaction assigns: every participating entry from `j`
/// onward ends on the slot numbered by `count` plus the participating
/// entries between `j` and it.
pub proof fn lemma_compact_positions(entries: Seq<(IndicatorV, bool)>, j: int, count: u16)
    requires
        0 <= j <= entries.len(),
        count + wants_before(entries, entries.len() as int) - wants_before(entries, j)
            <= u16::MAX,
    ensures
        forall|p: int|
            j <= p < entries.len() && wants_row(entries[p]) ==> (#[trigger] compact_from(
                entries,
                j,
                count,
            )[p]).0.position as int == count + wants_before(entries, p) - wants_before(entries, j),
    decreases entries.len() - j,
{
    if j == entries.len() {
    } else {
        crate::manager::lemma_wants_before_mono(entries, j + 1, entries.len() as int);
        let c = compact_from(entries, j, count);
        if wants_row(entries[j]) {
            assert(wants_before(entries, j + 1) == wants_before(entries, j) + 1);
            if entries[j].0.position != count {
                let e1 = (
                    (IndicatorV { position: count, disable: false, ..entries[j].0 }),
                    entries[j].1,
                );
                let e2 = entries.update(j, e1);
                lemma_same_fixed_update(entries, entries, j, e1);
                lemma_same_fixed_done(entries, e2, entries.len() as int);
                lemma_same_fixed_done(entries, e2, j + 1);
                lemma_compact_positions(e2, j + 1, (count + 1) as u16);
                lemma_compact_basic(e2, j + 1, (count + 1) as u16);
                assert(c[j] == e2[j]);
                assert forall|p: int|
                    j <= p < entries.len() && wants_row(entries[p]) implies (#[trigger] c[p]).0.position as int
                    == count + wants_before(entries, p) - wants_before(entries, j) by {
                    if p == j {
                        assert(c[j].0.position == count);
                    } else {
                        lemma_same_fixed_done(entries, e2, p);
                        lemma_same_fixed_done(entries, e2, j + 1);
                        lemma_same_fixed_done(entries, e2, entries.len() as int);
                        assert(wants_row(e2[p]));
                        assert(c[p].0.position as int == count + 1 + wants_before(e2, p)
                            - wants_before(e2, j + 1));
                    }
                }
            } else {
                lemma_compact_positions(entries, j + 1, (count + 1) as u16);
                lemma_compact_basic(entries, j + 1, (count + 1) as u16);
                assert forall|p: int|
                    j <= p < entries.len() && wants_row(entries[p]) implies (#[trigger] c[p]).0.position as int
                    == count + wants_before(entries, p) - wants_before(entries, j) by {
                    if p == j {
                        assert(c[j] == entries[j]);
                    }
                }
            }
        } else {
            assert(wants_before(entries, j + 1) == wants_before(entries, j));
            lemma_compact_positions(entries, j + 1, count);
        }
    }
}

/// Compaction is a no-op on entries whose participating slots already carry
/// the compacted numbering.
proof fn lemma_compact_noop(entries: Seq<(IndicatorV, bool)>, j: int, count: u16)
    requires
        0 <= j <= entries.len(),
        count + wants_before(entries, entries.len() as int) - wants_before(entries, j)
            <= u16::MAX,
        forall|p: int|
            j <= p < entries.len() && wants_row(entries[p]) ==> (#[trigger] entries[p]).0.position as int
                == count + wants_before(entries, p) - wants_before(entries, j),
    ensures
        compact_from(entries, j, count) == entries,
    decreases entries.len() - j,
{
    if j == entries.len() {
    } else {
        crate::manager::lemma_wants_before_mono(entries, j + 1, entries.len() as int);
        if wants_row(entries[j]) {
            assert(wants_before(entries, j + 1) == wants_before(entries, j) + 1);
            assert(entries[j].0.position as int == count);
            lemma_compact_noop(entries, j + 1, (count + 1) as u16);
        } else {
            assert(wants_before(entries, j + 1) == wants_before(entries, j));
            lemma_compact_noop(entries, j + 1, count);
        }
    }
}

/// Idempotence in the slack case: a second notification with no intervening
/// state change recomputes the same stable assignment, so the state does not
/// move again.
pub proof fn lemma_notify_idempotent_slack(m: ManagerV, i: int)
    requires
        wf(m),
        0 <= i < m.entries.len(),
        m.nrows as int > remaining_count(m.entries),
    ensures
        notify_model(notify_model(m, i), i) == notify_model(m, i),
{
    let m1 = finish_target(m, i);
    let c = compact_from(m1.entries, 0, 0);
    let cnt = wants_before(m1.entries, m1.entries.len() as int) as int;
    let n1 = notify_model(m, i);
    assert(n1.entries == c && n1.acquired == set_int_range(0, cnt) && n1.available
        == m1.acquired.union(m1.available).difference(set_int_range(0, cnt)) && n1.nrows
        == m1.nrows);

    assert(same_fixed_fields(m.entries, m1.entries)) by {
        if !m.entries[i].0.disable && m.entries[i].0.done {
            let e = (IndicatorV { disable: true, ..m.entries[i].0 }, m.entries[i].1);
            lemma_same_fixed_update(m.entries, m.entries, i, e);
        }
    }
    lemma_compact_basic(m1.entries, 0, 0);
    lemma_same_fixed_trans(m.entries, m1.entries, c);
    lemma_same_fixed_done(m.entries, c, m.entries.len() as int);
    assert(remaining_count(c) == remaining_count(m.entries));
    lemma_same_fixed_done(m.entries, m1.entries, m.entries.len() as int);
    lemma_wants_le_remaining(m1.entries);

    // the second settling of the target finds it hidden or unfinished
    assert(finish_target(n1, i) == n1) by {
        if !c[i].0.disable && c[i].0.done {
            assert(!wants_row(m1.entries[i]));
            assert(c[i] == m1.entries[i]);
            assert(false);
        }
    }

    // the second compaction finds the numbering already stable
    lemma_compact_positions(m1.entries, 0, 0);
    lemma_same_fixed_done(m1.entries, c, m.entries.len() as int);
    assert forall|p: int|
        0 <= p < c.len() && wants_row(c[p]) implies (#[trigger] c[p]).0.position as int == 0
        + wants_before(c, p) - wants_before(c, 0) by {
        assert(wants_row(m1.entries[p]));
        lemma_same_fixed_done(m1.entries, c, p);
    }
    lemma_compact_noop(c, 0, 0);

    // and the rebinding is a fixed point of itself
    let cnt2 = wants_before(c, c.len() as int) as int;
    assert(cnt2 == cnt);
    assert(n1.acquired.union(n1.available).difference(set_int_range(0, cnt)) =~= n1.available);
    assert(notify_model(n1, i) =~~= n1);
}

} // verus!
