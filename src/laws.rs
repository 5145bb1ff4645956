//! Properties that hold across the roster's operations.

use vstd::prelude::*;
use crate::roster::{Person, Roster, RosterModel, Slot};

verus! {

/// For a job of the catalogue, a slot is valid exactly in the weeks that are
/// multiples of the job's period.
pub proof fn law_valid_weeks(m: RosterModel, week: u32, j: int)
    requires
        0 <= j < m.jobs.len(),
    ensures
        m.valid_slot(Slot { week, job: m.jobs[j] }) <==> week % m.jobs[j].period == 0,
{
    assert(m.jobs.contains(m.jobs[j]));
}

/// A person is assigned in a week exactly when some job of the catalogue
/// that recurs in that week has them in its slot of that week: jobs that do
/// not recur that week contribute nobody.
pub proof fn law_in_week(m: RosterModel, week: u32, p: Person)
    ensures
        m.in_week(week).contains(p) <==> exists|j: int|
            0 <= j < m.jobs.len() && week % m.jobs[j].period == 0
                && #[trigger] m.assigned(Slot { week, job: m.jobs[j] }).contains(p),
{
    lemma_in_week_upto(m, week, p, m.jobs.len());
}

proof fn lemma_in_week_upto(m: RosterModel, week: u32, p: Person, n: nat)
    requires
        n <= m.jobs.len(),
    ensures
        m.in_week_upto(week, n).contains(p) <==> exists|j: int|
            0 <= j < n && week % m.jobs[j].period == 0
                && #[trigger] m.assigned(Slot { week, job: m.jobs[j] }).contains(p),
    decreases n,
{
    if n > 0 {
        lemma_in_week_upto(m, week, p, (n - 1) as nat);
        let job = m.jobs[n - 1];
        let head = m.in_week_upto(week, (n - 1) as nat);
        let tail = if week % job.period == 0 {
            m.assigned(Slot { week, job })
        } else {
            Seq::empty()
        };
        assert(m.in_week_upto(week, n) == head + tail);
        if (head + tail).contains(p) {
            let k = choose|k: int| 0 <= k < (head + tail).len() && (head + tail)[k] == p;
            if k < head.len() {
                assert(head[k] == p);
                assert(head.contains(p));
            } else {
                assert(tail[k - head.len()] == p);
                assert(week % m.jobs[n - 1].period == 0);
                assert(m.assigned(Slot { week, job: m.jobs[n - 1] }).contains(p));
            }
        }
        if exists|j: int|
            0 <= j < n && week % m.jobs[j].period == 0
                && #[trigger] m.assigned(Slot { week, job: m.jobs[j] }).contains(p) {
            let j = choose|j: int|
                0 <= j < n && week % m.jobs[j].period == 0
                    && #[trigger] m.assigned(Slot { week, job: m.jobs[j] }).contains(p);
            if j < n - 1 {
                let k = choose|k: int| 0 <= k < head.len() && head[k] == p;
                assert((head + tail)[k] == p);
            } else {
                let k = choose|k: int| 0 <= k < tail.len() && tail[k] == p;
                assert((head + tail)[head.len() + k] == p);
            }
        }
    }
}

/// In a well-formed roster no valid slot ever holds more people than its job
/// needs; every operation that changes a roster keeps it well formed.
pub proof fn law_capacity(r: Roster, s: Slot)
    requires
        r.wf(),
        r@.valid_slot(s),
    ensures
        r@.assigned(s).len() <= s.job.num_people,
{
    r.lemma_inv();
}

/// Nobody fits a slot while assigned to its previous occurrence, to its next
/// occurrence, or to any valid slot of the same week.
pub proof fn law_no_fit(m: RosterModel, s: Slot, other: Slot, p: Person)
    requires
        m.assigned_opt(m.previous(s)).contains(p) || m.assigned_opt(m.next(s)).contains(p) || (
        m.valid_slot(other) && other.week == s.week && m.assigned(other).contains(p)),
    ensures
        !m.fits(s, p),
{
    if m.valid_slot(other) && other.week == s.week && m.assigned(other).contains(p) {
        let j = choose|j: int| 0 <= j < m.jobs.len() && m.jobs[j] == other.job;
        assert(m.assigned(Slot { week: s.week, job: m.jobs[j] }).contains(p));
        law_in_week(m, s.week, p);
    }
}

/// Placing a person in a slot and then removing them gives the slot back
/// its earlier people, in their earlier order.
pub proof fn law_place_then_remove(m: RosterModel, s: Slot, p: Person)
    ensures
        ({
            let placed = RosterModel {
                slots: m.slots.insert(s, m.assigned(s).push(p)),
                ..m
            };
            let removed = RosterModel {
                slots: placed.slots.insert(s, RosterModel::without_last(placed.assigned(s), p)),
                ..placed
            };
            &&& placed.assigned(s).contains(p)
            &&& removed.assigned(s) == m.assigned(s)
        }),
{
    let xs = m.assigned(s).push(p);
    assert(xs[xs.len() - 1] == p);
    assert(xs.drop_last() =~= m.assigned(s));
}

/// The slot that `append` fills is determined: two slots that are both the
/// first with room, in the order of weeks and then of the catalogue, are the
/// same slot.
pub proof fn law_first_open_unique(m: RosterModel, s1: Slot, s2: Slot)
    requires
        m.is_first_open(s1),
        m.is_first_open(s2),
    ensures
        s1 == s2,
{
    let (w1, i1) = choose|w: int, i: int|
        #[trigger] m.open_at(w, i) && !m.open_before(w, i) && s1 == (Slot {
            week: w as u32,
            job: m.jobs[i],
        });
    let (w2, i2) = choose|w: int, i: int|
        #[trigger] m.open_at(w, i) && !m.open_before(w, i) && s2 == (Slot {
            week: w as u32,
            job: m.jobs[i],
        });
    if w1 < w2 || (w1 == w2 && i1 < i2) {
        assert(m.open_before(w2, i2));
    } else if w2 < w1 || (w2 == w1 && i2 < i1) {
        assert(m.open_before(w1, i1));
    }
}

} // verus!
