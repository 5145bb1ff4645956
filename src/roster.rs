use vstd::prelude::*;

verus! {

/// Identifier of a person; names live with whoever presents the roster.
pub type Person = u32;

/// Identifier of a job.
pub type JobID = u32;

/// A recurring duty: `num_people` are needed every `period` weeks, from week 0 on.
#[derive(Clone, Copy, Debug, PartialEq, Eq, Structural, Hash, PartialOrd, Ord)]
pub struct Job {
    pub id: JobID,
    pub num_people: u32,
    pub period: u32,
}

impl Job {
    pub fn new(id: JobID, num_people: u32, period: u32) -> (r: Job)
        requires
            num_people >= 1,
            period >= 1,
        ensures
            r == (Job { id, num_people, period }),
    {
        Job { id, num_people, period }
    }
}


/// One occurrence of a job: the pair (week, job).
#[derive(Clone, Copy, Debug, PartialEq, Eq, Structural, Hash, PartialOrd, Ord)]
pub struct Slot {
    pub week: u32,
    pub job: Job,
}

/// One place within a slot: the `index`-th person assigned to `slot`.
#[derive(Clone, Copy, Debug, PartialEq, Eq, Structural)]
pub struct Field {
    pub slot: Slot,
    pub index: u32,
}

/// Why a placement was refused.
#[derive(Clone, Copy, Debug, PartialEq, Eq, Structural)]
pub enum RosterError {
    /// The slot's job is not in the catalogue, its week is not a multiple of
    /// the job's period, or the week lies beyond the horizon.
    SlotInvalid,
    /// The slot already holds as many people as its job needs.
    SlotFull,
    /// No slot of the roster has room left.
    RosterFull,
    /// The person breaks a spacing rule for the slot.
    NoFit(Conflict),
}

/// Which of the spacing rules a candidate breaks.
#[derive(Clone, Copy, Debug, PartialEq, Eq, Structural)]
pub enum Conflict {
    /// Already assigned to the previous occurrence of the job.
    Previous,
    /// Already assigned to the next occurrence of the job.
    Next,
    /// Already assigned to some slot of the same week.
    SameWeek,
}

/// The abstract state of a roster: its catalogue, its horizon and the
/// assignment map from slots to the people in them, in order of arrival.
pub struct RosterModel {
    pub jobs: Seq<Job>,
    pub num_weeks: nat,
    pub slots: Map<Slot, Seq<Person>>,
}

impl RosterModel {
    /// The job is in the catalogue and recurs in the slot's week.
    pub open spec fn valid_slot(self, s: Slot) -> bool {
        self.jobs.contains(s.job) && s.week % s.job.period == 0
    }

    /// The people in a slot; nobody where the map holds no entry.
    pub open spec fn assigned(self, s: Slot) -> Seq<Person> {
        if self.slots.contains_key(s) {
            self.slots[s]
        } else {
            Seq::empty()
        }
    }

    pub open spec fn assigned_opt(self, s: Option<Slot>) -> Seq<Person> {
        match s {
            Some(s) => self.assigned(s),
            None => Seq::empty(),
        }
    }

    /// The occurrence one period earlier, if it is not before week 0.
    pub open spec fn previous(self, s: Slot) -> Option<Slot> {
        if s.job.period > s.week {
            None
        } else {
            Some(Slot { week: (s.week - s.job.period) as u32, job: s.job })
        }
    }

    /// The occurrence one period later, if it lies within the horizon.
    pub open spec fn next(self, s: Slot) -> Option<Slot> {
        if s.week + s.job.period >= self.num_weeks {
            None
        } else {
            Some(Slot { week: (s.week + s.job.period) as u32, job: s.job })
        }
    }

    /// The people of `week` in the slots of the first `n` jobs of the
    /// catalogue that recur in that week, job by job.
    pub open spec fn in_week_upto(self, week: u32, n: nat) -> Seq<Person>
        decreases n,
    {
        if n == 0 {
            Seq::empty()
        } else {
            let job = self.jobs[n - 1];
            self.in_week_upto(week, (n - 1) as nat) + if week % job.period == 0 {
                self.assigned(Slot { week, job })
            } else {
                Seq::empty()
            }
        }
    }

    /// Everybody assigned in `week`, in catalogue order.
    pub open spec fn in_week(self, week: u32) -> Seq<Person> {
        self.in_week_upto(week, self.jobs.len())
    }

    /// The slot holds fewer people than its job needs.
    pub open spec fn has_room(self, s: Slot) -> bool {
        self.assigned(s).len() < s.job.num_people
    }

    /// The slot of week `w` and of the `i`-th job of the catalogue exists and has room.
    pub open spec fn open_at(self, w: int, i: int) -> bool {
        &&& 0 <= w < self.num_weeks
        &&& 0 <= i < self.jobs.len()
        &&& w % (self.jobs[i].period as int) == 0
        &&& self.has_room(Slot { week: w as u32, job: self.jobs[i] })
    }

    /// Some slot before (w, i), in the order of weeks and then of the
    /// catalogue, exists and has room.
    pub open spec fn open_before(self, w: int, i: int) -> bool {
        exists|w2: int, i2: int|
            (w2 < w || (w2 == w && i2 < i)) && #[trigger] self.open_at(w2, i2)
    }

    /// The first slot with room, scanning weeks from 0 and, within a week,
    /// the catalogue in order.
    pub open spec fn is_first_open(self, s: Slot) -> bool {
        exists|w: int, i: int|
            #[trigger] self.open_at(w, i) && !self.open_before(w, i) && s == (Slot {
                week: w as u32,
                job: self.jobs[i],
            })
    }

    pub open spec fn full(self) -> bool {
        forall|w: int, i: int| !#[trigger] self.open_at(w, i)
    }

    /// The first spacing rule that placing `p` in `s` would break, if any.
    pub open spec fn conflict(self, s: Slot, p: Person) -> Option<Conflict> {
        if self.assigned_opt(self.previous(s)).contains(p) {
            Some(Conflict::Previous)
        } else if self.assigned_opt(self.next(s)).contains(p) {
            Some(Conflict::Next)
        } else if self.in_week(s.week).contains(p) {
            Some(Conflict::SameWeek)
        } else {
            None
        }
    }

    /// `p` is in neither neighbouring occurrence of `s` nor anywhere in its week.
    pub open spec fn fits(self, s: Slot, p: Person) -> bool {
        !self.assigned_opt(self.previous(s)).contains(p)
            && !self.assigned_opt(self.next(s)).contains(p)
            && !self.in_week(s.week).contains(p)
    }

    /// The week right before the week of the previous occurrence of `s`,
    /// where there is one.
    pub open spec fn streak_week(self, s: Slot) -> Option<u32> {
        match self.previous(s) {
            Some(p) => if p.week >= 1 {
                Some((p.week - 1) as u32)
            } else {
                None
            },
            None => None,
        }
    }

    /// The first `n` people of `xs` that occur in `ys`, in order.
    pub open spec fn common_upto(xs: Seq<Person>, ys: Seq<Person>, n: nat) -> Seq<Person>
        decreases n,
    {
        if n == 0 || n > xs.len() {
            Seq::empty()
        } else {
            Self::common_upto(xs, ys, (n - 1) as nat) + if ys.contains(xs[n - 1]) {
                seq![xs[n - 1]]
            } else {
                Seq::empty()
            }
        }
    }

    /// The people of `s` who were also assigned in its streak week.
    pub open spec fn streakers(self, s: Slot) -> Seq<Person> {
        let earlier = match self.streak_week(s) {
            Some(w) => self.in_week(w),
            None => Seq::empty(),
        };
        Self::common_upto(self.assigned(s), earlier, self.assigned(s).len())
    }

    /// `xs` without the last occurrence of `p`; `xs` itself where `p` does not occur.
    pub open spec fn without_last(xs: Seq<Person>, p: Person) -> Seq<Person>
        decreases xs.len(),
    {
        if xs.len() == 0 {
            xs
        } else if xs.last() == p {
            xs.drop_last()
        } else {
            Self::without_last(xs.drop_last(), p).push(xs.last())
        }
    }

    /// Every job recurs; the map holds only valid slots within the horizon,
    /// none over its capacity.
    pub open spec fn inv(self) -> bool {
        &&& forall|j: int| 0 <= j < self.jobs.len() ==> #[trigger] self.jobs[j].period >= 1
        &&& forall|s: Slot| #[trigger]
            self.slots.contains_key(s) ==> self.valid_slot(s) && s.week < self.num_weeks
                && self.slots[s].len() <= s.job.num_people
    }
}


/// The people in one slot, in order of arrival.
#[derive(Clone, Debug)]
struct SlotEntry {
    slot: Slot,
    people: Vec<Person>,
}

/// A job catalogue, a horizon of weeks and the people assigned to slots.
#[derive(Clone, Debug)]
pub struct Roster {
    jobs: Vec<Job>,
    num_weeks: u32,
    entries: Vec<SlotEntry>,
}

impl Roster {
    spec fn has_entry(self, s: Slot) -> bool {
        exists|i: int| 0 <= i < self.entries@.len() && #[trigger] self.entries@[i].slot == s
    }

    spec fn entry_index(self, s: Slot) -> int {
        choose|i: int| 0 <= i < self.entries@.len() && #[trigger] self.entries@[i].slot == s
    }

    /// The catalogue keeps its periods positive, entries name distinct slots,
    /// and every entry is a valid slot of the horizon within its capacity.
    pub closed spec fn wf(self) -> bool {
        &&& forall|j: int| 0 <= j < self.jobs@.len() ==> #[trigger] self.jobs@[j].period >= 1
        &&& forall|i: int, k: int|
            0 <= i < k < self.entries@.len() ==> #[trigger] self.entries@[i].slot
                != #[trigger] self.entries@[k].slot
        &&& forall|i: int|
            0 <= i < self.entries@.len() ==> {
                let e = #[trigger] self.entries@[i];
                &&& self.jobs@.contains(e.slot.job)
                &&& e.slot.week % e.slot.job.period == 0
                &&& e.slot.week < self.num_weeks
                &&& e.people@.len() <= e.slot.job.num_people
            }
    }

    proof fn lemma_entry(self, i: int)
        requires
            self.wf(),
            0 <= i < self.entries@.len(),
        ensures
            self@.slots.contains_key(self.entries@[i].slot),
            self@.slots[self.entries@[i].slot] == self.entries@[i].people@,
    {
        let s = self.entries@[i].slot;
        assert(self.has_entry(s));
        let k = self.entry_index(s);
        if k != i {
            if k < i {
                assert(self.entries@[k].slot != self.entries@[i].slot);
            } else {
                assert(self.entries@[i].slot != self.entries@[k].slot);
            }
        }
    }

    /// A well-formed roster has a model that keeps the invariant.
    pub proof fn lemma_inv(self)
        requires
            self.wf(),
        ensures
            self@.inv(),
    {
        assert forall|s: Slot| #[trigger] self@.slots.contains_key(s) implies self@.valid_slot(s)
            && s.week < self@.num_weeks && self@.slots[s].len() <= s.job.num_people by {
            let i = self.entry_index(s);
            self.lemma_entry(i);
        }
    }
}

impl View for Roster {
    type V = RosterModel;

    closed spec fn view(&self) -> RosterModel {
        RosterModel {
            jobs: self.jobs@,
            num_weeks: self.num_weeks as nat,
            slots: Map::new(
                |s: Slot| self.has_entry(s),
                |s: Slot| self.entries@[self.entry_index(s)].people@,
            ),
        }
    }
}

fn copy_people(v: &Vec<Person>) -> (r: Vec<Person>)
    ensures
        r@ == v@,
{
    let mut r: Vec<Person> = Vec::new();
    let mut i: usize = 0;
    while i < v.len()
        invariant
            i <= v.len(),
            r@ == v@.take(i as int),
        decreases v.len() - i,
    {
        r.push(v[i]);
        i = i + 1;
        assert(r@ =~= v@.take(i as int));
    }
    assert(v@.take(v.len() as int) =~= v@);
    r
}

impl Roster {
    /// An empty roster over `num_weeks` weeks for the given catalogue.
    pub fn new(jobs: Vec<Job>, num_weeks: u32) -> (r: Roster)
        requires
            forall|j: int| 0 <= j < jobs@.len() ==> #[trigger] jobs@[j].period >= 1,
        ensures
            r.wf(),
            r@.jobs == jobs@,
            r@.num_weeks == num_weeks,
            r@.slots == Map::<Slot, Seq<Person>>::empty(),
    {
        let r = Roster { jobs, num_weeks, entries: Vec::new() };
        assert(r@.slots =~= Map::<Slot, Seq<Person>>::empty());
        r
    }

    /// The catalogue, in scan and display order.
    pub fn jobs(&self) -> (r: &Vec<Job>)
        ensures
            r@ == self@.jobs,
    {
        &self.jobs
    }

    /// The number of weeks the roster spans.
    pub fn num_weeks(&self) -> (r: u32)
        ensures
            r == self@.num_weeks,
    {
        self.num_weeks
    }

    fn find_entry(&self, slot: &Slot) -> (r: Option<usize>)
        requires
            self.wf(),
        ensures
            match r {
                Some(i) => i < self.entries@.len() && self.entries@[i as int].slot == *slot
                    && self@.slots.contains_key(*slot)
                    && self@.slots[*slot] == self.entries@[i as int].people@,
                None => !self@.slots.contains_key(*slot),
            },
    {
        let mut i: usize = 0;
        while i < self.entries.len()
            invariant
                self.wf(),
                i <= self.entries@.len(),
                forall|k: int| 0 <= k < i ==> #[trigger] self.entries@[k].slot != *slot,
            decreases self.entries@.len() - i,
        {
            if self.entries[i].slot == *slot {
                proof {
                    self.lemma_entry(i as int);
                }
                return Some(i);
            }
            i = i + 1;
        }
        None
    }

    /// The people in `slot`, in order of arrival; nobody for a slot that is
    /// empty, invalid or beyond the horizon.
    pub fn get_assigned(&self, slot: &Slot) -> (r: Vec<Person>)
        requires
            self.wf(),
        ensures
            r@ == self@.assigned(*slot),
    {
        if slot.week >= self.num_weeks {
            proof {
                self.lemma_inv();
            }
            return Vec::new();
        }
        match self.find_entry(slot) {
            Some(i) => copy_people(&self.entries[i].people),
            None => Vec::new(),
        }
    }

    /// The job is in the catalogue and recurs in the slot's week.
    pub fn is_valid_slot(&self, slot: &Slot) -> (r: bool)
        requires
            self.wf(),
        ensures
            r == self@.valid_slot(*slot),
    {
        let mut found = false;
        let mut j: usize = 0;
        while j < self.jobs.len()
            invariant
                j <= self.jobs@.len(),
                found == exists|k: int| 0 <= k < j && self.jobs@[k] == slot.job,
            decreases self.jobs@.len() - j,
        {
            if self.jobs[j] == slot.job {
                found = true;
            }
            j = j + 1;
        }
        if !found {
            assert(!self.jobs@.contains(slot.job)) by {
                if self.jobs@.contains(slot.job) {
                    let k = choose|k: int| 0 <= k < self.jobs@.len() && self.jobs@[k] == slot.job;
                    assert(0 <= k < j && self.jobs@[k] == slot.job);
                }
            }
            return false;
        }
        proof {
            let k = choose|k: int| 0 <= k < self.jobs@.len() && self.jobs@[k] == slot.job;
            assert(self.jobs@[k].period >= 1);
        }
        slot.week % slot.job.period == 0
    }

    /// The same job one period earlier, unless that falls before week 0.
    pub fn get_previous(&self, slot: &Slot) -> (r: Option<Slot>)
        ensures
            r == self@.previous(*slot),
    {
        if slot.job.period > slot.week {
            None
        } else {
            Some(Slot { week: slot.week - slot.job.period, job: slot.job })
        }
    }

    /// The same job one period later, unless that falls beyond the horizon.
    pub fn get_next(&self, slot: &Slot) -> (r: Option<Slot>)
        ensures
            r == self@.next(*slot),
    {
        if slot.week as u64 + slot.job.period as u64 >= self.num_weeks as u64 {
            None
        } else {
            Some(Slot { week: slot.week + slot.job.period, job: slot.job })
        }
    }

    fn count_in(&self, slot: &Slot) -> (r: u32)
        requires
            self.wf(),
        ensures
            r == self@.assigned(*slot).len(),
    {
        match self.find_entry(slot) {
            Some(i) => {
                proof {
                    assert(self.entries@[i as int].people@.len() <= slot.job.num_people);
                }
                self.entries[i].people.len() as u32
            },
            None => 0,
        }
    }

    /// How many people a valid slot holds.
    pub fn num_people_in_slot(&self, slot: &Slot) -> (r: u32)
        requires
            self.wf(),
            self@.valid_slot(*slot),
        ensures
            r == self@.assigned(*slot).len(),
            r <= slot.job.num_people,
    {
        proof {
            self.lemma_inv();
        }
        self.count_in(slot)
    }

    /// A valid slot holds fewer people than its job needs.
    pub fn is_slot_open(&self, slot: &Slot) -> (r: bool)
        requires
            self.wf(),
            self@.valid_slot(*slot),
        ensures
            r == self@.has_room(*slot),
    {
        self.num_people_in_slot(slot) < slot.job.num_people
    }

    /// The first slot with room, scanning weeks from 0 and, within a week,
    /// the catalogue in order; `None` when every slot is full.
    pub fn get_open_slot(&self) -> (r: Option<Slot>)
        requires
            self.wf(),
        ensures
            match r {
                Some(s) => self@.is_first_open(s) && self@.valid_slot(s) && s.week < self@.num_weeks,
                None => self@.full(),
            },
    {
        let mut week: u32 = 0;
        while week < self.num_weeks
            invariant
                self.wf(),
                week <= self.num_weeks,
                forall|w: int, i: int| w < week ==> !#[trigger] self@.open_at(w, i),
            decreases self.num_weeks - week,
        {
            let mut j: usize = 0;
            while j < self.jobs.len()
                invariant
                    self.wf(),
                    week < self.num_weeks,
                    j <= self.jobs@.len(),
                    forall|w: int, i: int|
                        (w < week || (w == week && i < j)) ==> !#[trigger] self@.open_at(w, i),
                decreases self.jobs@.len() - j,
            {
                let job = self.jobs[j];
                assert(job.period >= 1);
                let slot = Slot { week, job };
                if week % job.period == 0 && self.count_in(&slot) < job.num_people {
                    proof {
                        assert(self@.open_at(week as int, j as int));
                        assert(self@.jobs[j as int] == job);
                    }
                    return Some(slot);
                }
                j = j + 1;
            }
            week = week + 1;
        }
        None
    }

    /// Everybody assigned in `week`: the people of each job that recurs in
    /// that week, job by job in catalogue order.
    pub fn get_assigned_in_week(&self, week: u32) -> (r: Vec<Person>)
        requires
            self.wf(),
        ensures
            r@ == self@.in_week(week),
    {
        let mut res: Vec<Person> = Vec::new();
        let mut j: usize = 0;
        while j < self.jobs.len()
            invariant
                self.wf(),
                j <= self.jobs@.len(),
                res@ == self@.in_week_upto(week, j as nat),
            decreases self.jobs@.len() - j,
        {
            let job = self.jobs[j];
            assert(job.period >= 1);
            if week % job.period == 0 {
                let mut people = self.get_assigned(&Slot { week, job });
                res.append(&mut people);
            } else {
                assert(res@ =~= res@ + Seq::<Person>::empty());
            }
            j = j + 1;
        }
        res
    }

    /// Where placing `person` in the valid `slot` would break a spacing rule,
    /// the first rule broken: the previous occurrence, the next one, the week.
    /// A person already in the slot is in its week, so never fits again.
    pub fn check_fit(&self, slot: &Slot, person: Person) -> (r: Result<Option<Conflict>, RosterError>)
        requires
            self.wf(),
        ensures
            r == if self@.valid_slot(*slot) {
                Ok(self@.conflict(*slot, person))
            } else {
                Err(RosterError::SlotInvalid)
            },
    {
        if !self.is_valid_slot(slot) {
            return Err(RosterError::SlotInvalid);
        }
        Ok(self.conflict_of(slot, person))
    }

    fn conflict_of(&self, slot: &Slot, person: Person) -> (r: Option<Conflict>)
        requires
            self.wf(),
        ensures
            r == self@.conflict(*slot, person),
    {
        let previous = match self.get_previous(slot) {
            Some(p) => self.get_assigned(&p),
            None => Vec::new(),
        };
        if contains_person(&previous, person) {
            return Some(Conflict::Previous);
        }
        let next = match self.get_next(slot) {
            Some(n) => self.get_assigned(&n),
            None => Vec::new(),
        };
        if contains_person(&next, person) {
            return Some(Conflict::Next);
        }
        let week = self.get_assigned_in_week(slot.week);
        if contains_person(&week, person) {
            return Some(Conflict::SameWeek);
        }
        None
    }

    /// `person` is in neither neighbouring occurrence of the valid `slot`
    /// nor anywhere in its week.
    pub fn fits(&self, slot: &Slot, person: Person) -> (r: bool)
        requires
            self.wf(),
            self@.valid_slot(*slot),
        ensures
            r == self@.fits(*slot, person),
            r == (self@.conflict(*slot, person) is None),
    {
        match self.conflict_of(slot, person) {
            Some(_) => false,
            None => true,
        }
    }

    fn push_to(&mut self, person: Person, slot: &Slot)
        requires
            old(self).wf(),
            old(self)@.valid_slot(*slot),
            slot.week < old(self)@.num_weeks,
            old(self)@.has_room(*slot),
        ensures
            final(self).wf(),
            final(self)@.jobs == old(self)@.jobs,
            final(self)@.num_weeks == old(self)@.num_weeks,
            final(self)@.slots == old(self)@.slots.insert(
                *slot,
                old(self)@.assigned(*slot).push(person),
            ),
    {
        let ghost pre = *self;
        let ghost want = pre@.slots.insert(*slot, pre@.assigned(*slot).push(person));
        match self.find_entry(slot) {
            Some(i) => {
                self.entries[i].people.push(person);
                proof {
                    assert(self.entries@[i as int].slot == *slot);
                    assert forall|k: int| 0 <= k < self.entries@.len() && k != i implies
                        #[trigger] self.entries@[k] == pre.entries@[k] by {}
                    assert(self.wf());
                    assert forall|s: Slot| #[trigger] want.contains_key(s) <==> self.has_entry(s) by {
                        if pre.has_entry(s) {
                            let k = pre.entry_index(s);
                            assert(self.entries@[k].slot == s);
                        }
                        if self.has_entry(s) {
                            let k = self.entry_index(s);
                            if k != i {
                                assert(pre.entries@[k].slot == s);
                            }
                        }
                    }
                    self.lemma_map_from(pre, want);
                }
            },
            None => {
                let mut people: Vec<Person> = Vec::new();
                people.push(person);
                self.entries.push(SlotEntry { slot: *slot, people });
                proof {
                    assert forall|k: int| 0 <= k < pre.entries@.len() implies
                        #[trigger] pre.entries@[k].slot != *slot by {
                        pre.lemma_entry(k);
                    }
                    assert(self.wf());
                    let n = pre.entries@.len() as int;
                    assert(self.entries@[n].slot == *slot);
                    assert forall|s: Slot| #[trigger] want.contains_key(s) <==> self.has_entry(s) by {
                        if pre.has_entry(s) {
                            let k = pre.entry_index(s);
                            assert(self.entries@[k].slot == s);
                        }
                        if self.has_entry(s) {
                            let k = self.entry_index(s);
                            if k != n {
                                assert(pre.entries@[k].slot == s);
                            }
                        }
                    }
                    self.lemma_map_from(pre, want);
                }
            },
        }
    }

    /// Two well-formed rosters agree with a map when every entry does.
    proof fn lemma_map_from(self, pre: Roster, want: Map<Slot, Seq<Person>>)
        requires
            self.wf(),
            forall|s: Slot| #[trigger] want.contains_key(s) <==> self.has_entry(s),
            forall|i: int| 0 <= i < self.entries@.len() ==>
                #[trigger] want[self.entries@[i].slot] == self.entries@[i].people@,
        ensures
            self@.slots == want,
    {
        assert forall|s: Slot| #[trigger] self@.slots.contains_key(s) implies self@.slots[s]
            == want[s] by {
            let i = self.entry_index(s);
            self.lemma_entry(i);
        }
        assert(self@.slots =~= want);
    }
    /// Places `person` in the first slot with room (see `get_open_slot`),
    /// without checking the spacing rules; `RosterFull` when no slot has room.
    pub fn append(&mut self, person: Person) -> (r: Result<Slot, RosterError>)
        requires
            old(self).wf(),
        ensures
            final(self).wf(),
            final(self)@.jobs == old(self)@.jobs,
            final(self)@.num_weeks == old(self)@.num_weeks,
            r is Ok <==> !old(self)@.full(),
            match r {
                Ok(s) => old(self)@.is_first_open(s) && final(self)@.slots == old(self)@.slots.insert(
                    s,
                    old(self)@.assigned(s).push(person),
                ),
                Err(e) => e == RosterError::RosterFull && final(self)@ == old(self)@,
            },
    {
        match self.get_open_slot() {
            Some(slot) => {
                proof {
                    let (w, i) = choose|w: int, i: int|
                        #[trigger] self@.open_at(w, i) && !self@.open_before(w, i) && slot == (Slot {
                            week: w as u32,
                            job: self@.jobs[i],
                        });
                    assert(self@.has_room(slot));
                }
                self.push_to(person, &slot);
                Ok(slot)
            },
            None => Err(RosterError::RosterFull),
        }
    }

    /// Places `person` in `slot` without checking the spacing rules:
    /// `SlotInvalid` for a slot that is not valid or lies beyond the horizon,
    /// `SlotFull` for one without room.
    pub fn append_to_slot(&mut self, person: Person, slot: &Slot) -> (r: Result<(), RosterError>)
        requires
            old(self).wf(),
        ensures
            final(self).wf(),
            r == if !(old(self)@.valid_slot(*slot) && slot.week < old(self)@.num_weeks) {
                Err::<(), RosterError>(RosterError::SlotInvalid)
            } else if !old(self)@.has_room(*slot) {
                Err(RosterError::SlotFull)
            } else {
                Ok(())
            },
            r is Ok ==> final(self)@ == (RosterModel {
                slots: old(self)@.slots.insert(*slot, old(self)@.assigned(*slot).push(person)),
                ..old(self)@
            }),
            r is Err ==> final(self)@ == old(self)@,
    {
        if slot.week >= self.num_weeks || !self.is_valid_slot(slot) {
            return Err(RosterError::SlotInvalid);
        }
        if !self.is_slot_open(slot) {
            return Err(RosterError::SlotFull);
        }
        self.push_to(person, slot);
        Ok(())
    }

    /// Places `person` in `slot` only where the spacing rules allow it: the
    /// errors of `append_to_slot`, then `NoFit` with the first rule broken.
    pub fn append_to_slot_checked(&mut self, person: Person, slot: &Slot) -> (r: Result<(), RosterError>)
        requires
            old(self).wf(),
        ensures
            final(self).wf(),
            r == if !(old(self)@.valid_slot(*slot) && slot.week < old(self)@.num_weeks) {
                Err::<(), RosterError>(RosterError::SlotInvalid)
            } else if !old(self)@.has_room(*slot) {
                Err(RosterError::SlotFull)
            } else {
                match old(self)@.conflict(*slot, person) {
                    Some(c) => Err(RosterError::NoFit(c)),
                    None => Ok(()),
                }
            },
            r is Ok ==> final(self)@ == (RosterModel {
                slots: old(self)@.slots.insert(*slot, old(self)@.assigned(*slot).push(person)),
                ..old(self)@
            }),
            r is Err ==> final(self)@ == old(self)@,
    {
        if slot.week >= self.num_weeks || !self.is_valid_slot(slot) {
            return Err(RosterError::SlotInvalid);
        }
        if !self.is_slot_open(slot) {
            return Err(RosterError::SlotFull);
        }
        match self.conflict_of(slot, person) {
            Some(c) => Err(RosterError::NoFit(c)),
            None => {
                self.push_to(person, slot);
                Ok(())
            },
        }
    }

    /// Takes the last occurrence of `person` out of `slot`; returns whether
    /// there was one. Nothing changes where there was none.
    pub fn remove_from_slot(&mut self, person: Person, slot: &Slot) -> (r: bool)
        requires
            old(self).wf(),
        ensures
            final(self).wf(),
            r == old(self)@.assigned(*slot).contains(person),
            r ==> final(self)@ == (RosterModel {
                slots: old(self)@.slots.insert(
                    *slot,
                    RosterModel::without_last(old(self)@.assigned(*slot), person),
                ),
                ..old(self)@
            }),
            !r ==> final(self)@ == old(self)@,
    {
        let ghost pre = *self;
        match self.find_entry(slot) {
            None => false,
            Some(i) => {
                let len = self.entries[i].people.len();
                let mut k: usize = len;
                while k > 0
                    invariant
                        k <= len,
                        len == self.entries@[i as int].people@.len(),
                        i < self.entries@.len(),
                        forall|m: int| k <= m < len ==> self.entries@[i as int].people@[m] != person,
                    ensures
                        k <= len,
                        forall|m: int| k <= m < len ==> self.entries@[i as int].people@[m] != person,
                        k == 0 || self.entries@[i as int].people@[k - 1] == person,
                    decreases k,
                {
                    if self.entries[i].people[k - 1] == person {
                        break;
                    }
                    k = k - 1;
                }
                let ghost xs = self.entries@[i as int].people@;
                if k == 0 {
                    assert(!xs.contains(person));
                    return false;
                }
                let ghost at = k - 1;
                assert(xs[at as int] == person);
                self.entries[i].people.remove(k - 1);
                proof {
                    lemma_without_last_at(xs, person, at as int);
                    assert forall|m: int| 0 <= m < self.entries@.len() && m != i implies
                        #[trigger] self.entries@[m] == pre.entries@[m] by {}
                    assert(self.wf());
                    let want = pre@.slots.insert(*slot, RosterModel::without_last(xs, person));
                    assert forall|s: Slot| #[trigger] want.contains_key(s) <==> self.has_entry(s) by {
                        if pre.has_entry(s) {
                            let m = pre.entry_index(s);
                            assert(self.entries@[m].slot == s);
                        }
                        if self.has_entry(s) {
                            let m = self.entry_index(s);
                            assert(pre.entries@[m].slot == s);
                        }
                    }
                    assert forall|m: int| 0 <= m < self.entries@.len() implies
                        #[trigger] want[self.entries@[m].slot] == self.entries@[m].people@ by {
                        if m != i {
                            pre.lemma_entry(m);
                            assert(self.entries@[m].slot != *slot) by {
                                if m < i {
                                    assert(self.entries@[m].slot != self.entries@[i as int].slot);
                                } else {
                                    assert(self.entries@[i as int].slot != self.entries@[m].slot);
                                }
                            }
                        }
                    }
                    self.lemma_map_from(pre, want);
                    assert(self@ == (RosterModel { slots: want, ..pre@ }));
                }
                true
            },
        }
    }

    /// The person at `field.index` of the field's slot, if the slot holds that many.
    pub fn get_assigned_in_field(&self, field: &Field) -> (r: Option<Person>)
        requires
            self.wf(),
        ensures
            r == if field.index < self@.assigned(field.slot).len() {
                Some(self@.assigned(field.slot)[field.index as int])
            } else {
                None::<Person>
            },
    {
        let people = self.get_assigned(&field.slot);
        if (field.index as usize) < people.len() {
            Some(people[field.index as usize])
        } else {
            None
        }
    }

    /// The people of `slot` who were also assigned in the week right before
    /// the week of its previous occurrence, in their order in the slot.
    pub fn get_streakers(&self, slot: &Slot) -> (r: Vec<Person>)
        requires
            self.wf(),
        ensures
            r@ == self@.streakers(*slot),
    {
        let earlier = match self.get_previous(slot) {
            Some(p) => if p.week >= 1 {
                self.get_assigned_in_week(p.week - 1)
            } else {
                Vec::new()
            },
            None => Vec::new(),
        };
        let people = self.get_assigned(slot);
        let mut res: Vec<Person> = Vec::new();
        let mut i: usize = 0;
        while i < people.len()
            invariant
                i <= people@.len(),
                res@ == RosterModel::common_upto(people@, earlier@, i as nat),
            decreases people@.len() - i,
        {
            if contains_person(&earlier, people[i]) {
                res.push(people[i]);
            } else {
                assert(res@ =~= res@ + Seq::<Person>::empty());
            }
            i = i + 1;
        }
        res
    }
}

fn contains_person(v: &Vec<Person>, p: Person) -> (r: bool)
    ensures
        r == v@.contains(p),
{
    let mut i: usize = 0;
    while i < v.len()
        invariant
            i <= v.len(),
            forall|k: int| 0 <= k < i ==> v@[k] != p,
        decreases v.len() - i,
    {
        if v[i] == p {
            assert(v@[i as int] == p);
            return true;
        }
        i = i + 1;
    }
    false
}

proof fn lemma_without_last_at(xs: Seq<Person>, p: Person, k: int)
    requires
        0 <= k < xs.len(),
        xs[k] == p,
        forall|m: int| k < m < xs.len() ==> xs[m] != p,
    ensures
        RosterModel::without_last(xs, p) == xs.remove(k),
    decreases xs.len(),
{
    if k == xs.len() - 1 {
        assert(xs.drop_last() =~= xs.remove(k));
    } else {
        lemma_without_last_at(xs.drop_last(), p, k);
        assert(xs.drop_last().remove(k).push(xs.last()) =~= xs.remove(k));
    }
}

} // verus!
