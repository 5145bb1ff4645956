//! The grid in which a roster is shown: one row per week, and per job as many
//! columns as the job needs people.

use vstd::prelude::*;
use vstd::math::max;
use vstd::utf8::encode_utf8;
use crate::roster::{Job, Roster, RosterModel, Slot};

verus! {

/// Columns taken by the jobs of the catalogue from the `i`-th on.
pub open spec fn cols_from(jobs: Seq<Job>, i: int) -> int
    decreases jobs.len() - i,
{
    if i < 0 || i >= jobs.len() {
        0
    } else {
        jobs[i].num_people + cols_from(jobs, i + 1)
    }
}

/// The job under which column `col` falls, counting columns from the
/// `i`-th job on.
pub open spec fn col_owner(jobs: Seq<Job>, i: int, col: int) -> int
    decreases jobs.len() - i,
{
    if i < 0 || i >= jobs.len() {
        jobs.len() as int
    } else if col < jobs[i].num_people {
        i
    } else {
        col_owner(jobs, i + 1, col - jobs[i].num_people)
    }
}

/// Width in bytes of the widest of the first `n` names.
pub open spec fn name_width(names: Seq<String>, n: int) -> int
    decreases n,
{
    if n <= 0 {
        0
    } else {
        max(name_width(names, n - 1), byte_len(names[n - 1]) as int)
    }
}

/// Length of a string in bytes, as `str::len` gives it.
pub open spec fn byte_len(s: String) -> usize {
    encode_utf8(s@).len() as usize
}

/// Number of decimal digits of `n`.
pub open spec fn digits(n: nat) -> nat
    decreases n,
{
    if n < 10 {
        1
    } else {
        1 + digits(n / 10)
    }
}

/// The fields of `week` for the first `n` jobs: the names of the people in
/// each job's slot, then an empty field for each place still free.
pub open spec fn fields_upto(m: RosterModel, names: Seq<String>, week: u32, n: nat) -> Seq<Option<String>>
    decreases n,
{
    if n == 0 {
        Seq::empty()
    } else {
        let job = m.jobs[n - 1];
        let people = m.assigned(Slot { week, job });
        fields_upto(m, names, week, (n - 1) as nat)
            + people.map_values(|p: u32| Some(names[p as int]))
            + Seq::new((job.num_people - people.len()) as nat, |i: int| None::<String>)
    }
}

proof fn lemma_cols_nonneg(jobs: Seq<Job>, i: int)
    ensures
        cols_from(jobs, i) >= 0,
    decreases jobs.len() - i,
{
    if 0 <= i < jobs.len() {
        lemma_cols_nonneg(jobs, i + 1);
    }
}

proof fn lemma_col_owner(jobs: Seq<Job>, i: int, col: int)
    requires
        0 <= i,
        0 <= col < cols_from(jobs, i),
    ensures
        i <= col_owner(jobs, i, col) < jobs.len(),
    decreases jobs.len() - i,
{
    if col >= jobs[i].num_people {
        lemma_col_owner(jobs, i + 1, col - jobs[i].num_people);
    }
}

/// A roster with the names that show it: job names by catalogue position,
/// person names by person identifier, and the focused grid cell as
/// (column, row).
pub struct ViewState {
    pub roster: Roster,
    pub job_names: Vec<String>,
    pub person_names: Vec<String>,
    pub focused_field: (u32, u32),
}

impl ViewState {
    /// The number of job columns: one for each person each job needs.
    pub fn job_cols_needed(&self) -> (r: u32)
        requires
            cols_from(self.roster@.jobs, 0) <= u32::MAX,
        ensures
            r == cols_from(self.roster@.jobs, 0),
    {
        let jobs = self.roster.jobs();
        let mut total: u32 = 0;
        let mut i: usize = 0;
        while i < jobs.len()
            invariant
                jobs@ == self.roster@.jobs,
                i <= jobs@.len(),
                total + cols_from(jobs@, i as int) == cols_from(jobs@, 0),
                cols_from(jobs@, 0) <= u32::MAX,
            decreases jobs@.len() - i,
        {
            proof {
                lemma_cols_nonneg(jobs@, i + 1);
            }
            total = total + jobs[i].num_people;
            i = i + 1;
        }
        total
    }

    /// The name of the job under which column `col` falls.
    pub fn col_job_name(&self, col: u32) -> (r: String)
        requires
            col < cols_from(self.roster@.jobs, 0),
            self.job_names@.len() >= self.roster@.jobs.len(),
        ensures
            0 <= col_owner(self.roster@.jobs, 0, col as int) < self.roster@.jobs.len(),
            r == self.job_names@[col_owner(self.roster@.jobs, 0, col as int)],
    {
        proof {
            lemma_col_owner(self.roster@.jobs, 0, col as int);
        }
        let jobs = self.roster.jobs();
        let mut c: u32 = col;
        let mut i: usize = 0;
        while i < jobs.len()
            invariant
                jobs@ == self.roster@.jobs,
                self.job_names@.len() >= jobs@.len(),
                i <= jobs@.len(),
                c < cols_from(jobs@, i as int),
                col_owner(jobs@, i as int, c as int) == col_owner(jobs@, 0, col as int),
            decreases jobs@.len() - i,
        {
            if c < jobs[i].num_people {
                return self.job_names[i].clone();
            }
            c = c - jobs[i].num_people;
            i = i + 1;
        }
        // no column lies beyond the last job
        assert(false);
        String::new()
    }

    /// The job name above each column, left to right.
    pub fn job_col_names(&self) -> (r: Vec<String>)
        requires
            cols_from(self.roster@.jobs, 0) <= u32::MAX,
            self.job_names@.len() >= self.roster@.jobs.len(),
        ensures
            r@.len() == cols_from(self.roster@.jobs, 0),
            forall|c: int|
                0 <= c < r@.len() ==> #[trigger] r@[c] == self.job_names@[col_owner(
                    self.roster@.jobs,
                    0,
                    c,
                )],
    {
        let n = self.job_cols_needed();
        let mut res: Vec<String> = Vec::new();
        let mut col: u32 = 0;
        while col < n
            invariant
                n == cols_from(self.roster@.jobs, 0),
                self.job_names@.len() >= self.roster@.jobs.len(),
                col <= n,
                res@.len() == col,
                forall|c: int|
                    0 <= c < col ==> #[trigger] res@[c] == self.job_names@[col_owner(
                        self.roster@.jobs,
                        0,
                        c,
                    )],
            decreases n - col,
        {
            res.push(self.col_job_name(col));
            col = col + 1;
        }
        res
    }

    /// The width of a grid column: the widest job or person name in bytes,
    /// and at least the digits of the last week's number, and at least 2.
    pub fn max_col_width(&self) -> (r: u32)
        requires
            self.job_names@.len() > 0,
            self.person_names@.len() > 0,
            self.roster@.num_weeks >= 1,
        ensures
            r == max(
                max(
                    name_width(self.job_names@, self.job_names@.len() as int),
                    name_width(self.person_names@, self.person_names@.len() as int),
                ) as u32 as int,
                max(2, digits((self.roster@.num_weeks - 1) as nat) as int),
            ),
    {
        let names = widest(&self.job_names);
        let people = widest(&self.person_names);
        let job_person_max = if names >= people {
            names
        } else {
            people
        } as u32;
        let digits = decimal_digits(self.roster.num_weeks() - 1);
        let week_max = if digits >= 2 {
            digits
        } else {
            2
        };
        if job_person_max >= week_max {
            job_person_max
        } else {
            week_max
        }
    }

    /// The fields of one week's row, job by job in catalogue order: the name
    /// of each person in the job's slot, then `None` for each free place.
    pub fn get_fields_for_week(&self, week: u32) -> (r: Vec<Option<String>>)
        requires
            self.roster.wf(),
            forall|j: int, k: int|
                0 <= j < self.roster@.jobs.len() && 0 <= k < self.roster@.assigned(
                    Slot { week, job: self.roster@.jobs[j] },
                ).len() ==> #[trigger] self.roster@.assigned(
                    Slot { week, job: self.roster@.jobs[j] },
                )[k] < self.person_names@.len(),
        ensures
            r@ == fields_upto(self.roster@, self.person_names@, week, self.roster@.jobs.len()),
    {
        let jobs = self.roster.jobs();
        let ghost m = self.roster@;
        let ghost names = self.person_names@;
        let mut res: Vec<Option<String>> = Vec::new();
        let mut j: usize = 0;
        while j < jobs.len()
            invariant
                jobs@ == m.jobs,
                m == self.roster@,
                names == self.person_names@,
                self.roster.wf(),
                j <= jobs@.len(),
                res@ == fields_upto(m, names, week, j as nat),
                forall|j2: int, k: int|
                    0 <= j2 < m.jobs.len() && 0 <= k < m.assigned(Slot { week, job: m.jobs[j2] }).len()
                        ==> #[trigger] m.assigned(Slot { week, job: m.jobs[j2] })[k] < names.len(),
            decreases jobs@.len() - j,
        {
            let job = jobs[j];
            let slot = Slot { week, job };
            let people = self.roster.get_assigned(&slot);
            proof {
                self.roster.lemma_inv();
                if !m.slots.contains_key(slot) {
                    assert(people@.len() == 0);
                }
            }
            let ghost start = res@;
            let mut k: usize = 0;
            while k < people.len()
                invariant
                    people@ == m.assigned(slot),
                    slot == (Slot { week, job: m.jobs[j as int] }),
                    j < m.jobs.len(),
                    names == self.person_names@,
                    k <= people@.len(),
                    res@ == start + people@.take(k as int).map_values(|p: u32| Some(names[p as int])),
                    forall|k2: int|
                        0 <= k2 < people@.len() ==> #[trigger] people@[k2] < names.len(),
                decreases people@.len() - k,
            {
                res.push(Some(self.person_names[people[k] as usize].clone()));
                k = k + 1;
                assert(res@ =~= start + people@.take(k as int).map_values(
                    |p: u32| Some(names[p as int]),
                ));
            }
            assert(people@.take(k as int) =~= people@);
            let ghost filled = res@;
            let free = job.num_people - people.len() as u32;
            let mut e: u32 = 0;
            while e < free
                invariant
                    e <= free,
                    res@ == filled + Seq::new(e as nat, |i: int| None::<String>),
                decreases free - e,
            {
                res.push(None);
                e = e + 1;
                assert(res@ =~= filled + Seq::new(e as nat, |i: int| None::<String>));
            }
            j = j + 1;
            assert(res@ =~= fields_upto(m, names, week, j as nat));
        }
        res
    }
}

/// The widest of the names, in bytes.
fn widest(names: &Vec<String>) -> (r: usize)
    ensures
        r == name_width(names@, names@.len() as int),
{
    let mut w: usize = 0;
    let mut i: usize = 0;
    while i < names.len()
        invariant
            i <= names@.len(),
            w == name_width(names@, i as int),
        decreases names@.len() - i,
    {
        let s = names[i].as_str();
        let len = s.len();
        if len > w {
            w = len;
        }
        i = i + 1;
    }
    w
}

proof fn lemma_digits_bound(n: nat)
    ensures
        1 <= digits(n),
        n >= 1 ==> digits(n) <= n,
    decreases n,
{
    if n >= 10 {
        lemma_digits_bound(n / 10);
    }
}

/// The number of decimal digits of `n`.
fn decimal_digits(n: u32) -> (r: u32)
    ensures
        r == digits(n as nat),
{
    let mut rest: u32 = n;
    let mut count: u32 = 1;
    while rest >= 10
        invariant
            count + digits(rest as nat) == digits(n as nat) + 1,
            rest <= n,
        decreases rest,
    {
        proof {
            lemma_digits_bound(n as nat);
            lemma_digits_bound((rest / 10) as nat);
        }
        rest = rest / 10;
        count = count + 1;
    }
    count
}

} // verus!
