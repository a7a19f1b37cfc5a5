//! The 0/1 program that places jobs in price slots.
//!
//! Variables: `x[j][t]`, job `j` starts at slot `t`, for every slot that is open to `j`; and
//! `w[t][d]`, the window that starts at slot `t` is at least `d` slots long, for every window that
//! ends within the pool. The objective pays the price of each slot of each window once, however
//! many jobs share the window.

use vstd::prelude::*;

use crate::seqs::views;
use crate::types::Price;

verus! {

/// No price.
pub open spec fn free() -> Price {
    Price { pence: 0, billionths: 0 }
}

/// A job to place: the schedule it comes from, the slots it may start in, and its length.
#[derive(Debug)]
pub struct Job {
    pub namespace: String,
    pub schedule_id: String,
    pub interval_secs: u64,
    /// For each slot of the pool, whether the job may start there.
    pub open: Vec<bool>,
    pub duration_slots: usize,
}

pub struct JobView {
    pub namespace: Seq<char>,
    pub schedule_id: Seq<char>,
    pub interval_secs: u64,
    pub open: Seq<bool>,
    pub duration_slots: nat,
}

impl View for Job {
    type V = JobView;

    open spec fn view(&self) -> JobView {
        JobView {
            namespace: self.namespace@,
            schedule_id: self.schedule_id@,
            interval_secs: self.interval_secs,
            open: self.open@,
            duration_slots: self.duration_slots as nat,
        }
    }
}

/// One addend of a row: a coefficient times a variable.
#[derive(Debug, Clone, Copy, PartialEq, Eq)]
pub struct Term {
    pub var: usize,
    pub coeff: i32,
}

pub struct TermView {
    pub var: int,
    pub coeff: int,
}

impl View for Term {
    type V = TermView;

    open spec fn view(&self) -> TermView {
        TermView { var: self.var as int, coeff: self.coeff as int }
    }
}

/// A linear row: its terms are compared with `rhs`.
#[derive(Debug)]
pub struct Row {
    pub terms: Vec<Term>,
    pub rhs: i32,
}

pub struct RowView {
    pub terms: Seq<TermView>,
    pub rhs: int,
}

impl View for Row {
    type V = RowView;

    open spec fn view(&self) -> RowView {
        RowView { terms: views(self.terms@), rhs: self.rhs as int }
    }
}

/// A minimisation over 0/1 variables, one for each entry of `objective`.
#[derive(Debug)]
pub struct IlpModel {
    pub objective: Vec<Price>,
    /// Rows whose terms sum to exactly their right-hand side.
    pub exactly: Vec<Row>,
    /// Rows whose terms sum to at most their right-hand side.
    pub at_most: Vec<Row>,
}

pub struct IlpView {
    pub objective: Seq<Price>,
    pub exactly: Seq<RowView>,
    pub at_most: Seq<RowView>,
}

impl View for IlpModel {
    type V = IlpView;

    open spec fn view(&self) -> IlpView {
        IlpView {
            objective: self.objective@,
            exactly: views(self.exactly@),
            at_most: views(self.at_most@),
        }
    }
}

// ---- numbering of the variables ----

/// How many of the first `t` slots are open.
pub open spec fn open_before(open: Seq<bool>, t: nat) -> nat
    decreases t,
{
    if t == 0 {
        0
    } else {
        open_before(open, (t - 1) as nat) + if open[t - 1] {
            1nat
        } else {
            0nat
        }
    }
}

/// The number of start variables of the jobs before `j`.
pub open spec fn x_base(jobs: Seq<JobView>, j: nat) -> nat
    decreases j,
{
    if j == 0 {
        0
    } else {
        x_base(jobs, (j - 1) as nat) + open_before(jobs[j - 1].open, jobs[j - 1].open.len())
    }
}

/// The variable "job `j` starts at slot `t`", for a slot that is open to `j`.
pub open spec fn x_id(jobs: Seq<JobView>, j: int, t: int) -> int {
    (x_base(jobs, j as nat) + open_before(jobs[j].open, t as nat)) as int
}

/// The length of the longest job.
pub open spec fn longest(jobs: Seq<JobView>) -> nat
    decreases jobs.len(),
{
    if jobs.len() == 0 {
        0
    } else {
        let rest = longest(jobs.drop_last());
        if jobs.last().duration_slots > rest {
            jobs.last().duration_slots
        } else {
            rest
        }
    }
}

/// The length of the longest window that is modelled at slot `t` of `n`: no job is longer, and it
/// ends within the pool.
pub open spec fn width(n: nat, longest: nat, t: int) -> nat {
    if n - t < longest {
        (n - t) as nat
    } else {
        longest
    }
}

/// The number of window variables of the slots before `t`.
pub open spec fn w_base(n: nat, longest: nat, t: nat) -> nat
    decreases t,
{
    if t == 0 {
        0
    } else {
        w_base(n, longest, (t - 1) as nat) + width(n, longest, t - 1)
    }
}

/// The variable "the window at slot `t` is at least `d` slots long".
pub open spec fn w_id(jobs: Seq<JobView>, n: nat, t: int, d: int) -> int {
    x_base(jobs, jobs.len()) + w_base(n, longest(jobs), t as nat) + d - 1
}

// ---- the rows ----

/// The start variables of job `j` at the slots before `t`, each with coefficient 1.
pub open spec fn start_terms(jobs: Seq<JobView>, j: int, t: nat) -> Seq<TermView>
    decreases t,
{
    if t == 0 {
        Seq::empty()
    } else {
        let rest = start_terms(jobs, j, (t - 1) as nat);
        if jobs[j].open[t - 1] {
            rest.push(TermView { var: x_id(jobs, j, t - 1), coeff: 1 })
        } else {
            rest
        }
    }
}

/// Job `j` starts exactly once.
pub open spec fn start_row(jobs: Seq<JobView>, n: nat, j: int) -> RowView {
    RowView { terms: start_terms(jobs, j, n), rhs: 1 }
}

/// If job `j` starts at slot `t`, the window there is at least `d` slots long.
pub open spec fn cover_row(jobs: Seq<JobView>, n: nat, j: int, t: int, d: int) -> RowView {
    RowView {
        terms: seq![
            TermView { var: x_id(jobs, j, t), coeff: 1 },
            TermView { var: w_id(jobs, n, t, d), coeff: -1 },
        ],
        rhs: 0,
    }
}

/// The start variables at slot `t` of the jobs before `j` that are at least `d` slots long, each
/// with coefficient -1.
pub open spec fn holder_terms(jobs: Seq<JobView>, t: int, d: int, j: nat) -> Seq<TermView>
    decreases j,
{
    if j == 0 {
        Seq::empty()
    } else {
        let rest = holder_terms(jobs, t, d, (j - 1) as nat);
        if jobs[j - 1].duration_slots >= d && jobs[j - 1].open[t] {
            rest.push(TermView { var: x_id(jobs, j - 1, t), coeff: -1 })
        } else {
            rest
        }
    }
}

/// The window at slot `t` is `d` slots long only if a job that long starts there.
pub open spec fn holder_row(jobs: Seq<JobView>, n: nat, t: int, d: int) -> RowView {
    RowView {
        terms: seq![TermView { var: w_id(jobs, n, t, d), coeff: 1 }] + holder_terms(
            jobs,
            t,
            d,
            jobs.len(),
        ),
        rhs: 0,
    }
}

/// The cover rows of job `j` at slot `t` for the first `d` lengths.
pub open spec fn cover_rows_at(jobs: Seq<JobView>, n: nat, j: int, t: int, d: nat) -> Seq<RowView> {
    Seq::new(d, |k: int| cover_row(jobs, n, j, t, k + 1))
}

/// The cover rows of job `j` at the slots before `t`.
pub open spec fn cover_rows_of(jobs: Seq<JobView>, n: nat, j: int, t: nat) -> Seq<RowView>
    decreases t,
{
    if t == 0 {
        Seq::empty()
    } else {
        let rest = cover_rows_of(jobs, n, j, (t - 1) as nat);
        if jobs[j].open[t - 1] {
            rest + cover_rows_at(jobs, n, j, t - 1, jobs[j].duration_slots)
        } else {
            rest
        }
    }
}

/// The cover rows of the jobs before `j`.
pub open spec fn cover_rows(jobs: Seq<JobView>, n: nat, j: nat) -> Seq<RowView>
    decreases j,
{
    if j == 0 {
        Seq::empty()
    } else {
        cover_rows(jobs, n, (j - 1) as nat) + cover_rows_of(jobs, n, j - 1, n)
    }
}

/// The holder rows of slot `t` for the first `d` lengths.
pub open spec fn holder_rows_at(jobs: Seq<JobView>, n: nat, t: int, d: nat) -> Seq<RowView> {
    Seq::new(d, |k: int| holder_row(jobs, n, t, k + 1))
}

/// The holder rows of the slots before `t`.
pub open spec fn holder_rows(jobs: Seq<JobView>, n: nat, t: nat) -> Seq<RowView>
    decreases t,
{
    if t == 0 {
        Seq::empty()
    } else {
        holder_rows(jobs, n, (t - 1) as nat) + holder_rows_at(
            jobs,
            n,
            t - 1,
            width(n, longest(jobs), t - 1),
        )
    }
}

/// The objective's coefficients for the windows of the slots before `t`.
pub open spec fn window_prices(prices: Seq<Price>, longest: nat, t: nat) -> Seq<Price>
    decreases t,
{
    if t == 0 {
        Seq::empty()
    } else {
        window_prices(prices, longest, (t - 1) as nat) + prices.subrange(
            t - 1,
            t - 1 + width(prices.len(), longest, t - 1),
        )
    }
}

/// The program for `jobs` over slots that cost `prices`.
pub open spec fn placement_model(jobs: Seq<JobView>, prices: Seq<Price>) -> IlpView {
    let n = prices.len();
    IlpView {
        objective: Seq::new(x_base(jobs, jobs.len()), |i: int| free()) + window_prices(
            prices,
            longest(jobs),
            n,
        ),
        exactly: Seq::new(jobs.len(), |j: int| start_row(jobs, n, j)),
        at_most: cover_rows(jobs, n, jobs.len()) + holder_rows(jobs, n, n),
    }
}

/// A job has a length, fits in the pool wherever it may start, and may start somewhere.
pub open spec fn job_fits(job: JobView, n: nat) -> bool {
    &&& job.open.len() == n
    &&& 1 <= job.duration_slots <= n
    &&& forall|t: int| 0 <= t < n && job.open[t] ==> t + job.duration_slots <= n
    &&& exists|t: int| 0 <= t < n && job.open[t]
}

pub open spec fn jobs_fit(jobs: Seq<JobView>, n: nat) -> bool {
    forall|j: int| 0 <= j < jobs.len() ==> job_fits(#[trigger] jobs[j], n)
}

// ---- building the program ----

/// `ids` holds the number of each start variable, and `None` where there is none.
pub open spec fn numbers_starts(
    ids: Seq<Vec<Option<usize>>>,
    jobs: Seq<JobView>,
    n: nat,
) -> bool {
    &&& ids.len() == jobs.len()
    &&& forall|j: int| 0 <= j < jobs.len() ==> numbers_starts_of(#[trigger] ids[j]@, jobs, j, n)
}

/// `ids` holds the numbers of the start variables of job `j` at the slots before `t`.
pub open spec fn numbers_starts_of(
    ids: Seq<Option<usize>>,
    jobs: Seq<JobView>,
    j: int,
    t: nat,
) -> bool {
    &&& ids.len() == t
    &&& forall|k: int|
        0 <= k < t ==> match #[trigger] ids[k] {
            Some(id) => jobs[j].open[k] && id == x_id(jobs, j, k),
            None => !jobs[j].open[k],
        }
}

/// `ids` holds the number of each window variable of the slots before `t`.
pub open spec fn numbers_windows(
    ids: Seq<Vec<usize>>,
    jobs: Seq<JobView>,
    n: nat,
    t: nat,
) -> bool {
    &&& ids.len() == t
    &&& forall|k: int|
        0 <= k < t ==> (#[trigger] ids[k])@.len() == width(n, longest(jobs), k) && forall|d: int|
            1 <= d <= width(n, longest(jobs), k) ==> ids[k]@[d - 1] == w_id(jobs, n, k, d)
}

/// The length of the longest of `jobs`.
pub fn longest_job(jobs: &Vec<Job>) -> (r: usize)
    ensures
        r == longest(views(jobs@)),
{
    let mut best: usize = 0;
    for i in 0..jobs.len()
        invariant
            best == longest(views(jobs@).take(i as int)),
    {
        proof {
            assert(views(jobs@).take(i + 1).drop_last() =~= views(jobs@).take(i as int));
        }
        if jobs[i].duration_slots > best {
            best = jobs[i].duration_slots;
        }
    }
    proof {
        assert(views(jobs@).take(jobs@.len() as int) =~= views(jobs@));
    }
    best
}

/// Adds the start variables to the objective, where they cost nothing, and returns their numbers.
fn number_starts(jobs: &Vec<Job>, n: usize, objective: &mut Vec<Price>) -> (ids: Vec<
    Vec<Option<usize>>,
>)
    requires
        jobs_fit(views(jobs@), n as nat),
        old(objective)@.len() == 0,
    ensures
        numbers_starts(ids@, views(jobs@), n as nat),
        final(objective)@ == Seq::new(x_base(views(jobs@), jobs@.len()), |i: int| free()),
{
    let ghost jv = views(jobs@);
    let mut ids: Vec<Vec<Option<usize>>> = Vec::new();
    for j in 0..jobs.len()
        invariant
            jv == views(jobs@),
            jobs_fit(jv, n as nat),
            ids@.len() == j,
            forall|k: int| 0 <= k < j ==> numbers_starts_of(#[trigger] ids@[k]@, jv, k, n as nat),
            objective@ == Seq::new(x_base(jv, j as nat), |i: int| free()),
    {
        proof {
            assert(job_fits(jv[j as int], n as nat));
        }
        let mut row: Vec<Option<usize>> = Vec::new();
        for t in 0..n
            invariant
                jv == views(jobs@),
                j < jobs@.len(),
                jobs@[j as int].open@.len() == n,
                numbers_starts_of(row@, jv, j as int, t as nat),
                objective@ == Seq::new(
                    x_base(jv, j as nat) + open_before(jv[j as int].open, t as nat),
                    |i: int| free(),
                ),
        {
            if jobs[j].open[t] {
                row.push(Some(objective.len()));
                objective.push(Price { pence: 0, billionths: 0 });
            } else {
                row.push(None);
            }
        }
        ids.push(row);
    }
    ids
}

/// Adds the window variables to the objective, each at the price of the last slot it covers, and
/// returns their numbers.
fn number_windows(
    jobs: &Vec<Job>,
    prices: &Vec<Price>,
    longest_slots: usize,
    objective: &mut Vec<Price>,
) -> (ids: Vec<Vec<usize>>)
    requires
        longest_slots == longest(views(jobs@)),
        old(objective)@.len() == x_base(views(jobs@), jobs@.len()),
    ensures
        numbers_windows(ids@, views(jobs@), prices@.len(), prices@.len()),
        final(objective)@ == old(objective)@ + window_prices(
            prices@,
            longest_slots as nat,
            prices@.len(),
        ),
{
    let ghost jv = views(jobs@);
    let ghost before = objective@;
    let n: usize = prices.len();
    let mut ids: Vec<Vec<usize>> = Vec::new();
    for t in 0..n
        invariant
            n == prices@.len(),
            jv == views(jobs@),
            longest_slots == longest(jv),
            before.len() == x_base(jv, jobs@.len()),
            numbers_windows(ids@, jv, n as nat, t as nat),
            objective@ == before + window_prices(prices@, longest_slots as nat, t as nat),
            objective@.len() == before.len() + w_base(n as nat, longest_slots as nat, t as nat),
    {
        let span: usize = if n - t < longest_slots {
            n - t
        } else {
            longest_slots
        };
        let ghost start = objective@;
        let mut row: Vec<usize> = Vec::new();
        for k in 0..span
            invariant
                n == prices@.len(),
                t < n,
                span == width(n as nat, longest_slots as nat, t as int),
                jv == views(jobs@),
                longest_slots == longest(jv),
                row@.len() == k,
                start.len() == x_base(jv, jobs@.len()) + w_base(
                    n as nat,
                    longest_slots as nat,
                    t as nat,
                ),
                forall|d: int| 1 <= d <= k ==> row@[d - 1] == w_id(jv, n as nat, t as int, d),
                objective@ == start + prices@.subrange(t as int, t + k),
        {
            row.push(objective.len());
            objective.push(prices[t + k]);
            proof {
                assert(prices@.subrange(t as int, t + k + 1) =~= prices@.subrange(
                    t as int,
                    t + k,
                ).push(prices@[t + k]));
            }
        }
        ids.push(row);
        proof {
            assert(objective@ =~= before + window_prices(
                prices@,
                longest_slots as nat,
                (t + 1) as nat,
            ));
        }
    }
    ids
}

/// The rows "each job starts exactly once".
fn start_rows(jobs: &Vec<Job>, n: usize, x: &Vec<Vec<Option<usize>>>) -> (rows: Vec<Row>)
    requires
        numbers_starts(x@, views(jobs@), n as nat),
    ensures
        views(rows@) == Seq::new(jobs@.len(), |j: int| start_row(views(jobs@), n as nat, j)),
{
    let ghost jv = views(jobs@);
    let mut rows: Vec<Row> = Vec::new();
    for j in 0..jobs.len()
        invariant
            jv == views(jobs@),
            numbers_starts(x@, jv, n as nat),
            views(rows@) == Seq::new(j as nat, |k: int| start_row(jv, n as nat, k)),
    {
        let mut terms: Vec<Term> = Vec::new();
        proof {
            assert(numbers_starts_of(x@[j as int]@, jv, j as int, n as nat));
            assert(views(terms@) =~= start_terms(jv, j as int, 0));
        }
        for t in 0..n
            invariant
                jv == views(jobs@),
                j < jobs@.len(),
                x@.len() == jobs@.len(),
                numbers_starts_of(x@[j as int]@, jv, j as int, n as nat),
                views(terms@) == start_terms(jv, j as int, t as nat),
        {
            let ghost prior = terms@;
            if let Some(id) = x[j][t] {
                terms.push(Term { var: id, coeff: 1 });
                proof {
                    assert(views(terms@) =~= views(prior).push(terms@.last()@));
                }
            }
        }
        let ghost prior = rows@;
        rows.push(Row { terms, rhs: 1 });
        proof {
            assert(views(rows@) =~= views(prior).push(rows@.last()@));
            assert(views(rows@) =~= Seq::new((j + 1) as nat, |k: int| start_row(jv, n as nat, k)));
        }
    }
    rows
}

/// Adds the rows "the window is long enough for each job that starts at its slot".
fn add_cover_rows(
    jobs: &Vec<Job>,
    n: usize,
    x: &Vec<Vec<Option<usize>>>,
    w: &Vec<Vec<usize>>,
    rows: &mut Vec<Row>,
)
    requires
        jobs_fit(views(jobs@), n as nat),
        numbers_starts(x@, views(jobs@), n as nat),
        numbers_windows(w@, views(jobs@), n as nat, n as nat),
        old(rows)@.len() == 0,
    ensures
        views(final(rows)@) == cover_rows(views(jobs@), n as nat, jobs@.len()),
{
    let ghost jv = views(jobs@);
    for j in 0..jobs.len()
        invariant
            jv == views(jobs@),
            jobs_fit(jv, n as nat),
            numbers_starts(x@, jv, n as nat),
            numbers_windows(w@, jv, n as nat, n as nat),
            views(rows@) == cover_rows(jv, n as nat, j as nat),
    {
        let ghost before_job = views(rows@);
        proof {
            assert(job_fits(jv[j as int], n as nat));
            assert(numbers_starts_of(x@[j as int]@, jv, j as int, n as nat));
            lemma_longest_bounds(jv, j as int);
            assert(views(rows@) =~= before_job + cover_rows_of(jv, n as nat, j as int, 0));
        }
        for t in 0..n
            invariant
                jv == views(jobs@),
                j < jobs@.len(),
                x@.len() == jobs@.len(),
                job_fits(jv[j as int], n as nat),
                jv[j as int].duration_slots <= longest(jv),
                numbers_starts_of(x@[j as int]@, jv, j as int, n as nat),
                numbers_windows(w@, jv, n as nat, n as nat),
                views(rows@) == before_job + cover_rows_of(jv, n as nat, j as int, t as nat),
        {
            if let Some(start) = x[j][t] {
                let ghost before_slot = views(rows@);
                let span: usize = jobs[j].duration_slots;
                proof {
                    assert(w@[t as int]@.len() == width(n as nat, longest(jv), t as int));
                    assert(views(rows@) =~= before_slot + cover_rows_at(
                        jv,
                        n as nat,
                        j as int,
                        t as int,
                        0,
                    ));
                }
                for k in 0..span
                    invariant
                        jv == views(jobs@),
                        j < jobs@.len(),
                        t < n,
                        start == x_id(jv, j as int, t as int),
                        w@.len() == n,
                        span <= w@[t as int]@.len(),
                        numbers_windows(w@, jv, n as nat, n as nat),
                        views(rows@) == before_slot + cover_rows_at(
                            jv,
                            n as nat,
                            j as int,
                            t as int,
                            k as nat,
                        ),
                {
                    let ghost prior = rows@;
                    let window: usize = w[t][k];
                    proof {
                        assert(w@[t as int]@[(k + 1) - 1] == w_id(
                            jv,
                            n as nat,
                            t as int,
                            k + 1,
                        ));
                    }
                    let mut terms: Vec<Term> = Vec::new();
                    terms.push(Term { var: start, coeff: 1 });
                    terms.push(Term { var: window, coeff: -1 });
                    rows.push(Row { terms, rhs: 0 });
                    proof {
                        let row = cover_row(jv, n as nat, j as int, t as int, k + 1);
                        assert(rows@.last()@.terms =~= row.terms);
                        assert(rows@.last()@ == row);
                        assert(views(rows@) =~= views(prior).push(row));
                        assert(views(rows@) =~= before_slot + cover_rows_at(
                            jv,
                            n as nat,
                            j as int,
                            t as int,
                            (k + 1) as nat,
                        ));
                    }
                }
            }
            proof {
                assert(views(rows@) =~= before_job + cover_rows_of(
                    jv,
                    n as nat,
                    j as int,
                    (t + 1) as nat,
                ));
            }
        }
    }
}

/// Adds the rows "a window is only as long as a job that starts at its slot".
fn add_holder_rows(
    jobs: &Vec<Job>,
    n: usize,
    x: &Vec<Vec<Option<usize>>>,
    w: &Vec<Vec<usize>>,
    rows: &mut Vec<Row>,
)
    requires
        jobs_fit(views(jobs@), n as nat),
        numbers_starts(x@, views(jobs@), n as nat),
        numbers_windows(w@, views(jobs@), n as nat, n as nat),
    ensures
        views(final(rows)@) == views(old(rows)@) + holder_rows(
            views(jobs@),
            n as nat,
            n as nat,
        ),
{
    let ghost jv = views(jobs@);
    let ghost before = views(rows@);
    proof {
        assert(views(rows@) =~= before + holder_rows(jv, n as nat, 0));
    }
    for t in 0..n
        invariant
            jv == views(jobs@),
            jobs_fit(jv, n as nat),
            numbers_starts(x@, jv, n as nat),
            numbers_windows(w@, jv, n as nat, n as nat),
            views(rows@) == before + holder_rows(jv, n as nat, t as nat),
    {
        let ghost before_slot = views(rows@);
        let span: usize = w[t].len();
        proof {
            assert(w@[t as int]@.len() == width(n as nat, longest(jv), t as int));
            assert(views(rows@) =~= before_slot + holder_rows_at(jv, n as nat, t as int, 0));
        }
        for k in 0..span
            invariant
                jv == views(jobs@),
                t < n,
                jobs_fit(jv, n as nat),
                w@.len() == n,
                span == w@[t as int]@.len(),
                numbers_starts(x@, jv, n as nat),
                numbers_windows(w@, jv, n as nat, n as nat),
                views(rows@) == before_slot + holder_rows_at(
                    jv,
                    n as nat,
                    t as int,
                    k as nat,
                ),
        {
            let ghost prior = rows@;
            let window: usize = w[t][k];
            let mut terms: Vec<Term> = Vec::new();
            terms.push(Term { var: window, coeff: 1 });
            let ghost head = views(terms@);
            proof {
                assert(w@[t as int]@[(k + 1) - 1] == w_id(jv, n as nat, t as int, k + 1));
                assert(head =~= seq![
                    TermView { var: w_id(jv, n as nat, t as int, k + 1), coeff: 1 },
                ]);
                assert(views(terms@) =~= head + holder_terms(jv, t as int, k + 1, 0));
            }
            for j in 0..jobs.len()
                invariant
                    jv == views(jobs@),
                    t < n,
                    k < span,
                    span == w@[t as int]@.len(),
                    w@.len() == n,
                    jobs_fit(jv, n as nat),
                    numbers_starts(x@, jv, n as nat),
                    views(terms@) == head + holder_terms(jv, t as int, k + 1, j as nat),
            {
                let ghost prior_terms = terms@;
                proof {
                    assert(job_fits(jv[j as int], n as nat));
                    assert(numbers_starts_of(x@[j as int]@, jv, j as int, n as nat));
                }
                if jobs[j].duration_slots > k {
                    if let Some(start) = x[j][t] {
                        terms.push(Term { var: start, coeff: -1 });
                        proof {
                            assert(views(terms@) =~= views(prior_terms).push(terms@.last()@));
                        }
                    }
                }
                proof {
                    assert(views(terms@) =~= head + holder_terms(
                        jv,
                        t as int,
                        k + 1,
                        (j + 1) as nat,
                    ));
                }
            }
            rows.push(Row { terms, rhs: 0 });
            proof {
                let row = holder_row(jv, n as nat, t as int, k + 1);
                assert(rows@.last()@.terms =~= row.terms);
                assert(rows@.last()@ == row);
                assert(views(rows@) =~= views(prior).push(row));
                assert(views(rows@) =~= before_slot + holder_rows_at(
                    jv,
                    n as nat,
                    t as int,
                    (k + 1) as nat,
                ));
            }
        }
        proof {
            assert(views(rows@) =~= before + holder_rows(jv, n as nat, (t + 1) as nat));
        }
    }
}

/// No job is longer than the longest.
pub proof fn lemma_longest_bounds(jobs: Seq<JobView>, j: int)
    requires
        0 <= j < jobs.len(),
    ensures
        jobs[j].duration_slots <= longest(jobs),
    decreases jobs.len(),
{
    if j < jobs.len() - 1 {
        lemma_longest_bounds(jobs.drop_last(), j);
    }
}

/// The program that places `jobs` over slots that cost `prices`.
pub fn build_model(jobs: &Vec<Job>, prices: &Vec<Price>) -> (model: IlpModel)
    requires
        jobs_fit(views(jobs@), prices@.len()),
    ensures
        model@ == placement_model(views(jobs@), prices@),
{
    let n: usize = prices.len();
    let mut objective: Vec<Price> = Vec::new();
    let x = number_starts(jobs, n, &mut objective);
    let span: usize = longest_job(jobs);
    let w = number_windows(jobs, prices, span, &mut objective);
    let exactly = start_rows(jobs, n, &x);
    let mut at_most: Vec<Row> = Vec::new();
    add_cover_rows(jobs, n, &x, &w, &mut at_most);
    add_holder_rows(jobs, n, &x, &w, &mut at_most);
    IlpModel { objective, exactly, at_most }
}

} // verus!
