//! The solver behind the planner, and how its answer is read.

use good_lp::constraint::{eq, leq};
use good_lp::{default_solver, variable, Expression, ProblemVariables, Solution, SolverModel};
use std::iter::Sum;
use vstd::prelude::*;

use crate::ilp::{
    build_model, cover_row, cover_rows, cover_rows_of, holder_row, holder_rows, holder_terms,
    job_fits, jobs_fit, lemma_longest_bounds, open_before, placement_model, start_row, start_terms,
    x_base, x_id, IlpView, Job, JobView, Row, RowView, Term,
};
use crate::placement::{
    feasible, law_each_job_starts_exactly_once, lemma_open_before_monotone, lemma_w_id_range,
    lemma_x_base_monotone, lemma_x_id_range, placement_at, starts_at,
};
use crate::seqs::views;
use crate::types::{Price, UNITS_PER_PENNY};

verus! {

/// The bit pattern of 0.5.
pub const HALF_BITS: u64 = 0x3FE0_0000_0000_0000;

/// The bit pattern of positive infinity, above which only NaNs and negative numbers lie.
pub const INFINITY_BITS: u64 = 0x7FF0_0000_0000_0000;

/// The bits are those of an IEEE 754 double above 0.5.
pub open spec fn reads_as_one(bits: u64) -> bool {
    HALF_BITS < bits <= INFINITY_BITS
}

/// The 0/1 point that a solver's answer stands for.
pub open spec fn answered_point(answer: Seq<u64>) -> Seq<int> {
    Seq::new(
        answer.len(),
        |i: int|
            if reads_as_one(answer[i]) {
                1int
            } else {
                0int
            },
    )
}

/// A row over the first `n` variables, with coefficients 1 and -1 and a right-hand side of 0 or 1.
pub open spec fn row_is_unit(row: RowView, n: nat) -> bool {
    &&& row.rhs == 0 || row.rhs == 1
    &&& forall|i: int|
        0 <= i < row.terms.len() ==> 0 <= (#[trigger] row.terms[i]).var < n && (
        row.terms[i].coeff == 1 || row.terms[i].coeff == -1)
}

/// A program with at least one variable and unit rows only.
pub open spec fn is_unit_program(model: IlpView) -> bool {
    &&& model.objective.len() > 0
    &&& forall|i: int|
        0 <= i < model.exactly.len() ==> row_is_unit(
            #[trigger] model.exactly[i],
            model.objective.len(),
        )
    &&& forall|i: int|
        0 <= i < model.at_most.len() ==> row_is_unit(
            #[trigger] model.at_most[i],
            model.objective.len(),
        )
}

/// What the solver answers for a program: the values of its variables, as the bit patterns of
/// doubles, or its error's text.
pub uninterp spec fn solver_answer(model: IlpView) -> Result<Seq<u64>, Seq<char>>;

/// The program with these objective terms, in whole pence and in billionths of a penny, and these
/// rows.
pub open spec fn program_of(
    whole: Seq<Term>,
    part: Seq<Term>,
    exactly: Seq<Row>,
    at_most: Seq<Row>,
) -> IlpView {
    IlpView {
        objective: Seq::new(
            whole.len(),
            |i: int| Price { pence: whole[i].coeff, billionths: part[i].coeff },
        ),
        exactly: views(exactly),
        at_most: views(at_most),
    }
}

/// The terms have one variable each, in the variables' order.
pub open spec fn are_numbered(terms: Seq<Term>) -> bool {
    forall|i: int| 0 <= i < terms.len() ==> (#[trigger] terms[i]).var == i
}

/// Minimises a program with `good_lp`'s default solver (`SolverModel::solve`). A variable costs its
/// coefficient in `whole` and its coefficient in `part` divided by `units`.
///
/// The answer depends on the program alone. Where it is a solution, its values are 0 or 1 and meet
/// every row: the solver rounds the values of integer variables and accepts a rounded point only
/// after testing every bound and row on it, with a tolerance far below the distance between
/// integers. That no feasible point is cheaper is left unsaid: the solver searches for a cheapest
/// one in floating point, and its authors do not promise that it always finds one.
#[verifier::external_body]
fn solve(
    whole: &Vec<Term>,
    part: &Vec<Term>,
    units: i32,
    exactly: &Vec<Row>,
    at_most: &Vec<Row>,
) -> (answer: Result<Vec<u64>, String>)
    requires
        whole@.len() == part@.len(),
        are_numbered(whole@),
        are_numbered(part@),
        units == UNITS_PER_PENNY,
        is_unit_program(program_of(whole@, part@, exactly@, at_most@)),
    ensures
        solver_answer(program_of(whole@, part@, exactly@, at_most@)) == (match answer {
            Ok(values) => Ok::<Seq<u64>, Seq<char>>(values@),
            Err(error) => Err(error@),
        }),
        answer matches Ok(values) ==> feasible(
            program_of(whole@, part@, exactly@, at_most@),
            answered_point(values@),
        ),
{
    let mut vars = ProblemVariables::default();
    let x = vars.add_vector(variable().binary(), whole.len());
    let sum = |terms: &[Term]| Expression::sum(terms.iter().map(|t| x[t.var] * t.coeff));
    default_solver(vars.minimise(sum(whole) + sum(part) / units))
        .with_all(exactly.iter().map(|row| eq(sum(&row.terms), row.rhs)))
        .with_all(at_most.iter().map(|row| leq(sum(&row.terms), row.rhs)))
        .solve()
        .map(|answer| x.iter().map(|v| answer.value(*v).to_bits()).collect())
        .map_err(|error| error.to_string())
}

// ---- the placement program is a unit program ----

proof fn lemma_start_terms_unit(jobs: Seq<JobView>, n: nat, j: int, t: nat)
    requires
        jobs_fit(jobs, n),
        0 <= j < jobs.len(),
        t <= n,
    ensures
        forall|i: int|
            0 <= i < start_terms(jobs, j, t).len() ==> 0 <= (#[trigger] start_terms(
                jobs,
                j,
                t,
            )[i]).var < x_base(jobs, jobs.len()) && start_terms(jobs, j, t)[i].coeff == 1,
    decreases t,
{
    if t > 0 {
        let rest = start_terms(jobs, j, (t - 1) as nat);
        let all = start_terms(jobs, j, t);
        lemma_start_terms_unit(jobs, n, j, (t - 1) as nat);
        if jobs[j].open[t - 1] {
            lemma_x_id_range(jobs, n, j, t - 1);
        }
        assert forall|i: int| 0 <= i < all.len() implies 0 <= (#[trigger] all[i]).var < x_base(
            jobs,
            jobs.len(),
        ) && all[i].coeff == 1 by {
            if i < rest.len() {
                assert(all[i] == rest[i]);
            }
        }
    }
}

proof fn lemma_holder_terms_unit(jobs: Seq<JobView>, n: nat, t: int, d: int, j: nat)
    requires
        jobs_fit(jobs, n),
        0 <= t < n,
        j <= jobs.len(),
    ensures
        forall|i: int|
            0 <= i < holder_terms(jobs, t, d, j).len() ==> 0 <= (#[trigger] holder_terms(
                jobs,
                t,
                d,
                j,
            )[i]).var < x_base(jobs, jobs.len()) && holder_terms(jobs, t, d, j)[i].coeff == -1,
    decreases j,
{
    if j > 0 {
        let rest = holder_terms(jobs, t, d, (j - 1) as nat);
        let all = holder_terms(jobs, t, d, j);
        lemma_holder_terms_unit(jobs, n, t, d, (j - 1) as nat);
        if jobs[j - 1].duration_slots >= d && jobs[j - 1].open[t] {
            lemma_x_id_range(jobs, n, j - 1, t);
        }
        assert forall|i: int| 0 <= i < all.len() implies 0 <= (#[trigger] all[i]).var < x_base(
            jobs,
            jobs.len(),
        ) && all[i].coeff == -1 by {
            if i < rest.len() {
                assert(all[i] == rest[i]);
            }
        }
    }
}

spec fn rows_are_unit(rows: Seq<RowView>, n: nat) -> bool {
    forall|i: int| 0 <= i < rows.len() ==> row_is_unit(#[trigger] rows[i], n)
}

proof fn lemma_cover_rows_of_unit(jobs: Seq<JobView>, prices: Seq<Price>, j: int, k: nat)
    requires
        jobs_fit(jobs, prices.len()),
        0 <= j < jobs.len(),
        k <= prices.len(),
    ensures
        rows_are_unit(
            cover_rows_of(jobs, prices.len(), j, k),
            placement_model(jobs, prices).objective.len(),
        ),
    decreases k,
{
    let n = prices.len();
    let size = placement_model(jobs, prices).objective.len();
    if k > 0 {
        let rest = cover_rows_of(jobs, n, j, (k - 1) as nat);
        let all = cover_rows_of(jobs, n, j, k);
        lemma_cover_rows_of_unit(jobs, prices, j, (k - 1) as nat);
        assert forall|i: int| 0 <= i < all.len() implies row_is_unit(#[trigger] all[i], size) by {
            if i < rest.len() {
                assert(all[i] == rest[i]);
            } else {
                let d = i - rest.len() + 1;
                assert(all[i] == cover_row(jobs, n, j, k - 1, d));
                assert(job_fits(jobs[j], n));
                lemma_longest_bounds(jobs, j);
                lemma_x_id_range(jobs, n, j, k - 1);
                lemma_w_id_range(jobs, prices, k - 1, d);
            }
        }
    }
}

proof fn lemma_cover_rows_unit(jobs: Seq<JobView>, prices: Seq<Price>, k: nat)
    requires
        jobs_fit(jobs, prices.len()),
        k <= jobs.len(),
    ensures
        rows_are_unit(
            cover_rows(jobs, prices.len(), k),
            placement_model(jobs, prices).objective.len(),
        ),
    decreases k,
{
    let n = prices.len();
    let size = placement_model(jobs, prices).objective.len();
    if k > 0 {
        let rest = cover_rows(jobs, n, (k - 1) as nat);
        let own = cover_rows_of(jobs, n, k - 1, n);
        let all = cover_rows(jobs, n, k);
        lemma_cover_rows_unit(jobs, prices, (k - 1) as nat);
        lemma_cover_rows_of_unit(jobs, prices, k - 1, n);
        assert forall|i: int| 0 <= i < all.len() implies row_is_unit(#[trigger] all[i], size) by {
            if i < rest.len() {
                assert(all[i] == rest[i]);
            } else {
                assert(all[i] == own[i - rest.len()]);
            }
        }
    }
}

proof fn lemma_holder_rows_unit(jobs: Seq<JobView>, prices: Seq<Price>, k: nat)
    requires
        jobs_fit(jobs, prices.len()),
        k <= prices.len(),
    ensures
        rows_are_unit(
            holder_rows(jobs, prices.len(), k),
            placement_model(jobs, prices).objective.len(),
        ),
    decreases k,
{
    let n = prices.len();
    let size = placement_model(jobs, prices).objective.len();
    if k > 0 {
        let rest = holder_rows(jobs, n, (k - 1) as nat);
        let all = holder_rows(jobs, n, k);
        lemma_holder_rows_unit(jobs, prices, (k - 1) as nat);
        assert forall|i: int| 0 <= i < all.len() implies row_is_unit(#[trigger] all[i], size) by {
            if i < rest.len() {
                assert(all[i] == rest[i]);
            } else {
                let d = i - rest.len() + 1;
                let row = holder_row(jobs, n, k - 1, d);
                assert(all[i] == row);
                lemma_w_id_range(jobs, prices, k - 1, d);
                lemma_holder_terms_unit(jobs, n, k - 1, d, jobs.len());
                assert forall|m: int| 0 <= m < row.terms.len() implies 0 <= (
                #[trigger] row.terms[m]).var < size && (row.terms[m].coeff == 1
                    || row.terms[m].coeff == -1) by {
                    if m > 0 {
                        assert(row.terms[m] == holder_terms(jobs, k - 1, d, jobs.len())[m - 1]);
                    }
                }
            }
        }
    }
}

proof fn lemma_placement_model_unit(jobs: Seq<JobView>, prices: Seq<Price>)
    requires
        jobs_fit(jobs, prices.len()),
        jobs.len() > 0,
    ensures
        is_unit_program(placement_model(jobs, prices)),
{
    let n = prices.len();
    let model = placement_model(jobs, prices);
    let size = model.objective.len();
    let covers = cover_rows(jobs, n, jobs.len());
    let holds = holder_rows(jobs, n, n);
    assert(job_fits(jobs[0], n));
    let t = choose|t: int| 0 <= t < n && jobs[0].open[t];
    lemma_x_id_range(jobs, n, 0, t);
    assert forall|i: int| 0 <= i < model.exactly.len() implies row_is_unit(
        #[trigger] model.exactly[i],
        size,
    ) by {
        assert(model.exactly[i] == start_row(jobs, n, i));
        lemma_start_terms_unit(jobs, n, i, n);
    }
    lemma_cover_rows_unit(jobs, prices, jobs.len());
    lemma_holder_rows_unit(jobs, prices, n);
    assert forall|i: int| 0 <= i < model.at_most.len() implies row_is_unit(
        #[trigger] model.at_most[i],
        size,
    ) by {
        if i < covers.len() {
            assert(model.at_most[i] == covers[i]);
        } else {
            assert(model.at_most[i] == holds[i - covers.len()]);
        }
    }
}

// ---- placing jobs ----

/// What the solver answers for the placement program of `jobs` over slots that cost `prices`.
pub fn solve_placement(jobs: &Vec<Job>, prices: &Vec<Price>) -> (answer: Result<Vec<u64>, String>)
    requires
        jobs_fit(views(jobs@), prices@.len()),
        jobs@.len() > 0,
    ensures
        solver_answer(placement_model(views(jobs@), prices@)) == (match answer {
            Ok(values) => Ok::<Seq<u64>, Seq<char>>(values@),
            Err(error) => Err(error@),
        }),
        answer matches Ok(values) ==> feasible(
            placement_model(views(jobs@), prices@),
            answered_point(values@),
        ),
{
    let model = build_model(jobs, prices);
    let mut whole: Vec<Term> = Vec::new();
    let mut part: Vec<Term> = Vec::new();
    for i in 0..model.objective.len()
        invariant
            whole@.len() == i,
            part@.len() == i,
            are_numbered(whole@),
            are_numbered(part@),
            forall|k: int|
                0 <= k < i ==> (#[trigger] whole@[k]).coeff == model.objective@[k].pence,
            forall|k: int|
                0 <= k < i ==> (#[trigger] part@[k]).coeff == model.objective@[k].billionths,
    {
        whole.push(Term { var: i, coeff: model.objective[i].pence });
        part.push(Term { var: i, coeff: model.objective[i].billionths });
    }
    proof {
        assert(program_of(whole@, part@, model.exactly@, model.at_most@).objective
            =~= model@.objective);
        lemma_placement_model_unit(views(jobs@), prices@);
    }
    solve(&whole, &part, UNITS_PER_PENNY, &model.exactly, &model.at_most)
}

/// The first slot from `t` on that the answer starts job `j` at.
pub open spec fn first_start(
    jobs: Seq<JobView>,
    n: nat,
    answer: Seq<u64>,
    j: int,
    t: nat,
) -> Option<int>
    decreases n - t,
{
    if t >= n {
        None
    } else if jobs[j].open[t as int] && reads_as_one(answer[x_id(jobs, j, t as int)]) {
        Some(t as int)
    } else {
        first_start(jobs, n, answer, j, t + 1)
    }
}

/// The slot that the answer starts each job at, or `None` where it starts the job nowhere.
pub fn read_starts(jobs: &Vec<Job>, n: usize, answer: &Vec<u64>) -> (starts: Vec<Option<usize>>)
    requires
        jobs_fit(views(jobs@), n as nat),
        x_base(views(jobs@), jobs@.len()) <= answer@.len(),
    ensures
        starts@.len() == jobs@.len(),
        forall|j: int|
            0 <= j < jobs@.len() ==> match #[trigger] starts@[j] {
                Some(t) => t < n && first_start(views(jobs@), n as nat, answer@, j, 0) == Some(
                    t as int,
                ),
                None => first_start(views(jobs@), n as nat, answer@, j, 0) is None,
            },
{
    let ghost jv = views(jobs@);
    let size: usize = answer.len();
    let mut starts: Vec<Option<usize>> = Vec::new();
    let mut base: usize = 0;
    for j in 0..jobs.len()
        invariant
            jv == views(jobs@),
            jobs_fit(jv, n as nat),
            size == answer@.len(),
            x_base(jv, jobs@.len()) <= size,
            base == x_base(jv, j as nat),
            starts@.len() == j,
            forall|k: int|
                0 <= k < j ==> match #[trigger] starts@[k] {
                    Some(t) => t < n && first_start(jv, n as nat, answer@, k, 0) == Some(t as int),
                    None => first_start(jv, n as nat, answer@, k, 0) is None,
                },
    {
        proof {
            assert(job_fits(jv[j as int], n as nat));
            lemma_x_base_monotone(jv, (j + 1) as nat, jobs@.len());
        }
        let mut id: usize = base;
        let mut found: Option<usize> = None;
        for t in 0..n
            invariant
                jv == views(jobs@),
                j < jobs@.len(),
                jobs@[j as int].open@.len() == n,
                size == answer@.len(),
                x_base(jv, j as nat) + open_before(jv[j as int].open, n as nat) <= size,
                id == x_base(jv, j as nat) + open_before(jv[j as int].open, t as nat),
                match found {
                    Some(at) => at < n && first_start(jv, n as nat, answer@, j as int, 0) == Some(
                        at as int,
                    ),
                    None => first_start(jv, n as nat, answer@, j as int, 0) == first_start(
                        jv,
                        n as nat,
                        answer@,
                        j as int,
                        t as nat,
                    ),
                },
        {
            proof {
                lemma_open_before_monotone(jv[j as int].open, t as nat, n as nat);
                lemma_open_before_monotone(jv[j as int].open, (t + 1) as nat, n as nat);
            }
            if jobs[j].open[t] {
                if found.is_none() && HALF_BITS < answer[id] && answer[id] <= INFINITY_BITS {
                    found = Some(t);
                }
                id = id + 1;
            }
        }
        base = id;
        starts.push(found);
    }
    starts
}

/// Where the solver answers with values, every job is started, in the slot of the placement that
/// the values stand for.
pub proof fn law_solution_starts_every_job(
    jobs: Seq<JobView>,
    prices: Seq<Price>,
    answer: Seq<u64>,
    j: int,
)
    requires
        jobs_fit(jobs, prices.len()),
        feasible(placement_model(jobs, prices), answered_point(answer)),
        0 <= j < jobs.len(),
    ensures
        first_start(jobs, prices.len(), answer, j, 0) == Some(
            placement_at(jobs, prices.len(), answered_point(answer))[j],
        ),
{
    law_each_job_starts_exactly_once(jobs, prices, answered_point(answer));
    let s = placement_at(jobs, prices.len(), answered_point(answer));
    assert(0 <= s[j] < prices.len());
    lemma_first_start(jobs, prices, answer, j, 0, s[j]);
}

proof fn lemma_first_start(
    jobs: Seq<JobView>,
    prices: Seq<Price>,
    answer: Seq<u64>,
    j: int,
    t: nat,
    start: int,
)
    requires
        jobs_fit(jobs, prices.len()),
        feasible(placement_model(jobs, prices), answered_point(answer)),
        0 <= j < jobs.len(),
        t <= start < prices.len(),
        forall|k: int|
            0 <= k < prices.len() ==> (#[trigger] starts_at(jobs, answered_point(answer), j, k)
                <==> k == start),
    ensures
        first_start(jobs, prices.len(), answer, j, t) == Some(start),
    decreases start - t,
{
    let p = answered_point(answer);
    assert(starts_at(jobs, p, j, t as int) <==> t == start);
    if jobs[j].open[t as int] {
        lemma_x_id_range(jobs, prices.len(), j, t as int);
    }
    if t < start {
        lemma_first_start(jobs, prices, answer, j, t + 1, start);
    }
}

/// A value counts as one where its bits are above those of 0.5 and at most those of infinity, and as
/// zero otherwise; every value of an answer is read.
pub proof fn law_values_above_a_half_are_ones(answer: Seq<u64>, i: int)
    requires
        0 <= i < answer.len(),
    ensures
        answered_point(answer).len() == answer.len(),
        0x3fe0_0000_0000_0000 < answer[i] <= 0x7ff0_0000_0000_0000 ==> answered_point(answer)[i]
            == 1,
        !(0x3fe0_0000_0000_0000 < answer[i] <= 0x7ff0_0000_0000_0000) ==> answered_point(
            answer,
        )[i] == 0,
{
}

/// An answer starts a job in the first slot that is open to it and whose variable counts as one, and
/// nowhere where there is none.
pub proof fn law_job_starts_where_the_answer_says(
    jobs: Seq<JobView>,
    n: nat,
    answer: Seq<u64>,
    j: int,
    at: int,
)
    requires
        0 <= at < n,
    ensures
        first_start(jobs, n, answer, j, 0) == Some(at) <==> is_started_at(jobs, answer, j, at)
            && forall|t: int| 0 <= t < at ==> !#[trigger] is_started_at(jobs, answer, j, t),
        first_start(jobs, n, answer, j, 0) is None <==> forall|t: int|
            0 <= t < n ==> !#[trigger] is_started_at(jobs, answer, j, t),
{
    lemma_first_start_is_first(jobs, n, answer, j, 0);
    if is_started_at(jobs, answer, j, at) && (forall|t: int|
        0 <= t < at ==> !#[trigger] is_started_at(jobs, answer, j, t)) {
        if let Some(first) = first_start(jobs, n, answer, j, 0) {
            assert(is_started_at(jobs, answer, j, first));
        }
    }
}

/// Slot `t` is open to job `j`, and its variable counts as one.
pub open spec fn is_started_at(jobs: Seq<JobView>, answer: Seq<u64>, j: int, t: int) -> bool {
    jobs[j].open[t] && 0x3fe0_0000_0000_0000 < answer[x_id(jobs, j, t)] <= 0x7ff0_0000_0000_0000
}

proof fn lemma_first_start_is_first(
    jobs: Seq<JobView>,
    n: nat,
    answer: Seq<u64>,
    j: int,
    from: nat,
)
    requires
        from <= n,
    ensures
        first_start(jobs, n, answer, j, from) matches Some(first) ==> from <= first < n
            && is_started_at(jobs, answer, j, first) && forall|t: int|
            from <= t < first ==> !#[trigger] is_started_at(jobs, answer, j, t),
        first_start(jobs, n, answer, j, from) is None ==> forall|t: int|
            from <= t < n ==> !#[trigger] is_started_at(jobs, answer, j, t),
    decreases n - from,
{
    if from < n {
        lemma_first_start_is_first(jobs, n, answer, j, from + 1);
        if !is_started_at(jobs, answer, j, from as int) {
            assert(first_start(jobs, n, answer, j, from) == first_start(
                jobs,
                n,
                answer,
                j,
                from + 1,
            ));
        }
    }
}

} // verus!
