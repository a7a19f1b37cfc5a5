//! What the 0/1 program means: placements of jobs in slots, and what they cost.

use vstd::prelude::*;

use crate::ilp::{
    cover_row, cover_rows, cover_rows_of, holder_row, holder_rows, holder_terms, job_fits, jobs_fit,
    lemma_longest_bounds, longest, open_before, placement_model, start_row, start_terms, w_base,
    w_id, width, window_prices, x_base, x_id, IlpView, JobView, RowView, TermView,
};
use crate::types::Price;

verus! {

// ---- points of a program ----

/// The value of a row's terms at the point `p`.
pub open spec fn row_value(terms: Seq<TermView>, p: Seq<int>) -> int
    decreases terms.len(),
{
    if terms.len() == 0 {
        0
    } else {
        row_value(terms.drop_last(), p) + terms.last().coeff * p[terms.last().var]
    }
}

/// The value of the first `i` addends of an objective at the point `p`.
pub open spec fn weighted_sum(objective: Seq<Price>, p: Seq<int>, i: nat) -> int
    decreases i,
{
    if i == 0 {
        0
    } else {
        weighted_sum(objective, p, (i - 1) as nat) + objective[i - 1].value() * p[i - 1]
    }
}

/// The value of a program's objective at the point `p`.
pub open spec fn objective_value(model: IlpView, p: Seq<int>) -> int {
    weighted_sum(model.objective, p, model.objective.len())
}

/// The point `p` is 0/1 valued and meets every row.
pub open spec fn feasible(model: IlpView, p: Seq<int>) -> bool {
    &&& p.len() == model.objective.len()
    &&& forall|i: int| 0 <= i < p.len() ==> #[trigger] p[i] == 0 || p[i] == 1
    &&& forall|i: int|
        0 <= i < model.exactly.len() ==> row_value((#[trigger] model.exactly[i]).terms, p)
            == model.exactly[i].rhs
    &&& forall|i: int|
        0 <= i < model.at_most.len() ==> row_value((#[trigger] model.at_most[i]).terms, p)
            <= model.at_most[i].rhs
}

/// No feasible point has a smaller objective value than the feasible point `p`.
pub open spec fn minimises(model: IlpView, p: Seq<int>) -> bool {
    &&& feasible(model, p)
    &&& forall|q: Seq<int>| #[trigger]
        feasible(model, q) ==> objective_value(model, p) <= objective_value(model, q)
}

// ---- placements ----

/// Job `j` starts at slot `t` at the point `p`.
pub open spec fn starts_at(jobs: Seq<JobView>, p: Seq<int>, j: int, t: int) -> bool {
    jobs[j].open[t] && p[x_id(jobs, j, t)] == 1
}

/// `s` gives each job one of the slots that are open to it.
pub open spec fn valid_placement(jobs: Seq<JobView>, n: nat, s: Seq<int>) -> bool {
    &&& s.len() == jobs.len()
    &&& forall|j: int| 0 <= j < jobs.len() ==> 0 <= #[trigger] s[j] < n && jobs[j].open[s[j]]
}

/// The length of the window at slot `t`: that of the longest of the first `j` jobs that `s` starts
/// there, or 0.
pub open spec fn window_len(jobs: Seq<JobView>, s: Seq<int>, t: int, j: nat) -> nat
    decreases j,
{
    if j == 0 {
        0
    } else {
        let rest = window_len(jobs, s, t, (j - 1) as nat);
        if s[j - 1] == t && jobs[j - 1].duration_slots > rest {
            jobs[j - 1].duration_slots
        } else {
            rest
        }
    }
}

/// What `len` slots from slot `t` on cost.
pub open spec fn block_cost(prices: Seq<Price>, t: int, len: nat) -> int
    decreases len,
{
    if len == 0 {
        0
    } else {
        block_cost(prices, t, (len - 1) as nat) + prices[t + len - 1].value()
    }
}

/// What the windows of the slots before `t` cost.
pub open spec fn cost_before(jobs: Seq<JobView>, prices: Seq<Price>, s: Seq<int>, t: nat) -> int
    decreases t,
{
    if t == 0 {
        0
    } else {
        cost_before(jobs, prices, s, (t - 1) as nat) + block_cost(
            prices,
            t - 1,
            window_len(jobs, s, t - 1, jobs.len()),
        )
    }
}

/// What a placement costs: each slot of each window once, however many jobs share the window.
pub open spec fn placement_cost(jobs: Seq<JobView>, prices: Seq<Price>, s: Seq<int>) -> int {
    cost_before(jobs, prices, s, prices.len())
}

/// The placement that the point `p` stands for.
pub open spec fn placement_at(jobs: Seq<JobView>, n: nat, p: Seq<int>) -> Seq<int> {
    Seq::new(jobs.len(), |j: int| choose|t: int| 0 <= t < n && #[trigger] starts_at(jobs, p, j, t))
}

// ---- sums of 0/1 values ----

/// How many of the slots before `t` job `j` starts at.
spec fn starts_before(jobs: Seq<JobView>, p: Seq<int>, j: int, t: nat) -> nat
    decreases t,
{
    if t == 0 {
        0
    } else {
        starts_before(jobs, p, j, (t - 1) as nat) + if starts_at(jobs, p, j, t - 1) {
            1nat
        } else {
            0nat
        }
    }
}

pub proof fn lemma_open_before_monotone(open: Seq<bool>, a: nat, b: nat)
    requires
        a <= b,
    ensures
        open_before(open, a) <= open_before(open, b),
        a < b && open[a as int] ==> open_before(open, a) < open_before(open, b),
    decreases b,
{
    if a < b {
        lemma_open_before_monotone(open, a, (b - 1) as nat);
    }
}

pub proof fn lemma_x_base_monotone(jobs: Seq<JobView>, a: nat, b: nat)
    requires
        a <= b,
    ensures
        x_base(jobs, a) <= x_base(jobs, b),
    decreases b,
{
    if a < b {
        lemma_x_base_monotone(jobs, a, (b - 1) as nat);
    }
}

/// The start variables come first.
pub proof fn lemma_x_id_range(jobs: Seq<JobView>, n: nat, j: int, t: int)
    requires
        jobs_fit(jobs, n),
        0 <= j < jobs.len(),
        0 <= t < n,
        jobs[j].open[t],
    ensures
        0 <= x_id(jobs, j, t) < x_base(jobs, jobs.len()),
{
    assert(job_fits(jobs[j], n));
    lemma_open_before_monotone(jobs[j].open, t as nat, n);
    lemma_x_base_monotone(jobs, (j + 1) as nat, jobs.len());
}

proof fn lemma_w_base_monotone(n: nat, longest: nat, a: nat, b: nat)
    requires
        a <= b <= n,
    ensures
        w_base(n, longest, a) <= w_base(n, longest, b),
    decreases b,
{
    if a < b {
        lemma_w_base_monotone(n, longest, a, (b - 1) as nat);
    }
}

proof fn lemma_window_prices_len(prices: Seq<Price>, longest: nat, t: nat)
    requires
        t <= prices.len(),
    ensures
        window_prices(prices, longest, t).len() == w_base(prices.len(), longest, t),
    decreases t,
{
    if t > 0 {
        lemma_window_prices_len(prices, longest, (t - 1) as nat);
    }
}

/// The window variables come after the start variables.
pub proof fn lemma_w_id_range(jobs: Seq<JobView>, prices: Seq<Price>, t: int, d: int)
    requires
        0 <= t < prices.len(),
        1 <= d <= width(prices.len(), longest(jobs), t),
    ensures
        x_base(jobs, jobs.len()) <= w_id(jobs, prices.len(), t, d),
        w_id(jobs, prices.len(), t, d) < placement_model(jobs, prices).objective.len(),
{
    lemma_window_prices_len(prices, longest(jobs), prices.len());
    lemma_w_base_monotone(prices.len(), longest(jobs), (t + 1) as nat, prices.len());
}

// ---- reading a feasible point ----

/// The start row of job `j` counts the slots that it starts at.
proof fn lemma_start_row_value(jobs: Seq<JobView>, n: nat, p: Seq<int>, j: int, t: nat)
    requires
        jobs_fit(jobs, n),
        0 <= j < jobs.len(),
        t <= n,
        x_base(jobs, jobs.len()) <= p.len(),
        forall|i: int| 0 <= i < p.len() ==> #[trigger] p[i] == 0 || p[i] == 1,
    ensures
        row_value(start_terms(jobs, j, t), p) == starts_before(jobs, p, j, t),
    decreases t,
{
    if t > 0 {
        lemma_start_row_value(jobs, n, p, j, (t - 1) as nat);
        if jobs[j].open[t - 1] {
            lemma_x_id_range(jobs, n, j, t - 1);
            let terms = start_terms(jobs, j, t);
            assert(terms.drop_last() =~= start_terms(jobs, j, (t - 1) as nat));
            assert(p[x_id(jobs, j, t - 1)] == 0 || p[x_id(jobs, j, t - 1)] == 1);
        }
    }
}

proof fn lemma_start_counted(jobs: Seq<JobView>, p: Seq<int>, j: int, a: int, t: nat)
    requires
        0 <= a < t,
        starts_at(jobs, p, j, a),
    ensures
        starts_before(jobs, p, j, t) >= 1,
    decreases t,
{
    if a < t - 1 {
        lemma_start_counted(jobs, p, j, a, (t - 1) as nat);
    }
}

proof fn lemma_two_starts_counted(jobs: Seq<JobView>, p: Seq<int>, j: int, a: int, b: int, t: nat)
    requires
        0 <= a < b < t,
        starts_at(jobs, p, j, a),
        starts_at(jobs, p, j, b),
    ensures
        starts_before(jobs, p, j, t) >= 2,
    decreases t,
{
    if b < t - 1 {
        lemma_two_starts_counted(jobs, p, j, a, b, (t - 1) as nat);
    } else {
        lemma_start_counted(jobs, p, j, a, (t - 1) as nat);
    }
}

proof fn lemma_counted_start(jobs: Seq<JobView>, p: Seq<int>, j: int, t: nat) -> (a: int)
    requires
        starts_before(jobs, p, j, t) >= 1,
    ensures
        0 <= a < t,
        starts_at(jobs, p, j, a),
    decreases t,
{
    if starts_at(jobs, p, j, t - 1) {
        t - 1
    } else {
        lemma_counted_start(jobs, p, j, (t - 1) as nat)
    }
}

/// Whatever feasible point a solver returns, each job starts exactly once, in a slot that is open
/// to it.
pub proof fn law_each_job_starts_exactly_once(jobs: Seq<JobView>, prices: Seq<Price>, p: Seq<int>)
    requires
        jobs_fit(jobs, prices.len()),
        feasible(placement_model(jobs, prices), p),
    ensures
        valid_placement(jobs, prices.len(), placement_at(jobs, prices.len(), p)),
        forall|j: int, t: int|
            0 <= j < jobs.len() && 0 <= t < prices.len() ==> (#[trigger] starts_at(jobs, p, j, t)
                <==> t == placement_at(jobs, prices.len(), p)[j]),
{
    let n = prices.len();
    let model = placement_model(jobs, prices);
    let s = placement_at(jobs, n, p);
    assert forall|j: int| 0 <= j < jobs.len() implies 0 <= #[trigger] s[j] < n
        && jobs[j].open[s[j]] && forall|t: int|
        0 <= t < n ==> (#[trigger] starts_at(jobs, p, j, t) <==> t == s[j]) by {
        assert(model.exactly[j] == start_row(jobs, n, j));
        lemma_start_row_value(jobs, n, p, j, n);
        let a = lemma_counted_start(jobs, p, j, n);
        assert(0 <= s[j] < n && starts_at(jobs, p, j, s[j]));
        assert forall|t: int| 0 <= t < n && #[trigger] starts_at(jobs, p, j, t) implies t
            == s[j] by {
            if t < s[j] {
                lemma_two_starts_counted(jobs, p, j, t, s[j], n);
            } else if t > s[j] {
                lemma_two_starts_counted(jobs, p, j, s[j], t, n);
            }
        }
    }
}

proof fn lemma_cover_row_present_of(jobs: Seq<JobView>, n: nat, j: int, t: int, d: int, k: nat)
    requires
        0 <= t < k,
        jobs[j].open[t],
        1 <= d <= jobs[j].duration_slots,
    ensures
        cover_rows_of(jobs, n, j, k).contains(cover_row(jobs, n, j, t, d)),
    decreases k,
{
    let row = cover_row(jobs, n, j, t, d);
    let rest = cover_rows_of(jobs, n, j, (k - 1) as nat);
    let all = cover_rows_of(jobs, n, j, k);
    if t < k - 1 {
        lemma_cover_row_present_of(jobs, n, j, t, d, (k - 1) as nat);
        let i = choose|i: int| 0 <= i < rest.len() && rest[i] == row;
        assert(all[i] == row);
    } else {
        assert(all[rest.len() + d - 1] == row);
    }
}

/// Every cover row is in the program.
proof fn lemma_cover_row_present(
    jobs: Seq<JobView>,
    n: nat,
    j: int,
    t: int,
    d: int,
    k: nat,
)
    requires
        0 <= j < k,
        0 <= t < n,
        jobs[j].open[t],
        1 <= d <= jobs[j].duration_slots,
    ensures
        cover_rows(jobs, n, k).contains(cover_row(jobs, n, j, t, d)),
    decreases k,
{
    let row = cover_row(jobs, n, j, t, d);
    let rest = cover_rows(jobs, n, (k - 1) as nat);
    let all = cover_rows(jobs, n, k);
    if j < k - 1 {
        lemma_cover_row_present(jobs, n, j, t, d, (k - 1) as nat);
        let i = choose|i: int| 0 <= i < rest.len() && rest[i] == row;
        assert(all[i] == row);
    } else {
        lemma_cover_row_present_of(jobs, n, j, t, d, n);
        let own = cover_rows_of(jobs, n, j, n);
        let i = choose|i: int| 0 <= i < own.len() && own[i] == row;
        assert(all[rest.len() + i] == row);
    }
}

/// Every holder row is in the program.
proof fn lemma_holder_row_present(jobs: Seq<JobView>, n: nat, t: int, d: int, k: nat)
    requires
        0 <= t < k,
        1 <= d <= width(n, longest(jobs), t),
    ensures
        holder_rows(jobs, n, k).contains(holder_row(jobs, n, t, d)),
    decreases k,
{
    let row = holder_row(jobs, n, t, d);
    let rest = holder_rows(jobs, n, (k - 1) as nat);
    let all = holder_rows(jobs, n, k);
    if t < k - 1 {
        lemma_holder_row_present(jobs, n, t, d, (k - 1) as nat);
        let i = choose|i: int| 0 <= i < rest.len() && rest[i] == row;
        assert(all[i] == row);
    } else {
        assert(all[rest.len() + d - 1] == row);
    }
}

/// A cover row compares its start variable with its window variable.
proof fn lemma_cover_row_value(jobs: Seq<JobView>, n: nat, p: Seq<int>, j: int, t: int, d: int)
    ensures
        row_value(cover_row(jobs, n, j, t, d).terms, p) == p[x_id(jobs, j, t)] - p[w_id(
            jobs,
            n,
            t,
            d,
        )],
{
    let terms = cover_row(jobs, n, j, t, d).terms;
    let first = terms.drop_last();
    assert(first =~= seq![TermView { var: x_id(jobs, j, t), coeff: 1 }]);
    assert(first.drop_last() =~= Seq::<TermView>::empty());
    assert(first.len() == 1);
    assert(row_value(first.drop_last(), p) == 0);
    assert(row_value(first, p) == row_value(first.drop_last(), p) + first.last().coeff
        * p[first.last().var]);
    assert(first.last().coeff * p[first.last().var] == p[first.last().var]) by (nonlinear_arith)
        requires
            first.last().coeff == 1,
    ;
    assert(terms.last().coeff * p[terms.last().var] == -p[terms.last().var]) by (nonlinear_arith)
        requires
            terms.last().coeff == -1,
    ;
}

/// How many of the first `j` jobs are at least `d` slots long and start at slot `t`.
spec fn holders(jobs: Seq<JobView>, p: Seq<int>, t: int, d: int, j: nat) -> nat
    decreases j,
{
    if j == 0 {
        0
    } else {
        holders(jobs, p, t, d, (j - 1) as nat) + if jobs[j - 1].duration_slots >= d && starts_at(
            jobs,
            p,
            j - 1,
            t,
        ) {
            1nat
        } else {
            0nat
        }
    }
}

/// A holder row compares its window variable with the number of jobs that hold the window open.
proof fn lemma_holder_row_value(
    jobs: Seq<JobView>,
    n: nat,
    p: Seq<int>,
    t: int,
    d: int,
    head: TermView,
    j: nat,
)
    requires
        jobs_fit(jobs, n),
        0 <= t < n,
        j <= jobs.len(),
        head.coeff == 1,
        x_base(jobs, jobs.len()) <= p.len(),
        forall|i: int| 0 <= i < p.len() ==> #[trigger] p[i] == 0 || p[i] == 1,
    ensures
        row_value(seq![head] + holder_terms(jobs, t, d, j), p) == p[head.var] - holders(
            jobs,
            p,
            t,
            d,
            j,
        ),
    decreases j,
{
    let terms = seq![head] + holder_terms(jobs, t, d, j);
    if j == 0 {
        assert(terms =~= seq![head]);
        assert(terms.drop_last() =~= Seq::<TermView>::empty());
        reveal_with_fuel(row_value, 2);
    } else {
        let rest = seq![head] + holder_terms(jobs, t, d, (j - 1) as nat);
        lemma_holder_row_value(jobs, n, p, t, d, head, (j - 1) as nat);
        if jobs[j - 1].duration_slots >= d && jobs[j - 1].open[t] {
            lemma_x_id_range(jobs, n, j - 1, t);
            assert(terms =~= rest.push(TermView { var: x_id(jobs, j - 1, t), coeff: -1 }));
            assert(terms.drop_last() =~= rest);
            assert(p[x_id(jobs, j - 1, t)] == 0 || p[x_id(jobs, j - 1, t)] == 1);
        } else {
            assert(terms =~= rest);
        }
    }
}

proof fn lemma_holder_counted(
    jobs: Seq<JobView>,
    p: Seq<int>,
    t: int,
    d: int,
    k: int,
    j: nat,
)
    requires
        0 <= k < j,
        jobs[k].duration_slots >= d,
        starts_at(jobs, p, k, t),
    ensures
        holders(jobs, p, t, d, j) >= 1,
    decreases j,
{
    if k < j - 1 {
        lemma_holder_counted(jobs, p, t, d, k, (j - 1) as nat);
    }
}

proof fn lemma_counted_holder(
    jobs: Seq<JobView>,
    p: Seq<int>,
    t: int,
    d: int,
    j: nat,
) -> (k: int)
    requires
        holders(jobs, p, t, d, j) >= 1,
    ensures
        0 <= k < j,
        jobs[k].duration_slots >= d,
        starts_at(jobs, p, k, t),
    decreases j,
{
    if jobs[j - 1].duration_slots >= d && starts_at(jobs, p, j - 1, t) {
        j - 1
    } else {
        lemma_counted_holder(jobs, p, t, d, (j - 1) as nat)
    }
}

proof fn lemma_window_covers(jobs: Seq<JobView>, s: Seq<int>, t: int, k: int, j: nat)
    requires
        0 <= k < j,
        s[k] == t,
    ensures
        window_len(jobs, s, t, j) >= jobs[k].duration_slots,
    decreases j,
{
    if k < j - 1 {
        lemma_window_covers(jobs, s, t, k, (j - 1) as nat);
    }
}

proof fn lemma_window_held(jobs: Seq<JobView>, s: Seq<int>, t: int, j: nat) -> (k: int)
    requires
        window_len(jobs, s, t, j) >= 1,
    ensures
        0 <= k < j,
        s[k] == t,
        jobs[k].duration_slots == window_len(jobs, s, t, j),
    decreases j,
{
    let rest = window_len(jobs, s, t, (j - 1) as nat);
    if s[j - 1] == t && jobs[j - 1].duration_slots > rest {
        j - 1
    } else {
        lemma_window_held(jobs, s, t, (j - 1) as nat)
    }
}

/// No phantom windows: at any feasible point, the window variable for length `d` at slot `t` is 1
/// exactly where a job at least that long starts there, also where prices are negative.
pub proof fn law_windows_are_held(
    jobs: Seq<JobView>,
    prices: Seq<Price>,
    p: Seq<int>,
    t: int,
    d: int,
)
    requires
        jobs_fit(jobs, prices.len()),
        feasible(placement_model(jobs, prices), p),
        0 <= t < prices.len(),
        1 <= d <= width(prices.len(), longest(jobs), t),
    ensures
        p[w_id(jobs, prices.len(), t, d)] == if window_len(
            jobs,
            placement_at(jobs, prices.len(), p),
            t,
            jobs.len(),
        ) >= d {
            1int
        } else {
            0int
        },
{
    let n = prices.len();
    let model = placement_model(jobs, prices);
    let s = placement_at(jobs, n, p);
    let w = w_id(jobs, n, t, d);
    let covers = cover_rows(jobs, n, jobs.len());
    let holds = holder_rows(jobs, n, n);
    law_each_job_starts_exactly_once(jobs, prices, p);
    lemma_w_id_range(jobs, prices, t, d);
    assert(p[w] == 0 || p[w] == 1);
    if window_len(jobs, s, t, jobs.len()) >= d {
        let k = lemma_window_held(jobs, s, t, jobs.len());
        assert(starts_at(jobs, p, k, t));
        lemma_cover_row_present(jobs, n, k, t, d, jobs.len());
        let row = cover_row(jobs, n, k, t, d);
        let i = choose|i: int| 0 <= i < covers.len() && covers[i] == row;
        assert(model.at_most[i] == row);
        lemma_cover_row_value(jobs, n, p, k, t, d);
    } else {
        lemma_holder_row_present(jobs, n, t, d, n);
        let row = holder_row(jobs, n, t, d);
        let i = choose|i: int| 0 <= i < holds.len() && holds[i] == row;
        assert(model.at_most[covers.len() + i] == row);
        lemma_holder_row_value(jobs, n, p, t, d, TermView { var: w, coeff: 1 }, jobs.len());
        if holders(jobs, p, t, d, jobs.len()) >= 1 {
            let k = lemma_counted_holder(jobs, p, t, d, jobs.len());
            assert(s[k] == t);
            lemma_window_covers(jobs, s, t, k, jobs.len());
        }
    }
}

// ---- cost ----

proof fn lemma_window_prices_index(prices: Seq<Price>, longest: nat, t: int, d: int, k: nat)
    requires
        0 <= t < k <= prices.len(),
        1 <= d <= width(prices.len(), longest, t),
    ensures
        w_base(prices.len(), longest, t as nat) + d - 1 < window_prices(prices, longest, k).len(),
        window_prices(prices, longest, k)[w_base(prices.len(), longest, t as nat) + d - 1]
            == prices[t + d - 1],
    decreases k,
{
    lemma_window_prices_len(prices, longest, (k - 1) as nat);
    if t < k - 1 {
        lemma_window_prices_index(prices, longest, t, d, (k - 1) as nat);
    }
}

proof fn lemma_starts_cost_nothing(jobs: Seq<JobView>, prices: Seq<Price>, p: Seq<int>, i: nat)
    requires
        i <= x_base(jobs, jobs.len()),
    ensures
        weighted_sum(placement_model(jobs, prices).objective, p, i) == 0,
    decreases i,
{
    if i > 0 {
        lemma_starts_cost_nothing(jobs, prices, p, (i - 1) as nat);
        assert(placement_model(jobs, prices).objective[i - 1].value() == 0);
    }
}

/// The objective pays for the first `k` lengths of the window at slot `t`.
proof fn lemma_window_cost(
    jobs: Seq<JobView>,
    prices: Seq<Price>,
    p: Seq<int>,
    t: int,
    len: nat,
    k: nat,
)
    requires
        0 <= t < prices.len(),
        k <= width(prices.len(), longest(jobs), t),
        forall|d: int|
            1 <= d <= width(prices.len(), longest(jobs), t) ==> p[#[trigger] w_id(
                jobs,
                prices.len(),
                t,
                d,
            )] == if len >= d {
                1int
            } else {
                0int
            },
    ensures
        ({
            let base = x_base(jobs, jobs.len()) + w_base(prices.len(), longest(jobs), t as nat);
            let objective = placement_model(jobs, prices).objective;
            weighted_sum(objective, p, base + k) == weighted_sum(objective, p, base) + block_cost(
                prices,
                t,
                if k < len {
                    k
                } else {
                    len
                },
            )
        }),
    decreases k,
{
    let base = x_base(jobs, jobs.len()) + w_base(prices.len(), longest(jobs), t as nat);
    let objective = placement_model(jobs, prices).objective;
    if k > 0 {
        lemma_window_cost(jobs, prices, p, t, len, (k - 1) as nat);
        lemma_window_prices_index(prices, longest(jobs), t, k as int, prices.len());
        let w = w_id(jobs, prices.len(), t, k as int);
        assert(w == base + k - 1);
        assert(objective[w] == prices[t + k - 1]);
        assert(weighted_sum(objective, p, base + k) == weighted_sum(
            objective,
            p,
            (base + k - 1) as nat,
        ) + objective[w].value() * p[w]);
        if len >= k {
            assert(objective[w].value() * p[w] == prices[t + k - 1].value()) by (nonlinear_arith)
                requires
                    p[w] == 1,
                    objective[w].value() == prices[t + k - 1].value(),
            ;
        } else {
            assert(objective[w].value() * p[w] == 0) by (nonlinear_arith)
                requires
                    p[w] == 0,
            ;
        }
    }
}

proof fn lemma_window_fits(jobs: Seq<JobView>, n: nat, s: Seq<int>, t: int)
    requires
        jobs_fit(jobs, n),
        valid_placement(jobs, n, s),
        0 <= t < n,
    ensures
        window_len(jobs, s, t, jobs.len()) <= width(n, longest(jobs), t),
{
    let len = window_len(jobs, s, t, jobs.len());
    if len >= 1 {
        let k = lemma_window_held(jobs, s, t, jobs.len());
        assert(0 <= s[k] < n);
        assert(job_fits(jobs[k], n));
        lemma_longest_bounds(jobs, k);
    }
}

proof fn lemma_cost_before(
    jobs: Seq<JobView>,
    prices: Seq<Price>,
    p: Seq<int>,
    s: Seq<int>,
    t: nat,
)
    requires
        jobs_fit(jobs, prices.len()),
        valid_placement(jobs, prices.len(), s),
        t <= prices.len(),
        forall|k: int, d: int|
            0 <= k < prices.len() && 1 <= d <= width(prices.len(), longest(jobs), k)
                ==> p[#[trigger] w_id(jobs, prices.len(), k, d)] == if window_len(
                jobs,
                s,
                k,
                jobs.len(),
            ) >= d {
                1int
            } else {
                0int
            },
    ensures
        weighted_sum(
            placement_model(jobs, prices).objective,
            p,
            x_base(jobs, jobs.len()) + w_base(prices.len(), longest(jobs), t),
        ) == cost_before(jobs, prices, s, t),
    decreases t,
{
    if t == 0 {
        lemma_starts_cost_nothing(jobs, prices, p, x_base(jobs, jobs.len()));
    } else {
        lemma_cost_before(jobs, prices, p, s, (t - 1) as nat);
        lemma_window_fits(jobs, prices.len(), s, t - 1);
        lemma_window_cost(
            jobs,
            prices,
            p,
            t - 1,
            window_len(jobs, s, t - 1, jobs.len()),
            width(prices.len(), longest(jobs), t - 1),
        );
    }
}

/// The objective's value at a feasible point is what its placement costs: jobs that share a window
/// are paid for once, by the longest of them.
pub proof fn law_objective_is_placement_cost(jobs: Seq<JobView>, prices: Seq<Price>, p: Seq<int>)
    requires
        jobs_fit(jobs, prices.len()),
        feasible(placement_model(jobs, prices), p),
    ensures
        objective_value(placement_model(jobs, prices), p) == placement_cost(
            jobs,
            prices,
            placement_at(jobs, prices.len(), p),
        ),
{
    let n = prices.len();
    let s = placement_at(jobs, n, p);
    law_each_job_starts_exactly_once(jobs, prices, p);
    assert forall|k: int, d: int|
        0 <= k < n && 1 <= d <= width(n, longest(jobs), k) implies p[#[trigger] w_id(
        jobs,
        n,
        k,
        d,
    )] == if window_len(jobs, s, k, jobs.len()) >= d {
        1int
    } else {
        0int
    } by {
        law_windows_are_held(jobs, prices, p, k, d);
    }
    lemma_cost_before(jobs, prices, p, s, n);
    lemma_window_prices_len(prices, longest(jobs), n);
}

// ---- the point of a placement ----

/// The values of a job's start variables at the slots before `t`, for a job that starts at `start`.
pub open spec fn x_values_of(open: Seq<bool>, start: int, t: nat) -> Seq<int>
    decreases t,
{
    if t == 0 {
        Seq::empty()
    } else {
        let rest = x_values_of(open, start, (t - 1) as nat);
        if open[t - 1] {
            rest.push(
                if t - 1 == start {
                    1int
                } else {
                    0int
                },
            )
        } else {
            rest
        }
    }
}

/// The values of the start variables of the jobs before `j`.
pub open spec fn x_values(jobs: Seq<JobView>, s: Seq<int>, j: nat) -> Seq<int>
    decreases j,
{
    if j == 0 {
        Seq::empty()
    } else {
        x_values(jobs, s, (j - 1) as nat) + x_values_of(
            jobs[j - 1].open,
            s[j - 1],
            jobs[j - 1].open.len(),
        )
    }
}

/// The values of the window variables of the slots before `t`.
pub open spec fn w_values(jobs: Seq<JobView>, n: nat, s: Seq<int>, t: nat) -> Seq<int>
    decreases t,
{
    if t == 0 {
        Seq::empty()
    } else {
        w_values(jobs, n, s, (t - 1) as nat) + Seq::new(
            width(n, longest(jobs), t - 1),
            |k: int|
                if window_len(jobs, s, t - 1, jobs.len()) >= k + 1 {
                    1int
                } else {
                    0int
                },
        )
    }
}

/// The point that stands for the placement `s`.
pub open spec fn point_of(jobs: Seq<JobView>, n: nat, s: Seq<int>) -> Seq<int> {
    x_values(jobs, s, jobs.len()) + w_values(jobs, n, s, n)
}

proof fn lemma_x_values_of(open: Seq<bool>, start: int, t: nat)
    ensures
        x_values_of(open, start, t).len() == open_before(open, t),
        forall|i: int|
            0 <= i < open_before(open, t) ==> #[trigger] x_values_of(open, start, t)[i] == 0
                || x_values_of(open, start, t)[i] == 1,
    decreases t,
{
    if t > 0 {
        lemma_x_values_of(open, start, (t - 1) as nat);
    }
}

proof fn lemma_x_values_of_index(open: Seq<bool>, start: int, a: int, t: nat)
    requires
        0 <= a < t,
        open[a],
    ensures
        open_before(open, a as nat) < open_before(open, t),
        x_values_of(open, start, t)[open_before(open, a as nat) as int] == if a == start {
            1int
        } else {
            0int
        },
    decreases t,
{
    lemma_x_values_of(open, start, (t - 1) as nat);
    if a < t - 1 {
        lemma_x_values_of_index(open, start, a, (t - 1) as nat);
    }
}

proof fn lemma_x_values(jobs: Seq<JobView>, s: Seq<int>, j: nat)
    ensures
        x_values(jobs, s, j).len() == x_base(jobs, j),
        forall|i: int|
            0 <= i < x_base(jobs, j) ==> #[trigger] x_values(jobs, s, j)[i] == 0 || x_values(
                jobs,
                s,
                j,
            )[i] == 1,
    decreases j,
{
    if j > 0 {
        lemma_x_values(jobs, s, (j - 1) as nat);
        lemma_x_values_of(jobs[j - 1].open, s[j - 1], jobs[j - 1].open.len());
    }
}

proof fn lemma_x_values_index(jobs: Seq<JobView>, s: Seq<int>, k: int, a: int, j: nat)
    requires
        0 <= k < j,
        0 <= a < jobs[k].open.len(),
        jobs[k].open[a],
    ensures
        x_id(jobs, k, a) < x_base(jobs, j),
        x_values(jobs, s, j)[x_id(jobs, k, a)] == if a == s[k] {
            1int
        } else {
            0int
        },
    decreases j,
{
    lemma_x_values(jobs, s, (j - 1) as nat);
    if k < j - 1 {
        lemma_x_values_index(jobs, s, k, a, (j - 1) as nat);
    } else {
        lemma_x_values_of_index(jobs[k].open, s[k], a, jobs[k].open.len());
        lemma_x_values_of(jobs[k].open, s[k], jobs[k].open.len());
    }
}

proof fn lemma_w_values(jobs: Seq<JobView>, n: nat, s: Seq<int>, t: nat)
    requires
        t <= n,
    ensures
        w_values(jobs, n, s, t).len() == w_base(n, longest(jobs), t),
        forall|i: int|
            0 <= i < w_base(n, longest(jobs), t) ==> #[trigger] w_values(jobs, n, s, t)[i] == 0
                || w_values(jobs, n, s, t)[i] == 1,
    decreases t,
{
    if t > 0 {
        lemma_w_values(jobs, n, s, (t - 1) as nat);
    }
}

proof fn lemma_w_values_index(jobs: Seq<JobView>, n: nat, s: Seq<int>, a: int, d: int, t: nat)
    requires
        0 <= a < t <= n,
        1 <= d <= width(n, longest(jobs), a),
    ensures
        w_base(n, longest(jobs), a as nat) + d - 1 < w_base(n, longest(jobs), t),
        w_values(jobs, n, s, t)[w_base(n, longest(jobs), a as nat) + d - 1] == if window_len(
            jobs,
            s,
            a,
            jobs.len(),
        ) >= d {
            1int
        } else {
            0int
        },
    decreases t,
{
    lemma_w_values(jobs, n, s, (t - 1) as nat);
    if a < t - 1 {
        lemma_w_values_index(jobs, n, s, a, d, (t - 1) as nat);
    }
}

/// What the point of a placement says of each variable.
proof fn lemma_point_values(jobs: Seq<JobView>, n: nat, s: Seq<int>)
    requires
        jobs_fit(jobs, n),
    ensures
        point_of(jobs, n, s).len() == x_base(jobs, jobs.len()) + w_base(n, longest(jobs), n),
        forall|i: int|
            0 <= i < point_of(jobs, n, s).len() ==> #[trigger] point_of(jobs, n, s)[i] == 0
                || point_of(jobs, n, s)[i] == 1,
        forall|j: int, t: int|
            0 <= j < jobs.len() && 0 <= t < n && jobs[j].open[t] ==> point_of(
                jobs,
                n,
                s,
            )[#[trigger] x_id(jobs, j, t)] == if t == s[j] {
                1int
            } else {
                0int
            },
        forall|t: int, d: int|
            0 <= t < n && 1 <= d <= width(n, longest(jobs), t) ==> point_of(
                jobs,
                n,
                s,
            )[#[trigger] w_id(jobs, n, t, d)] == if window_len(jobs, s, t, jobs.len()) >= d {
                1int
            } else {
                0int
            },
{
    let p = point_of(jobs, n, s);
    lemma_x_values(jobs, s, jobs.len());
    lemma_w_values(jobs, n, s, n);
    assert forall|i: int| 0 <= i < p.len() implies #[trigger] p[i] == 0 || p[i] == 1 by {
        if i >= x_base(jobs, jobs.len()) {
            assert(p[i] == w_values(jobs, n, s, n)[i - x_base(jobs, jobs.len())]);
        }
    }
    assert forall|j: int, t: int|
        0 <= j < jobs.len() && 0 <= t < n && jobs[j].open[t] implies p[#[trigger] x_id(
        jobs,
        j,
        t,
    )] == if t == s[j] {
        1int
    } else {
        0int
    } by {
        assert(job_fits(jobs[j], n));
        lemma_x_values_index(jobs, s, j, t, jobs.len());
    }
    assert forall|t: int, d: int|
        0 <= t < n && 1 <= d <= width(n, longest(jobs), t) implies p[#[trigger] w_id(
        jobs,
        n,
        t,
        d,
    )] == if window_len(jobs, s, t, jobs.len()) >= d {
        1int
    } else {
        0int
    } by {
        lemma_w_values_index(jobs, n, s, t, d, n);
    }
}

proof fn lemma_one_start(jobs: Seq<JobView>, n: nat, p: Seq<int>, j: int, start: int, t: nat)
    requires
        0 <= start < n,
        t <= n,
        forall|k: int| 0 <= k < n ==> (#[trigger] starts_at(jobs, p, j, k) <==> k == start),
    ensures
        starts_before(jobs, p, j, t) == if start < t {
            1nat
        } else {
            0nat
        },
    decreases t,
{
    if t > 0 {
        lemma_one_start(jobs, n, p, j, start, (t - 1) as nat);
        assert(starts_at(jobs, p, j, t - 1) <==> t - 1 == start);
    }
}

/// The rows all hold at `p`, as rows that sum to at most their right-hand side.
spec fn rows_hold(rows: Seq<RowView>, p: Seq<int>) -> bool {
    forall|i: int|
        0 <= i < rows.len() ==> row_value((#[trigger] rows[i]).terms, p) <= rows[i].rhs
}

proof fn lemma_cover_rows_of_hold(jobs: Seq<JobView>, n: nat, p: Seq<int>, j: int, k: nat)
    requires
        k <= n,
        forall|t: int, d: int|
            0 <= t < n && jobs[j].open[t] && 1 <= d <= jobs[j].duration_slots ==> p[x_id(
                jobs,
                j,
                t,
            )] <= p[#[trigger] w_id(jobs, n, t, d)],
    ensures
        rows_hold(cover_rows_of(jobs, n, j, k), p),
    decreases k,
{
    if k > 0 {
        let rest = cover_rows_of(jobs, n, j, (k - 1) as nat);
        let all = cover_rows_of(jobs, n, j, k);
        lemma_cover_rows_of_hold(jobs, n, p, j, (k - 1) as nat);
        assert forall|i: int| 0 <= i < all.len() implies row_value(
            (#[trigger] all[i]).terms,
            p,
        ) <= all[i].rhs by {
            if i < rest.len() {
                assert(all[i] == rest[i]);
            } else {
                let d = i - rest.len() + 1;
                assert(all[i] == cover_row(jobs, n, j, k - 1, d));
                lemma_cover_row_value(jobs, n, p, j, k - 1, d);
                assert(p[x_id(jobs, j, k - 1)] <= p[w_id(jobs, n, k - 1, d)]);
            }
        }
    }
}

proof fn lemma_cover_rows_hold(jobs: Seq<JobView>, n: nat, p: Seq<int>, k: nat)
    requires
        k <= jobs.len(),
        forall|j: int, t: int, d: int|
            #![trigger x_id(jobs, j, t), w_id(jobs, n, t, d)]
            0 <= j < jobs.len() && 0 <= t < n && jobs[j].open[t] && 1 <= d
                <= jobs[j].duration_slots ==> p[x_id(jobs, j, t)] <= p[w_id(jobs, n, t, d)],
    ensures
        rows_hold(cover_rows(jobs, n, k), p),
    decreases k,
{
    if k > 0 {
        let rest = cover_rows(jobs, n, (k - 1) as nat);
        let own = cover_rows_of(jobs, n, k - 1, n);
        let all = cover_rows(jobs, n, k);
        lemma_cover_rows_hold(jobs, n, p, (k - 1) as nat);
        assert forall|t: int, d: int|
            0 <= t < n && jobs[k - 1].open[t] && 1 <= d
                <= jobs[k - 1].duration_slots implies p[x_id(jobs, k - 1, t)]
            <= p[#[trigger] w_id(jobs, n, t, d)] by {
            let x = x_id(jobs, k - 1, t);
        }
        lemma_cover_rows_of_hold(jobs, n, p, k - 1, n);
        assert forall|i: int| 0 <= i < all.len() implies row_value(
            (#[trigger] all[i]).terms,
            p,
        ) <= all[i].rhs by {
            if i < rest.len() {
                assert(all[i] == rest[i]);
            } else {
                assert(all[i] == own[i - rest.len()]);
            }
        }
    }
}

proof fn lemma_holder_rows_hold(jobs: Seq<JobView>, n: nat, p: Seq<int>, k: nat)
    requires
        jobs_fit(jobs, n),
        k <= n,
        x_base(jobs, jobs.len()) <= p.len(),
        forall|i: int| 0 <= i < p.len() ==> #[trigger] p[i] == 0 || p[i] == 1,
        forall|t: int, d: int|
            0 <= t < n && 1 <= d <= width(n, longest(jobs), t) ==> p[#[trigger] w_id(
                jobs,
                n,
                t,
                d,
            )] <= holders(jobs, p, t, d, jobs.len()),
    ensures
        rows_hold(holder_rows(jobs, n, k), p),
    decreases k,
{
    if k > 0 {
        let rest = holder_rows(jobs, n, (k - 1) as nat);
        let all = holder_rows(jobs, n, k);
        lemma_holder_rows_hold(jobs, n, p, (k - 1) as nat);
        assert forall|i: int| 0 <= i < all.len() implies row_value(
            (#[trigger] all[i]).terms,
            p,
        ) <= all[i].rhs by {
            if i < rest.len() {
                assert(all[i] == rest[i]);
            } else {
                let d = i - rest.len() + 1;
                let head = TermView { var: w_id(jobs, n, k - 1, d), coeff: 1 };
                assert(all[i] == holder_row(jobs, n, k - 1, d));
                lemma_holder_row_value(jobs, n, p, k - 1, d, head, jobs.len());
                assert(p[w_id(jobs, n, k - 1, d)] <= holders(jobs, p, k - 1, d, jobs.len()));
            }
        }
    }
}

/// Every placement in open slots is a feasible point of the program, at what the placement costs.
pub proof fn law_every_placement_is_modelled(jobs: Seq<JobView>, prices: Seq<Price>, s: Seq<int>)
    requires
        jobs_fit(jobs, prices.len()),
        valid_placement(jobs, prices.len(), s),
    ensures
        feasible(placement_model(jobs, prices), point_of(jobs, prices.len(), s)),
        placement_at(jobs, prices.len(), point_of(jobs, prices.len(), s)) == s,
        objective_value(placement_model(jobs, prices), point_of(jobs, prices.len(), s))
            == placement_cost(jobs, prices, s),
{
    let n = prices.len();
    let model = placement_model(jobs, prices);
    let p = point_of(jobs, n, s);
    lemma_point_values(jobs, n, s);
    lemma_window_prices_len(prices, longest(jobs), n);
    assert forall|j: int, t: int| 0 <= j < jobs.len() && 0 <= t < n implies (#[trigger] starts_at(
        jobs,
        p,
        j,
        t,
    ) <==> t == s[j]) by {
        assert(0 <= s[j] < n && jobs[j].open[s[j]]);
        if jobs[j].open[t] {
            let x = x_id(jobs, j, t);
        }
    }
    assert forall|i: int| 0 <= i < model.exactly.len() implies row_value(
        (#[trigger] model.exactly[i]).terms,
        p,
    ) == model.exactly[i].rhs by {
        assert(0 <= s[i] < n);
        lemma_start_row_value(jobs, n, p, i, n);
        lemma_one_start(jobs, n, p, i, s[i], n);
    }
    assert forall|j: int, t: int, d: int|
        #![trigger x_id(jobs, j, t), w_id(jobs, n, t, d)]
        0 <= j < jobs.len() && 0 <= t < n && jobs[j].open[t] && 1 <= d
            <= jobs[j].duration_slots implies p[x_id(jobs, j, t)] <= p[w_id(jobs, n, t, d)] by {
        assert(job_fits(jobs[j], n));
        lemma_longest_bounds(jobs, j);
        if t == s[j] {
            lemma_window_covers(jobs, s, t, j, jobs.len());
        }
    }
    lemma_cover_rows_hold(jobs, n, p, jobs.len());
    assert forall|t: int, d: int|
        0 <= t < n && 1 <= d <= width(n, longest(jobs), t) implies p[#[trigger] w_id(
        jobs,
        n,
        t,
        d,
    )] <= holders(jobs, p, t, d, jobs.len()) by {
        if window_len(jobs, s, t, jobs.len()) >= d {
            let k = lemma_window_held(jobs, s, t, jobs.len());
            assert(starts_at(jobs, p, k, t));
            lemma_holder_counted(jobs, p, t, d, k, jobs.len());
        }
    }
    lemma_holder_rows_hold(jobs, n, p, n);
    let covers = cover_rows(jobs, n, jobs.len());
    let holds = holder_rows(jobs, n, n);
    assert forall|i: int| 0 <= i < model.at_most.len() implies row_value(
        (#[trigger] model.at_most[i]).terms,
        p,
    ) <= model.at_most[i].rhs by {
        if i < covers.len() {
            assert(model.at_most[i] == covers[i]);
        } else {
            assert(model.at_most[i] == holds[i - covers.len()]);
        }
    }
    law_each_job_starts_exactly_once(jobs, prices, p);
    let back = placement_at(jobs, n, p);
    assert forall|j: int| 0 <= j < jobs.len() implies back[j] == s[j] by {
        assert(0 <= s[j] < n);
        assert(starts_at(jobs, p, j, s[j]));
    }
    assert(back =~= s);
    law_objective_is_placement_cost(jobs, prices, p);
}

/// The program always has a feasible point.
pub proof fn law_program_is_feasible(jobs: Seq<JobView>, prices: Seq<Price>)
    requires
        jobs_fit(jobs, prices.len()),
    ensures
        exists|p: Seq<int>| feasible(placement_model(jobs, prices), p),
{
    let n = prices.len();
    let s = Seq::new(
        jobs.len(),
        |j: int| choose|t: int| 0 <= t < n && #[trigger] jobs[j].open[t],
    );
    assert forall|j: int| 0 <= j < jobs.len() implies 0 <= #[trigger] s[j] < n
        && jobs[j].open[s[j]] by {
        assert(job_fits(jobs[j], n));
    }
    law_every_placement_is_modelled(jobs, prices, s);
}

/// A point that minimises the program stands for a cheapest placement.
pub proof fn law_minimum_is_cheapest(jobs: Seq<JobView>, prices: Seq<Price>, p: Seq<int>)
    requires
        jobs_fit(jobs, prices.len()),
        minimises(placement_model(jobs, prices), p),
    ensures
        valid_placement(jobs, prices.len(), placement_at(jobs, prices.len(), p)),
        forall|s: Seq<int>| #[trigger]
            valid_placement(jobs, prices.len(), s) ==> placement_cost(
                jobs,
                prices,
                placement_at(jobs, prices.len(), p),
            ) <= placement_cost(jobs, prices, s),
{
    let n = prices.len();
    law_each_job_starts_exactly_once(jobs, prices, p);
    law_objective_is_placement_cost(jobs, prices, p);
    assert forall|s: Seq<int>| #[trigger] valid_placement(jobs, n, s) implies placement_cost(
        jobs,
        prices,
        placement_at(jobs, n, p),
    ) <= placement_cost(jobs, prices, s) by {
        law_every_placement_is_modelled(jobs, prices, s);
        assert(feasible(placement_model(jobs, prices), point_of(jobs, n, s)));
    }
}

// ---- what a placement costs ----

/// What slots cost together, in billionths of a penny.
pub open spec fn total_price(slots: Seq<Price>) -> int {
    slots.fold_left(0int, |sum: int, p: Price| sum + p.pence * 1_000_000_000 + p.billionths)
}

proof fn lemma_window_len_prefix(
    jobs: Seq<JobView>,
    s: Seq<int>,
    job: JobView,
    at: int,
    t: int,
    j: nat,
)
    requires
        j <= jobs.len(),
        s.len() == jobs.len(),
    ensures
        window_len(jobs.push(job), s.push(at), t, j) == window_len(jobs, s, t, j),
    decreases j,
{
    if j > 0 {
        lemma_window_len_prefix(jobs, s, job, at, t, (j - 1) as nat);
    }
}

proof fn lemma_window_len_is(jobs: Seq<JobView>, s: Seq<int>, t: int, m: nat, j: nat)
    requires
        j <= jobs.len(),
        s.len() == jobs.len(),
        forall|k: int| 0 <= k < j && #[trigger] s[k] == t ==> jobs[k].duration_slots <= m,
        m == 0 || exists|k: int| 0 <= k < j && #[trigger] s[k] == t && jobs[k].duration_slots == m,
    ensures
        window_len(jobs, s, t, j) == m,
    decreases j,
{
    lemma_window_len_at_most(jobs, s, t, m, j);
    if m > 0 {
        let k = choose|k: int|
            0 <= k < j && #[trigger] s[k] == t && jobs[k].duration_slots == m;
        lemma_window_covers(jobs, s, t, k, j);
    }
}

proof fn lemma_window_len_at_most(jobs: Seq<JobView>, s: Seq<int>, t: int, m: nat, j: nat)
    requires
        j <= jobs.len(),
        forall|k: int| 0 <= k < j && #[trigger] s[k] == t ==> jobs[k].duration_slots <= m,
    ensures
        window_len(jobs, s, t, j) <= m,
    decreases j,
{
    if j > 0 {
        lemma_window_len_at_most(jobs, s, t, m, (j - 1) as nat);
    }
}

proof fn lemma_block_cost_is_total(prices: Seq<Price>, t: int, m: nat, d: nat)
    requires
        0 <= t,
        m <= d,
        t + d <= prices.len(),
    ensures
        block_cost(prices, t, d) == block_cost(prices, t, m) + total_price(
            prices.subrange(t + m, t + d),
        ),
    decreases d,
{
    let f = |sum: int, p: Price| sum + p.pence * 1_000_000_000 + p.billionths;
    let slots = prices.subrange(t + m, t + d);
    reveal_with_fuel(Seq::fold_left, 2);
    if m < d {
        lemma_block_cost_is_total(prices, t, m, (d - 1) as nat);
        assert(slots.drop_last() =~= prices.subrange(t + m, t + d - 1));
        assert(slots.last() == prices[t + d - 1]);
        assert(slots.fold_left(0int, f) == f(slots.drop_last().fold_left(0int, f), slots.last()));
    }
}

proof fn lemma_cost_with_one_more(
    jobs: Seq<JobView>,
    prices: Seq<Price>,
    s: Seq<int>,
    job: JobView,
    at: int,
    m: nat,
    t: nat,
)
    requires
        s.len() == jobs.len(),
        0 <= at,
        at + job.duration_slots <= prices.len(),
        window_len(jobs, s, at, jobs.len()) == m,
    ensures
        cost_before(jobs.push(job), prices, s.push(at), t) == cost_before(jobs, prices, s, t) + (
        if at < t && m < job.duration_slots {
            total_price(prices.subrange(at + m, at + job.duration_slots))
        } else {
            0
        }),
    decreases t,
{
    if t > 0 {
        lemma_cost_with_one_more(jobs, prices, s, job, at, m, (t - 1) as nat);
        lemma_window_len_prefix(jobs, s, job, at, t - 1, jobs.len());
        if at == t - 1 && m < job.duration_slots {
            lemma_block_cost_is_total(prices, at, m, job.duration_slots);
        }
    }
}

/// One more job, of `d` slots from slot `at` on, makes a placement dearer by what the slots cost that
/// no job which starts there runs in yet: where the longest of those takes `m` slots, by the slots
/// from the one numbered `m` on; and where that is at least as long, by nothing. No jobs cost
/// nothing.
pub proof fn law_jobs_share_what_they_start_together(
    jobs: Seq<JobView>,
    prices: Seq<Price>,
    s: Seq<int>,
    job: JobView,
    at: int,
    m: nat,
)
    requires
        s.len() == jobs.len(),
        0 <= at,
        at + job.duration_slots <= prices.len(),
        job.duration_slots >= 1,
        forall|k: int| 0 <= k < s.len() && #[trigger] s[k] == at ==> jobs[k].duration_slots <= m,
        m == 0 || exists|k: int|
            0 <= k < s.len() && #[trigger] s[k] == at && jobs[k].duration_slots == m,
    ensures
        placement_cost(jobs.push(job), prices, s.push(at)) == placement_cost(jobs, prices, s) + (
        if m < job.duration_slots {
            total_price(prices.subrange(at + m, at + job.duration_slots))
        } else {
            0
        }),
        placement_cost(Seq::empty(), prices, Seq::empty()) == 0,
{
    lemma_window_len_is(jobs, s, at, m, jobs.len());
    lemma_cost_with_one_more(jobs, prices, s, job, at, m, prices.len());
    lemma_nothing_costs_nothing(prices, prices.len());
}

proof fn lemma_nothing_costs_nothing(prices: Seq<Price>, t: nat)
    ensures
        cost_before(Seq::empty(), prices, Seq::empty(), t) == 0,
    decreases t,
{
    if t > 0 {
        lemma_nothing_costs_nothing(prices, (t - 1) as nat);
    }
}

/// A job runs alone for what its slots cost.
pub proof fn law_one_job_costs_its_slots(job: JobView, prices: Seq<Price>, at: int)
    requires
        0 <= at,
        at + job.duration_slots <= prices.len(),
        job.duration_slots >= 1,
    ensures
        placement_cost(seq![job], prices, seq![at]) == total_price(
            prices.subrange(at, at + job.duration_slots),
        ),
{
    law_jobs_share_what_they_start_together(Seq::empty(), prices, Seq::empty(), job, at, 0);
    assert(Seq::<JobView>::empty().push(job) =~= seq![job]);
    assert(Seq::<int>::empty().push(at) =~= seq![at]);
}

} // verus!
