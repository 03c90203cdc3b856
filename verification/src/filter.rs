//! Order-preserving task filters and their pipeline.
//!
//! A filter keeps or drops each task on its own, so applying one yields the
//! order-preserving subsequence of kept tasks. A pipeline applies its
//! filters in the order they were added, each one to its predecessor's
//! output; an empty pipeline changes nothing.

use vstd::prelude::*;

use crate::calendar::{date_le, spec_date_le, Date};
use crate::task::{Task, TaskView};

verus! {

/// The order-preserving subsequence of `ts` whose members `f` keeps.
pub open spec fn spec_filtered<F: Filter>(f: F, ts: Seq<TaskView>) -> Seq<TaskView>
    decreases ts.len(),
{
    if ts.len() == 0 {
        Seq::empty()
    } else if f.keeps(ts.last()) {
        spec_filtered(f, ts.drop_last()).push(ts.last())
    } else {
        spec_filtered(f, ts.drop_last())
    }
}

/// A predicate over single tasks, applied as an order-preserving,
/// subset-selecting pass over a task sequence.
pub trait Filter: Sized + Copy {
    /// Whether this filter keeps the task.
    spec fn keeps(&self, t: TaskView) -> bool;

    /// Decide one task.
    fn keep(&self, t: &Task) -> (b: bool)
        ensures
            b == self.keeps(t@),
    ;
}

/// Apply any filter by one pass over the tasks.
fn run_filter<F: Filter>(f: &F, tasks: &Vec<Task>) -> (r: Vec<Task>)
    ensures
        r@.map_values(|t: Task| t@) == spec_filtered(*f, tasks@.map_values(|t: Task| t@)),
{
    let ghost tvs = tasks@.map_values(|t: Task| t@);
    let mut r: Vec<Task> = Vec::new();
    let mut i: usize = 0;
    while i < tasks.len()
        invariant
            i <= tasks@.len(),
            tvs == tasks@.map_values(|t: Task| t@),
            r@.map_values(|t: Task| t@) =~= spec_filtered(*f, tvs.take(i as int)),
        decreases tasks@.len() - i,
    {
        proof {
            assert(tvs.take(i + 1).drop_last() =~= tvs.take(i as int));
            assert(tvs.take(i + 1).last() == tasks@[i as int]@);
        }
        let ghost prev = r@.map_values(|t: Task| t@);
        if f.keep(&tasks[i]) {
            let t = tasks[i].clone();
            r.push(t);
            proof {
                assert(r@.map_values(|t: Task| t@) =~= prev.push(tasks@[i as int]@));
            }
        }
        i = i + 1;
    }
    proof {
        assert(tvs.take(tasks@.len() as int) =~= tvs);
    }
    r
}

/// Filter on overdue status: an identity pass when `show_overdue` holds,
/// otherwise it keeps exactly the tasks that are not overdue (tasks with no
/// due date are never overdue, so they stay).
#[derive(Clone, Copy, Debug, PartialEq, Eq, Structural)]
pub struct OverdueFilter {
    pub show_overdue: bool,
}

impl Filter for OverdueFilter {
    open spec fn keeps(&self, t: TaskView) -> bool {
        self.show_overdue || !t.overdue
    }

    fn keep(&self, t: &Task) -> (b: bool) {
        self.show_overdue || !t.overdue
    }
}

impl OverdueFilter {
    /// Keep exactly the kept tasks, in their original order.
    pub fn apply(&self, tasks: &Vec<Task>) -> (r: Vec<Task>)
        ensures
            r@.map_values(|t: Task| t@) == spec_filtered(*self, tasks@.map_values(|t: Task| t@)),
    {
        run_filter(self, tasks)
    }
}

/// Filter on the due date against an inclusive range. With both bounds
/// absent every task passes; with any bound present a task with no due
/// date is excluded, and one with a due date passes exactly when the date
/// meets every present bound.
#[derive(Clone, Copy, Debug, PartialEq, Eq, Structural)]
pub struct DateRangeFilter {
    pub from_date: Option<Date>,
    pub to_date: Option<Date>,
}

impl Filter for DateRangeFilter {
    open spec fn keeps(&self, t: TaskView) -> bool {
        match (self.from_date, self.to_date, t.due) {
            (Some(from), Some(to), Some(d)) => spec_date_le(from, d) && spec_date_le(d, to),
            (Some(from), None, Some(d)) => spec_date_le(from, d),
            (None, Some(to), Some(d)) => spec_date_le(d, to),
            (None, None, _) => true,
            _ => false,
        }
    }

    fn keep(&self, t: &Task) -> (b: bool) {
        match (self.from_date, self.to_date, t.due) {
            (Some(from), Some(to), Some(d)) => date_le(&from, &d) && date_le(&d, &to),
            (Some(from), None, Some(d)) => date_le(&from, &d),
            (None, Some(to), Some(d)) => date_le(&d, &to),
            (None, None, _) => true,
            _ => false,
        }
    }
}

impl DateRangeFilter {
    /// Keep exactly the kept tasks, in their original order.
    pub fn apply(&self, tasks: &Vec<Task>) -> (r: Vec<Task>)
        ensures
            r@.map_values(|t: Task| t@) == spec_filtered(*self, tasks@.map_values(|t: Task| t@)),
    {
        run_filter(self, tasks)
    }
}

/// One filter of either kind, so a pipeline can hold a mixed sequence.
#[derive(Clone, Copy, Debug, PartialEq, Eq, Structural)]
pub enum TaskFilter {
    Overdue(OverdueFilter),
    DateRange(DateRangeFilter),
}

impl Filter for TaskFilter {
    open spec fn keeps(&self, t: TaskView) -> bool {
        match self {
            TaskFilter::Overdue(f) => f.keeps(t),
            TaskFilter::DateRange(f) => f.keeps(t),
        }
    }

    fn keep(&self, t: &Task) -> (b: bool) {
        match self {
            TaskFilter::Overdue(f) => f.keep(t),
            TaskFilter::DateRange(f) => f.keep(t),
        }
    }
}

impl TaskFilter {
    /// Keep exactly the kept tasks, in their original order.
    pub fn apply(&self, tasks: &Vec<Task>) -> (r: Vec<Task>)
        ensures
            r@.map_values(|t: Task| t@) == spec_filtered(*self, tasks@.map_values(|t: Task| t@)),
    {
        run_filter(self, tasks)
    }
}

/// What a pipeline yields: the filters folded over the tasks, left to right.
pub open spec fn spec_pipeline(fs: Seq<TaskFilter>, ts: Seq<TaskView>) -> Seq<TaskView>
    decreases fs.len(),
{
    if fs.len() == 0 {
        ts
    } else {
        spec_pipeline(fs.drop_first(), spec_filtered(fs.first(), ts))
    }
}

/// An ordered sequence of filters, applied in the order they were added.
pub struct FilterPipeline {
    pub filters: Vec<TaskFilter>,
}

impl FilterPipeline {
    /// An empty pipeline, the identity transform.
    pub fn new() -> (r: Self)
        ensures
            r.filters@ == Seq::<TaskFilter>::empty(),
    {
        FilterPipeline { filters: Vec::new() }
    }

    /// Append one filter to the end of the pipeline.
    pub fn add_filter(&mut self, filter: TaskFilter)
        ensures
            final(self).filters@ == old(self).filters@.push(filter),
    {
        self.filters.push(filter);
    }

    /// Fold the tasks through every filter, in order.
    pub fn apply(&self, tasks: &Vec<Task>) -> (r: Vec<Task>)
        ensures
            r@.map_values(|t: Task| t@) == spec_pipeline(
                self.filters@,
                tasks@.map_values(|t: Task| t@),
            ),
    {
        let ghost tvs0 = tasks@.map_values(|t: Task| t@);
        let mut cur: Vec<Task> = clone_tasks(tasks);
        let mut i: usize = 0;
        proof {
            assert(self.filters@.skip(0) =~= self.filters@);
        }
        while i < self.filters.len()
            invariant
                i <= self.filters@.len(),
                spec_pipeline(self.filters@, tvs0) == spec_pipeline(
                    self.filters@.skip(i as int),
                    cur@.map_values(|t: Task| t@),
                ),
            decreases self.filters@.len() - i,
        {
            proof {
                assert(self.filters@.skip(i as int).first() == self.filters@[i as int]);
                assert(self.filters@.skip(i as int).drop_first() =~= self.filters@.skip(i + 1));
            }
            cur = self.filters[i].apply(&cur);
            i = i + 1;
        }
        proof {
            assert(self.filters@.skip(self.filters@.len() as int).len() == 0);
        }
        cur
    }
}

/// A filter that keeps every member of `ts` changes nothing.
pub proof fn lemma_filtered_all<F: Filter>(f: F, ts: Seq<TaskView>)
    requires
        forall|k: int| 0 <= k < ts.len() ==> f.keeps(#[trigger] ts[k]),
    ensures
        spec_filtered(f, ts) == ts,
    decreases ts.len(),
{
    if ts.len() > 0 {
        lemma_filtered_all(f, ts.drop_last());
        assert(spec_filtered(f, ts.drop_last()).push(ts.last()) =~= ts);
    } else {
        assert(spec_filtered(f, ts) =~= ts);
    }
}

/// Filtering selects a subset: every task of the result was in the input
/// and is kept by the filter, and every kept task of the input reaches the
/// result.
pub proof fn lemma_filtered_members<F: Filter>(f: F, ts: Seq<TaskView>)
    ensures
        forall|k: int|
            0 <= k < spec_filtered(f, ts).len() ==> f.keeps(#[trigger] spec_filtered(f, ts)[k])
                && ts.contains(spec_filtered(f, ts)[k]),
        forall|k: int|
            0 <= k < ts.len() && f.keeps(#[trigger] ts[k]) ==> spec_filtered(f, ts).contains(
                ts[k],
            ),
    decreases ts.len(),
{
    if ts.len() > 0 {
        lemma_filtered_members(f, ts.drop_last());
        let rec = spec_filtered(f, ts.drop_last());
        assert(forall|q: int|
            0 <= q < ts.drop_last().len() ==> ts.drop_last()[q] == #[trigger] ts[q]);
        assert forall|k: int|
            0 <= k < spec_filtered(f, ts).len() implies f.keeps(
            #[trigger] spec_filtered(f, ts)[k],
        ) && ts.contains(spec_filtered(f, ts)[k]) by {
            if f.keeps(ts.last()) && k == rec.len() {
                assert(spec_filtered(f, ts)[k] == ts.last());
                assert(ts[ts.len() - 1] == ts.last());
            } else {
                assert(spec_filtered(f, ts)[k] == rec[k]);
                let q = choose|q: int| 0 <= q < ts.drop_last().len() && ts.drop_last()[q] == rec[k];
                assert(ts[q] == rec[k]);
            }
        }
        assert forall|k: int|
            0 <= k < ts.len() && f.keeps(#[trigger] ts[k]) implies spec_filtered(f, ts).contains(
            ts[k],
        ) by {
            if k == ts.len() - 1 {
                assert(spec_filtered(f, ts)[spec_filtered(f, ts).len() - 1] == ts.last());
            } else {
                assert(rec.contains(ts[k]));
                let q = choose|q: int| 0 <= q < rec.len() && rec[q] == ts[k];
                assert(spec_filtered(f, ts)[q] == ts[k]);
            }
        }
    }
}

/// An overdue filter that shows overdue tasks is the identity.
pub proof fn lemma_overdue_filter_shows_all(f: OverdueFilter, ts: Seq<TaskView>)
    requires
        f.show_overdue,
    ensures
        spec_filtered(f, ts) == ts,
{
    lemma_filtered_all(f, ts);
}

/// An overdue filter that hides overdue tasks keeps exactly the tasks that
/// are not overdue — tasks with no due date among them — in their original
/// order.
pub proof fn lemma_overdue_filter_hides_overdue(f: OverdueFilter, ts: Seq<TaskView>)
    requires
        !f.show_overdue,
    ensures
        spec_filtered(f, ts) == ts.filter(|t: TaskView| !t.overdue),
    decreases ts.len(),
{
    reveal(Seq::filter);
    if ts.len() > 0 {
        lemma_overdue_filter_hides_overdue(f, ts.drop_last());
    }
}

/// A date-range filter with both bounds absent is the identity.
pub proof fn lemma_date_range_identity(f: DateRangeFilter, ts: Seq<TaskView>)
    requires
        f.from_date is None,
        f.to_date is None,
    ensures
        spec_filtered(f, ts) == ts,
{
    lemma_filtered_all(f, ts);
}

/// A date-range filter with only a lower bound keeps exactly the tasks
/// whose due date is present and not before the bound; every task with an
/// earlier due date or none at all is excluded.
pub proof fn lemma_date_range_from_only(f: DateRangeFilter, ts: Seq<TaskView>, lower: Date)
    requires
        f.from_date == Some(lower),
        f.to_date is None,
    ensures
        spec_filtered(f, ts) == ts.filter(
            (|t: TaskView| t.due matches Some(d) && spec_date_le(lower, d)),
        ),
    decreases ts.len(),
{
    reveal(Seq::filter);
    if ts.len() > 0 {
        lemma_date_range_from_only(f, ts.drop_last(), lower);
    }
}

/// The order-preserving subsequence of `ts` whose members both filters keep.
pub open spec fn spec_filtered_both<F: Filter, G: Filter>(f: F, g: G, ts: Seq<TaskView>) -> Seq<
    TaskView,
>
    decreases ts.len(),
{
    if ts.len() == 0 {
        Seq::empty()
    } else if f.keeps(ts.last()) && g.keeps(ts.last()) {
        spec_filtered_both(f, g, ts.drop_last()).push(ts.last())
    } else {
        spec_filtered_both(f, g, ts.drop_last())
    }
}

proof fn lemma_filtered_compose<F: Filter, G: Filter>(f: F, g: G, ts: Seq<TaskView>)
    ensures
        spec_filtered(f, spec_filtered(g, ts)) == spec_filtered_both(f, g, ts),
    decreases ts.len(),
{
    if ts.len() > 0 {
        lemma_filtered_compose(f, g, ts.drop_last());
        if g.keeps(ts.last()) {
            let inner = spec_filtered(g, ts.drop_last());
            assert(spec_filtered(g, ts) == inner.push(ts.last()));
            assert(inner.push(ts.last()).drop_last() =~= inner);
        }
    }
}

/// Applying two per-task filters one after the other yields the same
/// sequence in either order: each keeps exactly the tasks both predicates
/// accept, in their original positions.
pub proof fn lemma_filters_commute<F: Filter, G: Filter>(f: F, g: G, ts: Seq<TaskView>)
    ensures
        spec_filtered(f, spec_filtered(g, ts)) == spec_filtered(g, spec_filtered(f, ts)),
    decreases ts.len(),
{
    lemma_filtered_compose(f, g, ts);
    lemma_filtered_compose(g, f, ts);
    lemma_filtered_both_sym(f, g, ts);
}

proof fn lemma_filtered_both_sym<F: Filter, G: Filter>(f: F, g: G, ts: Seq<TaskView>)
    ensures
        spec_filtered_both(f, g, ts) == spec_filtered_both(g, f, ts),
    decreases ts.len(),
{
    if ts.len() > 0 {
        lemma_filtered_both_sym(f, g, ts.drop_last());
    }
}

/// An empty pipeline is the identity transform.
pub proof fn lemma_empty_pipeline(ts: Seq<TaskView>)
    ensures
        spec_pipeline(Seq::<TaskFilter>::empty(), ts) == ts,
{
}

/// Copy a task vector, value for value.
fn clone_tasks(tasks: &Vec<Task>) -> (r: Vec<Task>)
    ensures
        r@.map_values(|t: Task| t@) == tasks@.map_values(|t: Task| t@),
{
    let mut r: Vec<Task> = Vec::new();
    let mut i: usize = 0;
    while i < tasks.len()
        invariant
            i <= tasks@.len(),
            r@.map_values(|t: Task| t@) =~= tasks@.map_values(|t: Task| t@).take(i as int),
        decreases tasks@.len() - i,
    {
        let ghost prev = r@.map_values(|t: Task| t@);
        let t = tasks[i].clone();
        r.push(t);
        proof {
            assert(r@.map_values(|t: Task| t@) =~= prev.push(tasks@[i as int]@));
            assert(prev.push(tasks@[i as int]@) =~= tasks@.map_values(|t: Task| t@).take(i + 1));
        }
        i = i + 1;
    }
    proof {
        assert(tasks@.map_values(|t: Task| t@).take(tasks@.len() as int) =~= tasks@.map_values(
            |t: Task| t@,
        ));
    }
    r
}

} // verus!
