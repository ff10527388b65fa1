use vstd::prelude::*;
use crate::sort::{lemma_sort_multiset, lemma_sort_sorted, sort_workouts, sorted_by_date, spec_sort};
use crate::workout::Workout;

verus! {

/// The fixed cumulative goal of the tracker: the default target repeat count.
pub const DEFAULT_TARGET: u32 = 10_000;

/// Sum of the repeat counts over the records.
pub open spec fn spec_total(ws: Seq<Workout>) -> int
    decreases ws.len(),
{
    if ws.len() == 0 {
        0
    } else {
        spec_total(ws.drop_last()) + ws.last().spec_repeats()
    }
}

/// The total is at most one full `u32` per record.
pub proof fn lemma_total_bound(ws: Seq<Workout>)
    ensures
        0 <= spec_total(ws) <= ws.len() * 0xffff_ffff,
    decreases ws.len(),
{
    if ws.len() > 0 {
        lemma_total_bound(ws.drop_last());
    }
}

/// Total repeats over all records.
pub fn get_total_pushups(ws: &Vec<Workout>) -> (t: u64)
    requires
        ws@.len() < 0x1_0000_0000,
    ensures
        t == spec_total(ws@),
{
    let mut t: u64 = 0;
    let mut i: usize = 0;
    proof {
        assert(ws@.subrange(0, 0) =~= Seq::<Workout>::empty());
    }
    while i < ws.len()
        invariant
            i <= ws@.len() < 0x1_0000_0000,
            t == spec_total(ws@.subrange(0, i as int)),
        decreases ws@.len() - i,
    {
        proof {
            let pre = ws@.subrange(0, i as int + 1);
            assert(pre.drop_last() =~= ws@.subrange(0, i as int));
            assert(pre.last() == ws@[i as int]);
            lemma_total_bound(ws@.subrange(0, i as int));
        }
        t = t + ws[i].get_repeats() as u64;
        i = i + 1;
    }
    proof {
        assert(ws@.subrange(0, ws@.len() as int) =~= ws@);
    }
    t
}

/// Removing one record removes exactly its repeats from the total.
proof fn lemma_total_remove(ws: Seq<Workout>, i: int)
    requires
        0 <= i < ws.len(),
    ensures
        spec_total(ws) == spec_total(ws.remove(i)) + ws[i].spec_repeats(),
    decreases ws.len(),
{
    if i == ws.len() - 1 {
        assert(ws.remove(i) =~= ws.drop_last());
    } else {
        lemma_total_remove(ws.drop_last(), i);
        assert(ws.remove(i).drop_last() =~= ws.drop_last().remove(i));
        assert(ws.remove(i).last() == ws.last());
    }
}

/// The total depends only on which records there are, not on their order.
pub proof fn lemma_total_permutation(a: Seq<Workout>, b: Seq<Workout>)
    requires
        a.to_multiset() == b.to_multiset(),
    ensures
        spec_total(a) == spec_total(b),
    decreases a.len(),
{
    broadcast use vstd::seq_lib::group_to_multiset_ensures;

    if a.len() == 0 {
        assert(b.to_multiset().len() == 0);
        assert(b.len() == 0);
    } else {
        let x = a.last();
        assert(a =~= a.drop_last().push(x));
        assert(a.to_multiset() =~= a.drop_last().to_multiset().insert(x));
        assert(b.to_multiset().count(x) > 0);
        assert(b.contains(x));
        let j = choose|j: int| 0 <= j < b.len() && b[j] == x;
        lemma_total_remove(b, j);
        assert(a.drop_last() =~= a.remove(a.len() - 1));
        assert(a.remove(a.len() - 1).to_multiset() =~= a.to_multiset().remove(x));
        assert(b.remove(j).to_multiset() =~= b.to_multiset().remove(x));
        lemma_total_permutation(a.drop_last(), b.remove(j));
    }
}

/// The day span between two instants (seconds since the Unix epoch): the
/// whole hours between them, divided by 24 and rounded up, clamped to at
/// least one day; a span that cannot be counted in 32 bits saturates.
pub open spec fn spec_day_span(first_ts: i64, last_ts: i64) -> int {
    if last_ts <= first_ts {
        1
    } else {
        let days = ((last_ts - first_ts) / 3600 + 23) / 24;
        if days == 0 {
            1
        } else if days > 0xffff_ffff {
            0xffff_ffff
        } else {
            days
        }
    }
}

/// A record spans one day with itself.
pub proof fn lemma_day_span_same(t: i64)
    ensures
        spec_day_span(t, t) == 1,
{
}

/// No pair of instants, equal or distinct and in either order, spans zero
/// days.
pub proof fn lemma_day_span_positive(a: i64, b: i64)
    ensures
        spec_day_span(a, b) >= 1,
{
}

/// Days between the first and the last record, inclusive: hours between their
/// dates divided by 24 and rounded up, never less than one day.
pub fn get_workouts_days_span(first: &Workout, last: &Workout) -> (d: u32)
    ensures
        d == spec_day_span(first.spec_ts(), last.spec_ts()),
        d >= 1,
{
    let a = first.timestamp_secs();
    let b = last.timestamp_secs();
    if b <= a {
        1
    } else {
        let secs = (b - a) as u64;
        let days = (secs / 3600 + 23) / 24;
        if days == 0 {
            1
        } else if days > 0xffff_ffff {
            0xffff_ffff
        } else {
            days as u32
        }
    }
}

/// Average repeats per day: the total divided by the day count, truncated.
pub fn get_progress_speed_per_day(total_pushups: u64, num_days: u32) -> (p: u64)
    requires
        num_days >= 1,
    ensures
        p == total_pushups as int / num_days as int,
{
    total_pushups / (num_days as u64)
}

/// Progress towards the target in hundredths of a percent: with the default
/// target of 10,000 a total of 45 gives 45 hundredths, shown as 0.45%.
pub fn get_progress_percentage_hundredths(total_pushups: u64, target: u32) -> (p: u32)
    requires
        target >= 1,
        total_pushups < target,
    ensures
        p == total_pushups * 10_000 / target as int,
        p < 10_000,
{
    let p = total_pushups * 10_000 / (target as u64);
    proof {
        assert(total_pushups * 10_000 / (target as int) < 10_000) by (nonlinear_arith)
            requires
                total_pushups < target,
                target >= 1,
        ;
    }
    p as u32
}

/// An instant paired with the timezone offset (seconds east of UTC) it is to
/// be displayed in: the projected completion date keeps the offset of the
/// record it starts from.
pub struct Timestamp {
    pub secs: i64,
    pub offset_secs: i32,
}

/// The projected completion instant: the last record's instant plus one day
/// for each `remaining / pace` (both truncated), or nothing when the pace is
/// zero and no projection exists.
pub open spec fn spec_estimate(last_ts: i64, total: int, days: int, target: int) -> Option<int> {
    let pace = total / days;
    if pace == 0 {
        None
    } else {
        Some(last_ts + (target - total) / pace * 86_400)
    }
}

/// Projects the date the target will be reached at the observed pace, keeping
/// the timezone offset of the last record. Returns `None` exactly when the
/// pace truncates to zero, in which case no projection exists.
pub fn estimate_target_reached_date(last_day: &Workout, total_pushups: u64, total_days: u32, target: u32) -> (r: Option<Timestamp>)
    requires
        total_days >= 1,
        total_pushups < target,
    ensures
        r is Some <==> spec_estimate(last_day.spec_ts(), total_pushups as int, total_days as int, target as int) is Some,
        r matches Some(t) ==> {
            &&& Some(t.secs as int) == spec_estimate(last_day.spec_ts(), total_pushups as int, total_days as int, target as int)
            &&& t.offset_secs == last_day.spec_offset()
        },
{
    let pushups_left_todo = (target as u64) - total_pushups;
    let progress_speed = get_progress_speed_per_day(total_pushups, total_days);
    if progress_speed == 0 {
        None
    } else {
        let days_ahead = pushups_left_todo / progress_speed;
        proof {
            assert(days_ahead <= pushups_left_todo) by (nonlinear_arith)
                requires
                    days_ahead == pushups_left_todo as int / progress_speed as int,
                    progress_speed >= 1,
                    pushups_left_todo >= 0,
            ;
        }
        let ts = last_day.timestamp_secs();
        let secs = ts + (days_ahead * 86_400) as i64;
        Some(Timestamp { secs, offset_secs: last_day.utc_offset_secs() })
    }
}

/// What one run reports: either the goal is reached, or the progress so far
/// with the projected completion date when one exists.
pub enum Report {
    /// The target is reached: the total and the inclusive day span.
    GoalReached { total: u64, days: u32 },
    /// Still under way: progress in hundredths of a percent and, when the
    /// pace allows one, the projected completion date.
    Progress { percent_hundredths: u32, projection: Option<Timestamp> },
}

/// What the report of a nonempty, date-sorted record list must say against a
/// target.
pub open spec fn report_matches(ws: Seq<Workout>, target: u32, r: Report) -> bool {
    let total = spec_total(ws);
    let days = spec_day_span(ws[0].spec_ts(), ws.last().spec_ts());
    match r {
        Report::GoalReached { total: t, days: d } => {
            &&& total >= target
            &&& t == total
            &&& d == days
        },
        Report::Progress { percent_hundredths, projection } => {
            &&& total < target
            &&& percent_hundredths == total * 10_000 / target as int
            &&& match projection {
                Some(t) => {
                    &&& Some(t.secs as int) == spec_estimate(
                        ws.last().spec_ts(),
                        total,
                        days,
                        target as int,
                    )
                    &&& t.offset_secs == ws.last().spec_offset()
                },
                None => spec_estimate(ws.last().spec_ts(), total, days, target as int) is None,
            }
        },
    }
}

/// Builds the report for a nonempty record list sorted by date: the goal
/// branch when the total reaches the target, otherwise the progress branch
/// with the projection.
pub fn build_report(ws: &Vec<Workout>, target: u32) -> (r: Report)
    requires
        1 <= ws@.len() < 0x1_0000_0000,
        target >= 1,
    ensures
        report_matches(ws@, target, r),
{
    let total = get_total_pushups(ws);
    let days = get_workouts_days_span(&ws[0], &ws[ws.len() - 1]);
    proof {
        assert(ws@[ws@.len() - 1] == ws@.last());
    }
    if total >= target as u64 {
        Report::GoalReached { total, days }
    } else {
        let percent_hundredths = get_progress_percentage_hundredths(total, target);
        let projection = estimate_target_reached_date(&ws[ws.len() - 1], total, days, target);
        Report::Progress { percent_hundredths, projection }
    }
}

/// One run of the tracker's core: appends the new record, sorts by date, and
/// reports the progress against the target. The returned list holds exactly
/// the records handed in plus the new one, in ascending date order, and its
/// total is the total of what was handed in plus the new record's repeats.
pub fn run_session(records: Vec<Workout>, new_entry: Workout, target: u32) -> (r: (
    Vec<Workout>,
    Report,
))
    requires
        records@.len() + 1 < 0x1_0000_0000,
        target >= 1,
    ensures
        r.0@ == spec_sort(records@.push(new_entry)),
        sorted_by_date(r.0@),
        r.0@.to_multiset() == records@.push(new_entry).to_multiset(),
        spec_total(r.0@) == spec_total(records@) + new_entry.spec_repeats(),
        report_matches(r.0@, target, r.1),
{
    let mut ws = records;
    let ghost before = ws@;
    ws.push(new_entry);
    let ghost appended = ws@;
    sort_workouts(&mut ws);
    proof {
        broadcast use vstd::seq_lib::group_to_multiset_ensures;

        lemma_sort_sorted(appended);
        lemma_sort_multiset(appended);
        lemma_total_permutation(ws@, appended);
        assert(appended.drop_last() =~= before);
        assert(ws@.to_multiset().len() == ws@.len());
        assert(appended.to_multiset().len() == appended.len());
        assert(ws@.len() == appended.len());
    }
    let report = build_report(&ws, target);
    (ws, report)
}

} // verus!
