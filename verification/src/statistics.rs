//! The statistics aggregator: read-only views over the task table and the
//! ledger for a day window, blending the live elapsed time of open sessions
//! into every aggregate.

use vstd::prelude::*;
use crate::agg::all_pred;
use crate::agg::count_if;
use crate::agg::entry_day;
use crate::agg::entry_seconds;
use crate::agg::lemma_agg_absent;
use crate::agg::lemma_agg_take_succ;
use crate::agg::lemma_store_seconds_nonneg;
use crate::agg::lemma_sum_mono;
use crate::agg::lemma_sum_nonneg;
use crate::agg::lemma_sum_pos_exists;
use crate::agg::lemma_sum_prefix_le;
use crate::agg::sum_if;
use crate::agg::total_all;
use crate::agg::window_pred;
use crate::agg::window_sessions;
use crate::agg::window_total;
use crate::date::date_to_day_number;
use crate::date::format_day_number;
use crate::date::format_time12;
use crate::date::day_date_string;
use crate::date::time12_string;
use crate::date::weekday_name;
use crate::date::weekday_name_of;
use crate::date::weekday_of;
use crate::date::weekday_of_day;
use crate::date::day_number_to_date;
use crate::date::lemma_date_of_day_unique;
use crate::date::month_length;
use crate::date::month_length_of;
use crate::date::parse_date;
use crate::date::parse_month;
use crate::date::spec_date_of_day;
use crate::date::spec_parse_date;
use crate::date::spec_parse_month;
use crate::date::day_number_of;
use crate::date::Date;
use crate::date::MAX_DAY_NUMBER;
use crate::date::MAX_TIMESTAMP;
use crate::date::SECONDS_PER_DAY;
use crate::store::Store;
use crate::store::Tasks;
use crate::store::TaskStatus;
use crate::store::TimeEntry;
use vstd::string::StrSliceExecFns;

verus! {

/// The date-range input of the statistics views, as `YYYY-MM-DD` texts (the
/// month view also accepts `YYYY-MM` for `start_date`).
#[derive(Debug, Clone)]
pub struct StatsDateQuery {
    /// The first day of the range; defaults per view.
    pub start_date: Option<String>,
    /// The last day of the range; defaults per view.
    pub end_date: Option<String>,
}

/// One category's share of a window.
#[derive(Debug, Clone)]
pub struct CategoryStat {
    /// The category name, or `Other` for tasks without a category.
    pub name: String,
    /// The category color, or `#9CA3AF` for the `Other` bucket.
    pub color: String,
    /// Blended seconds of the window spent in this category.
    pub seconds: i64,
    /// The whole-number percentage of the window total, rounded half up;
    /// 0 for every row when the total is 0.
    pub percentage: i64,
}

/// One day's share of a week window.
#[derive(Debug, Clone)]
pub struct DailyStat {
    /// The short weekday name, `Sun` through `Sat`.
    pub day_name: String,
    /// The day as `YYYY-MM-DD`.
    pub date: String,
    /// Blended seconds of that day.
    pub seconds: i64,
    /// The whole-number percentage of the window total.
    pub percentage: i64,
}

/// One calendar day of the month overview.
#[derive(Debug, Clone)]
pub struct MonthlyDailyStat {
    /// The day as `YYYY-MM-DD`.
    pub date: String,
    /// Blended seconds of that day.
    pub seconds: i64,
    /// Whether any time was tracked that day.
    pub active: bool,
    /// The heatmap bucket: 0 for an empty day, else 1 through 3 relative to
    /// the busiest day of the range.
    pub level: i32,
}

/// One task's share of a window.
#[derive(Debug, Clone)]
pub struct TaskStat {
    /// The task's id.
    pub task_id: u32,
    /// The task's title.
    pub task_title: String,
    /// The category name, if the task has one.
    pub category: Option<String>,
    /// The category color, if the task has one.
    pub category_color: Option<String>,
    /// Blended seconds of the window spent on the task.
    pub seconds: i64,
    /// The end of the latest closed session as a 12-hour-clock text;
    /// absent outside the today view.
    pub last_time: Option<String>,
}

/// The today view.
#[derive(Debug, Clone)]
pub struct TodayStatsResponse {
    /// Blended seconds of the day across all tasks.
    pub total_seconds: i64,
    /// Blended seconds of the day on tasks whose status is Finished now.
    pub focused_seconds: i64,
    /// Sessions started that day.
    pub sessions_count: i64,
    /// Per-category shares, busiest first.
    pub categories: Vec<CategoryStat>,
    /// Per-task shares, busiest first, ties broken by most recent end.
    pub detailed_report: Vec<TaskStat>,
}

/// The week view.
#[derive(Debug, Clone)]
pub struct WeekStatsResponse {
    /// Blended seconds of the range.
    pub total_seconds: i64,
    /// The total divided by the day span of the range.
    pub daily_average_seconds: i64,
    /// Sessions started within the range.
    pub sessions_count: i64,
    /// One row per day with activity, in date order.
    pub daily_breakdown: Vec<DailyStat>,
    /// Per-category shares, busiest first.
    pub categories: Vec<CategoryStat>,
}

/// The month view.
#[derive(Debug, Clone)]
pub struct MonthStatsResponse {
    /// Blended seconds of the range.
    pub total_seconds: i64,
    /// The total divided by the day span of the range.
    pub daily_average_seconds: i64,
    /// Days of the range with at least one session.
    pub active_days: i64,
    /// One row for every calendar day of the range.
    pub monthly_overview: Vec<MonthlyDailyStat>,
    /// Per-category shares, busiest first.
    pub categories: Vec<CategoryStat>,
    /// The ten busiest tasks of the range.
    pub top_tasks: Vec<TaskStat>,
}

/// `seconds / total` as a whole-number percentage, rounded half up; 0 when
/// the total is not positive.
pub open spec fn percent_of(sec: int, total: int) -> int {
    if total <= 0 {
        0
    } else {
        (200 * sec + total) / (2 * total)
    }
}

/// The heatmap bucket of a day: 0 when empty, otherwise the ceiling of
/// `seconds / max * 3` clamped into 1 through 3, against the busiest day.
pub open spec fn level_of(sec: int, max: int) -> int {
    if sec == 0 {
        0
    } else if max > 0 {
        let l = (3 * sec + max - 1) / max;
        if l < 1 {
            1
        } else if l > 3 {
            3
        } else {
            l
        }
    } else {
        1
    }
}

/// The rounded percentage, computed in wide arithmetic.
fn percent_exec(sec: i64, total: i64) -> (r: i64)
    requires
        0 <= sec <= total,
    ensures
        r == percent_of(sec as int, total as int),
        0 <= r <= 100,
{
    if total <= 0 {
        return 0;
    }
    let num: i128 = 200i128 * (sec as i128) + (total as i128);
    let den: i128 = 2i128 * (total as i128);
    let q: i128 = num / den;
    proof {
        let ni = num as int;
        let di = den as int;
        vstd::arithmetic::div_mod::lemma_fundamental_div_mod(ni, di);
        assert(0 <= ni / di <= 100) by (nonlinear_arith)
            requires
                ni == 200 * sec + total,
                di == 2 * total,
                0 <= sec <= total,
                total >= 1,
                ni == di * (ni / di) + (ni % di),
                0 <= ni % di < di,
        ;
    }
    q as i64
}

/// The heatmap level, computed in wide arithmetic.
fn level_exec(sec: i64, max: i64) -> (r: i32)
    requires
        0 <= sec <= max,
    ensures
        r == level_of(sec as int, max as int),
        0 <= r <= 3,
{
    if sec == 0 {
        return 0;
    }
    let num: i128 = 3i128 * (sec as i128) + (max as i128) - 1;
    let l: i128 = num / (max as i128);
    if l < 1 {
        1
    } else if l > 3 {
        3
    } else {
        l as i32
    }
}

/// The optional date field, parsed.
pub open spec fn spec_opt_date(o: Option<String>) -> Option<Date> {
    match o {
        Some(s) => spec_parse_date(s@),
        None => None,
    }
}

/// The day the today view reads: the parsed `start_date`, or the current
/// day when the field is missing or does not parse as a date.
pub open spec fn resolved_today_day(q: StatsDateQuery, now: int) -> int {
    match spec_opt_date(q.start_date) {
        Some(d) => d.num(),
        None => now / (SECONDS_PER_DAY as int),
    }
}

/// The range the week view reads: the parsed dates, with the seven days
/// ending today standing in for whatever is missing or does not parse.
pub open spec fn resolved_week_range(q: StatsDateQuery, now: int) -> (int, int) {
    let today = now / (SECONDS_PER_DAY as int);
    let d0 = match spec_opt_date(q.start_date) {
        Some(d) => d.num(),
        None => today - 6,
    };
    let d1 = match spec_opt_date(q.end_date) {
        Some(d) => d.num(),
        None => today,
    };
    (d0, d1)
}

/// The first day of the month the given day lies in.
pub open spec fn month_first_day(n: int) -> int {
    day_number_of(spec_date_of_day(n).year as int, spec_date_of_day(n).month as int, 1)
}

/// The range the month view reads: a whole month for a `YYYY-MM` start, the
/// explicit pair for full dates (an end that is missing or does not parse
/// collapses to the start), and the current month up to today otherwise.
pub open spec fn resolved_month_range(q: StatsDateQuery, now: int) -> (int, int) {
    let today = now / (SECONDS_PER_DAY as int);
    match q.start_date {
        Some(s) => {
            if s@.len() == 7 {
                match spec_parse_month(s@) {
                    Some(first) => (
                        first.num(),
                        first.num() + month_length(first.year as int, first.month as int) - 1,
                    ),
                    None => (month_first_day(today), today),
                }
            } else {
                match spec_parse_date(s@) {
                    Some(d) => (
                        d.num(),
                        match spec_opt_date(q.end_date) {
                            Some(e) => e.num(),
                            None => d.num(),
                        },
                    ),
                    None => (month_first_day(today), today),
                }
            }
        },
        None => (month_first_day(today), today),
    }
}

/// An optional date field, with a fallback day.
fn resolve_date_or(o: &Option<String>, fallback: i64) -> (r: i64)
    requires
        -6 <= fallback <= MAX_DAY_NUMBER,
    ensures
        r == (match spec_opt_date(*o) {
            Some(d) => d.num(),
            None => fallback as int,
        }),
        -6 <= r <= MAX_DAY_NUMBER,
        spec_opt_date(*o) is Some ==> 0 <= r,
{
    match o {
        Some(s) => {
            match parse_date(s.as_str()) {
                Some(d) => {
                    proof {
                        crate::date::lemma_day_number_bounds(
                            d.year as int,
                            d.month as int,
                            d.day as int,
                        );
                    }
                    date_to_day_number(d)
                },
                None => fallback,
            }
        },
        None => fallback,
    }
}

/// The current day of a timestamp.
fn today_of(now: i64) -> (r: i64)
    requires
        0 <= now <= MAX_TIMESTAMP,
    ensures
        r == now as int / (SECONDS_PER_DAY as int),
        0 <= r <= MAX_DAY_NUMBER,
{
    now / SECONDS_PER_DAY
}

/// The first day of the month `today` lies in.
fn month_first_day_of(today: i64) -> (r: i64)
    requires
        0 <= today <= MAX_DAY_NUMBER,
    ensures
        r == month_first_day(today as int),
        0 <= r <= today,
{
    let dt = day_number_to_date(today);
    proof {
        lemma_date_of_day_unique(dt, spec_date_of_day(today as int));
    }
    let first = Date { year: dt.year, month: dt.month, day: 1 };
    let r = date_to_day_number(first);
    proof {
        assert(first.num() <= dt.num());
    }
    r
}

/// The today view's day.
fn resolve_today(q: &StatsDateQuery, now: i64) -> (r: i64)
    requires
        0 <= now <= MAX_TIMESTAMP,
    ensures
        r == resolved_today_day(*q, now as int),
        0 <= r <= MAX_DAY_NUMBER,
{
    let today = today_of(now);
    match &q.start_date {
        Some(s) => {
            match parse_date(s.as_str()) {
                Some(d) => {
                    proof {
                        crate::date::lemma_day_number_bounds(
                            d.year as int,
                            d.month as int,
                            d.day as int,
                        );
                    }
                    date_to_day_number(d)
                },
                None => today,
            }
        },
        None => today,
    }
}

/// The week view's range.
fn resolve_week(q: &StatsDateQuery, now: i64) -> (r: (i64, i64))
    requires
        0 <= now <= MAX_TIMESTAMP,
    ensures
        r.0 == resolved_week_range(*q, now as int).0,
        r.1 == resolved_week_range(*q, now as int).1,
        -6 <= r.0 <= MAX_DAY_NUMBER,
        0 <= r.1 <= MAX_DAY_NUMBER,
{
    let today = today_of(now);
    let d0 = resolve_date_or(&q.start_date, today - 6);
    let d1 = resolve_date_or(&q.end_date, today);
    (d0, d1)
}

/// The month view's range.
fn resolve_month(q: &StatsDateQuery, now: i64) -> (r: (i64, i64))
    requires
        0 <= now <= MAX_TIMESTAMP,
    ensures
        r.0 == resolved_month_range(*q, now as int).0,
        r.1 == resolved_month_range(*q, now as int).1,
        0 <= r.0 <= MAX_DAY_NUMBER,
        -6 <= r.1 <= MAX_DAY_NUMBER,
{
    let today = today_of(now);
    match &q.start_date {
        Some(s) => {
            if s.unicode_len() == 7 {
                match parse_month(s.as_str()) {
                    Some(first) => {
                        let ml = month_length_of(first.year, first.month);
                        let last = Date { year: first.year, month: first.month, day: ml };
                        proof {
                            crate::date::lemma_day_number_bounds(
                                last.year as int,
                                last.month as int,
                                last.day as int,
                            );
                        }
                        let d1 = date_to_day_number(last);
                        let d0 = date_to_day_number(first);
                        (d0, d1)
                    },
                    None => (month_first_day_of(today), today),
                }
            } else {
                match parse_date(s.as_str()) {
                    Some(d) => {
                        proof {
                            crate::date::lemma_day_number_bounds(
                                d.year as int,
                                d.month as int,
                                d.day as int,
                            );
                        }
                        let d0 = date_to_day_number(d);
                        let d1 = resolve_date_or(&q.end_date, d0);
                        (d0, d1)
                    },
                    None => (month_first_day_of(today), today),
                }
            }
        },
        None => (month_first_day_of(today), today),
    }
}

/// Entries of the window whose task is Finished now.
pub open spec fn finished_pred(tasks: Seq<Tasks>, d0: int, d1: int) -> spec_fn(TimeEntry) -> bool {
    |e: TimeEntry|
        d0 <= entry_day(e) <= d1 && 0 <= e.task_id - 1 < tasks.len() && tasks[e.task_id
            - 1].done == TaskStatus::Finished
}

/// The blended seconds of the window spent on tasks whose status is
/// Finished at read time.
pub open spec fn focused_total(s: Store, d0: int, d1: int, now: int) -> int {
    sum_if(s.entries@, finished_pred(s.tasks@, d0, d1), now)
}

/// The blended total of a day window.
#[verifier::loop_isolation(false)]
fn sum_window_exec(store: &Store, d0: i64, d1: i64, now: i64) -> (r: i64)
    requires
        store.wf(),
        store.clock <= now,
        total_all(*store, now as int) <= i64::MAX,
    ensures
        r == window_total(*store, d0 as int, d1 as int, now as int),
        0 <= r,
{
    proof {
        lemma_store_seconds_nonneg(*store, now as int);
    }
    let ghost p = window_pred(d0 as int, d1 as int);
    let n = store.entries.len();
    let mut acc: i64 = 0;
    let mut j: usize = 0;
    while j < n
        invariant
            n == store.entries@.len(),
            j <= n,
            acc == sum_if(store.entries@.take(j as int), p, now as int),
            0 <= acc,
        decreases n - j,
    {
        proof {
            lemma_agg_take_succ(store.entries@, p, now as int, j as int);
            lemma_sum_prefix_le(store.entries@, p, now as int, j as int + 1);
            lemma_sum_mono(store.entries@, p, all_pred(), now as int);
            lemma_sum_nonneg(store.entries@.take(j as int + 1), p, now as int);
            assert(store.entry_wf(store.entries@[j as int]));
        }
        let e = &store.entries[j];
        let day = e.started_at / SECONDS_PER_DAY;
        if d0 <= day && day <= d1 {
            let sec = match e.duration_seconds {
                Some(d) => d,
                None => now - e.started_at,
            };
            acc = acc + sec;
        }
        j = j + 1;
    }
    proof {
        assert(store.entries@.take(n as int) =~= store.entries@);
    }
    acc
}

/// The number of sessions started within a day window.
#[verifier::loop_isolation(false)]
fn count_window_exec(store: &Store, d0: i64, d1: i64) -> (r: i64)
    requires
        store.wf(),
    ensures
        r == window_sessions(*store, d0 as int, d1 as int),
        0 <= r,
{
    let ghost p = window_pred(d0 as int, d1 as int);
    let n = store.entries.len();
    let mut acc: i64 = 0;
    let mut j: usize = 0;
    while j < n
        invariant
            n == store.entries@.len(),
            j <= n,
            acc == count_if(store.entries@.take(j as int), p),
            0 <= acc <= j,
        decreases n - j,
    {
        proof {
            lemma_agg_take_succ(store.entries@, p, 0, j as int);
            assert(store.entry_wf(store.entries@[j as int]));
        }
        let e = &store.entries[j];
        let day = e.started_at / SECONDS_PER_DAY;
        if d0 <= day && day <= d1 {
            acc = acc + 1;
        }
        j = j + 1;
    }
    proof {
        assert(store.entries@.take(n as int) =~= store.entries@);
    }
    acc
}

/// The category key of an entry: its task's category, `None` for the
/// synthetic `Other` bucket.
pub open spec fn cat_of_entry(tasks: Seq<Tasks>, e: TimeEntry) -> Option<u32> {
    if 0 <= e.task_id - 1 < tasks.len() {
        tasks[e.task_id - 1].category_id
    } else {
        None
    }
}

/// Entries of the window filed under category `key`.
pub open spec fn cat_pred(tasks: Seq<Tasks>, key: Option<u32>, d0: int, d1: int) -> spec_fn(
    TimeEntry,
) -> bool {
    |e: TimeEntry| d0 <= entry_day(e) <= d1 && cat_of_entry(tasks, e) == key
}

/// Blended seconds of the window filed under category `key`.
pub open spec fn cat_seconds(s: Store, key: Option<u32>, d0: int, d1: int, now: int) -> int {
    sum_if(s.entries@, cat_pred(s.tasks@, key, d0, d1), now)
}

/// Category `key` appears among the first `upto` ledger entries that fall in
/// the window.
pub open spec fn cat_present_upto(s: Store, key: Option<u32>, d0: int, d1: int, upto: int) -> bool {
    exists|j: int|
        0 <= j < upto && j < s.entries@.len() && d0 <= entry_day(#[trigger] s.entries@[j]) <= d1
            && cat_of_entry(s.tasks@, s.entries@[j]) == key
}

/// Category `key` appears among the window's entries.
pub open spec fn cat_present(s: Store, key: Option<u32>, d0: int, d1: int) -> bool {
    cat_present_upto(s, key, d0, d1, s.entries@.len() as int)
}

/// One in-progress aggregation bucket of the per-category rollup.
#[derive(Debug, Clone, Copy)]
struct CatBucket {
    /// The category key; `None` is the `Other` bucket.
    key: Option<u32>,
    /// Blended seconds accumulated so far.
    seconds: i64,
}

/// The seconds of a bucket list, summed.
spec fn sum_cat_buckets(bs: Seq<CatBucket>) -> int
    decreases bs.len(),
{
    if bs.len() == 0 {
        0
    } else {
        sum_cat_buckets(bs.drop_last()) + bs.last().seconds
    }
}

/// A bucket with the given key exists.
spec fn has_cat_key(bs: Seq<CatBucket>, key: Option<u32>) -> bool {
    exists|b: int| 0 <= b < bs.len() && (#[trigger] bs[b]).key == key
}

/// No two buckets share a key.
spec fn cat_keys_distinct(bs: Seq<CatBucket>) -> bool {
    forall|a: int, b: int|
        0 <= a < bs.len() && 0 <= b < bs.len() && a != b ==> (#[trigger] bs[a]).key != (
        #[trigger] bs[b]).key
}

proof fn lemma_sum_cat_push(bs: Seq<CatBucket>, x: CatBucket)
    ensures
        sum_cat_buckets(bs.push(x)) == sum_cat_buckets(bs) + x.seconds,
{
    assert(bs.push(x).drop_last() =~= bs);
}

proof fn lemma_sum_cat_update(bs: Seq<CatBucket>, b: int, x: CatBucket)
    requires
        0 <= b < bs.len(),
    ensures
        sum_cat_buckets(bs.update(b, x)) == sum_cat_buckets(bs) - bs[b].seconds + x.seconds,
    decreases bs.len(),
{
    if b == bs.len() - 1 {
        assert(bs.update(b, x).drop_last() =~= bs.drop_last());
        assert(bs.update(b, x).last() == x);
    } else {
        assert(bs.update(b, x).drop_last() =~= bs.drop_last().update(b, x));
        assert(bs.update(b, x).last() == bs.last());
        lemma_sum_cat_update(bs.drop_last(), b, x);
    }
}

proof fn lemma_sum_cat_take_succ(bs: Seq<CatBucket>, b: int)
    requires
        0 <= b < bs.len(),
    ensures
        sum_cat_buckets(bs.take(b + 1)) == sum_cat_buckets(bs.take(b)) + bs[b].seconds,
{
    assert(bs.take(b + 1).drop_last() =~= bs.take(b));
    assert(bs.take(b + 1).last() == bs[b]);
}

/// Equal optional ids.
fn opt_u32_eq(a: &Option<u32>, b: &Option<u32>) -> (r: bool)
    ensures
        r == (*a == *b),
{
    match (a, b) {
        (Some(x), Some(y)) => x == y,
        (None, None) => true,
        _ => false,
    }
}

/// Groups the window's entries into per-category buckets: one bucket per
/// key that appears, carrying the key's blended seconds; the buckets
/// together account for the whole window total.
#[verifier::loop_isolation(false)]
#[verifier::rlimit(50)]
fn build_cat_buckets(store: &Store, d0: i64, d1: i64, now: i64) -> (bs: Vec<CatBucket>)
    requires
        store.wf(),
        store.clock <= now,
        total_all(*store, now as int) <= i64::MAX,
    ensures
        cat_keys_distinct(bs@),
        forall|key: Option<u32>| #[trigger]
            has_cat_key(bs@, key) <==> cat_present(*store, key, d0 as int, d1 as int),
        forall|b: int|
            0 <= b < bs@.len() ==> (#[trigger] bs@[b]).seconds == cat_seconds(
                *store,
                bs@[b].key,
                d0 as int,
                d1 as int,
                now as int,
            ) && 0 <= bs@[b].seconds,
        sum_cat_buckets(bs@) == window_total(*store, d0 as int, d1 as int, now as int),
{
    proof {
        lemma_store_seconds_nonneg(*store, now as int);
    }
    let ghost entries = store.entries@;
    let ghost tasks = store.tasks@;
    let ghost d0i = d0 as int;
    let ghost d1i = d1 as int;
    let ghost nowi = now as int;
    let n = store.entries.len();
    let mut bs: Vec<CatBucket> = Vec::new();
    let mut j: usize = 0;
    while j < n
        invariant
            n == entries.len(),
            j <= n,
            cat_keys_distinct(bs@),
            forall|key: Option<u32>| #[trigger]
                has_cat_key(bs@, key) <==> cat_present_upto(*store, key, d0i, d1i, j as int),
            forall|b: int|
                0 <= b < bs@.len() ==> (#[trigger] bs@[b]).seconds == sum_if(
                    entries.take(j as int),
                    cat_pred(tasks, bs@[b].key, d0i, d1i),
                    nowi,
                ) && 0 <= bs@[b].seconds,
            sum_cat_buckets(bs@) == sum_if(entries.take(j as int), window_pred(d0i, d1i), nowi),
        decreases n - j,
    {
        let ghost ji = j as int;
        let ghost ej = entries[ji];
        proof {
            assert(store.entry_wf(ej));
            lemma_agg_take_succ(entries, window_pred(d0i, d1i), nowi, ji);
            assert forall|b: int| 0 <= b < bs@.len() implies sum_if(
                entries.take(ji + 1),
                cat_pred(tasks, (#[trigger] bs@[b]).key, d0i, d1i),
                nowi,
            ) == sum_if(entries.take(ji), cat_pred(tasks, bs@[b].key, d0i, d1i), nowi) + (if (
            cat_pred(tasks, bs@[b].key, d0i, d1i))(ej) {
                entry_seconds(ej, nowi)
            } else {
                0int
            }) by {
                lemma_agg_take_succ(entries, cat_pred(tasks, bs@[b].key, d0i, d1i), nowi, ji);
            }
        }
        let e = &store.entries[j];
        let day = e.started_at / SECONDS_PER_DAY;
        if d0 <= day && day <= d1 {
            let ti = (e.task_id - 1) as usize;
            let key = store.tasks[ti].category_id;
            proof {
                assert(cat_of_entry(tasks, ej) == key);
            }
            let sec = match e.duration_seconds {
                Some(d) => d,
                None => now - e.started_at,
            };
            proof {
                assert(sec == entry_seconds(ej, nowi));
            }
            let m = bs.len();
            let mut b: usize = 0;
            let mut found: bool = false;
            while b < m && !found
                invariant
                    m == bs@.len(),
                    b <= m,
                    !found ==> forall|b2: int| 0 <= b2 < b ==> (#[trigger] bs@[b2]).key != key,
                    found ==> b < m && bs@[b as int].key == key,
                decreases m - b + if found {
                    0int
                } else {
                    1int
                },
            {
                if opt_u32_eq(&bs[b].key, &key) {
                    found = true;
                } else {
                    b = b + 1;
                }
            }
            proof {
                let kp = cat_pred(tasks, key, d0i, d1i);
                assert(kp(ej));
                lemma_agg_take_succ(entries, kp, nowi, ji);
                lemma_sum_prefix_le(entries, kp, nowi, ji + 1);
                lemma_sum_mono(entries, kp, all_pred(), nowi);
                lemma_sum_nonneg(entries.take(ji + 1), kp, nowi);
                lemma_sum_nonneg(entries.take(ji), kp, nowi);
            }
            let ghost before = bs@;
            if found {
                let upd = CatBucket { key: bs[b].key, seconds: bs[b].seconds + sec };
                proof {
                    lemma_sum_cat_update(bs@, b as int, upd);
                }
                bs.set(b, upd);
                proof {
                    assert forall|key2: Option<u32>| #[trigger]
                        has_cat_key(bs@, key2) <==> has_cat_key(before, key2) by {
                        if has_cat_key(bs@, key2) {
                            let b2 = choose|b2: int|
                                0 <= b2 < bs@.len() && (#[trigger] bs@[b2]).key == key2;
                            assert(before[b2].key == key2);
                        }
                        if has_cat_key(before, key2) {
                            let b2 = choose|b2: int|
                                0 <= b2 < before.len() && (#[trigger] before[b2]).key == key2;
                            assert(bs@[b2].key == key2);
                        }
                    }
                }
            } else {
                proof {
                    lemma_sum_cat_push(bs@, CatBucket { key, seconds: sec });
                    let kp = cat_pred(tasks, key, d0i, d1i);
                    assert(!has_cat_key(before, key));
                    assert(!cat_present_upto(*store, key, d0i, d1i, ji));
                    assert forall|x: int| 0 <= x < entries.take(ji).len() implies !kp(
                        #[trigger] entries.take(ji)[x],
                    ) by {
                        assert(entries.take(ji)[x] == entries[x]);
                        if kp(entries[x]) {
                            assert(cat_present_upto(*store, key, d0i, d1i, ji));
                        }
                    }
                    lemma_agg_absent(entries.take(ji), kp, nowi);
                }
                bs.push(CatBucket { key, seconds: sec });
                proof {
                    assert forall|key2: Option<u32>| #[trigger]
                        has_cat_key(bs@, key2) <==> (has_cat_key(before, key2) || key2
                        == key) by {
                        if has_cat_key(bs@, key2) {
                            let b2 = choose|b2: int|
                                0 <= b2 < bs@.len() && (#[trigger] bs@[b2]).key == key2;
                            if b2 < before.len() {
                                assert(before[b2].key == key2);
                            }
                        }
                        if has_cat_key(before, key2) {
                            let b2 = choose|b2: int|
                                0 <= b2 < before.len() && (#[trigger] before[b2]).key == key2;
                            assert(bs@[b2].key == key2);
                        }
                        if key2 == key {
                            assert(bs@[bs@.len() - 1].key == key2);
                        }
                    }
                }
            }
            proof {
                assert forall|key2: Option<u32>| #[trigger]
                    cat_present_upto(*store, key2, d0i, d1i, ji + 1) <==> (cat_present_upto(
                    *store,
                    key2,
                    d0i,
                    d1i,
                    ji,
                ) || key2 == key) by {
                    if cat_present_upto(*store, key2, d0i, d1i, ji + 1) {
                        let j2 = choose|j2: int|
                            0 <= j2 < ji + 1 && j2 < entries.len() && d0i <= entry_day(
                                #[trigger] entries[j2],
                            ) <= d1i && cat_of_entry(tasks, entries[j2]) == key2;
                        if j2 < ji {
                            assert(cat_present_upto(*store, key2, d0i, d1i, ji));
                        } else {
                            assert(key2 == key);
                        }
                    }
                    if cat_present_upto(*store, key2, d0i, d1i, ji) {
                        let j2 = choose|j2: int|
                            0 <= j2 < ji && j2 < entries.len() && d0i <= entry_day(
                                #[trigger] entries[j2],
                            ) <= d1i && cat_of_entry(tasks, entries[j2]) == key2;
                        assert(cat_present_upto(*store, key2, d0i, d1i, ji + 1));
                    }
                    if key2 == key {
                        assert(d0i <= entry_day(entries[ji]) <= d1i && cat_of_entry(
                            tasks,
                            entries[ji],
                        ) == key2);
                        assert(cat_present_upto(*store, key2, d0i, d1i, ji + 1));
                    }
                }
            }
        } else {
            proof {
                assert forall|key2: Option<u32>| #[trigger]
                    cat_present_upto(*store, key2, d0i, d1i, ji + 1) <==> cat_present_upto(
                    *store,
                    key2,
                    d0i,
                    d1i,
                    ji,
                ) by {
                    if cat_present_upto(*store, key2, d0i, d1i, ji + 1) {
                        let j2 = choose|j2: int|
                            0 <= j2 < ji + 1 && j2 < entries.len() && d0i <= entry_day(
                                #[trigger] entries[j2],
                            ) <= d1i && cat_of_entry(tasks, entries[j2]) == key2;
                        assert(j2 != ji);
                        assert(cat_present_upto(*store, key2, d0i, d1i, ji));
                    }
                    if cat_present_upto(*store, key2, d0i, d1i, ji) {
                        let j2 = choose|j2: int|
                            0 <= j2 < ji && j2 < entries.len() && d0i <= entry_day(
                                #[trigger] entries[j2],
                            ) <= d1i && cat_of_entry(tasks, entries[j2]) == key2;
                        assert(cat_present_upto(*store, key2, d0i, d1i, ji + 1));
                    }
                }
            }
        }
        j = j + 1;
    }
    proof {
        assert(entries.take(n as int) =~= entries);
    }
    bs
}

/// Sorts buckets by seconds, busiest first, preserving the buckets
/// themselves: a pointwise property, their key set, distinctness, and their
/// sum.
#[verifier::loop_isolation(false)]
fn sort_cat_buckets(v: &mut Vec<CatBucket>, Ghost(good): Ghost<spec_fn(CatBucket) -> bool>)
    requires
        forall|b: int| 0 <= b < old(v)@.len() ==> good(#[trigger] old(v)@[b]),
    ensures
        final(v)@.len() == old(v)@.len(),
        forall|a: int, b: int|
            0 <= a < b < final(v)@.len() ==> (#[trigger] final(v)@[a]).seconds >= (
            #[trigger] final(v)@[b]).seconds,
        forall|b: int| 0 <= b < final(v)@.len() ==> good(#[trigger] final(v)@[b]),
        forall|key: Option<u32>| #[trigger]
            has_cat_key(final(v)@, key) <==> has_cat_key(old(v)@, key),
        cat_keys_distinct(old(v)@) ==> cat_keys_distinct(final(v)@),
        sum_cat_buckets(final(v)@) == sum_cat_buckets(old(v)@),
{
    let n = v.len();
    if n == 0 {
        return ;
    }
    let mut i: usize = 1;
    while i < n
        invariant
            n == v@.len(),
            old(v)@.len() == n,
            1 <= i <= n,
            forall|a: int, b: int|
                0 <= a < b < i ==> (#[trigger] v@[a]).seconds >= (#[trigger] v@[b]).seconds,
            forall|b: int| 0 <= b < n ==> good(#[trigger] v@[b]),
            forall|key: Option<u32>| #[trigger] has_cat_key(v@, key) <==> has_cat_key(old(v)@, key),
            cat_keys_distinct(old(v)@) ==> cat_keys_distinct(v@),
            sum_cat_buckets(v@) == sum_cat_buckets(old(v)@),
        decreases n - i,
    {
        let mut j: usize = i;
        while j > 0 && v[j - 1].seconds < v[j].seconds
            invariant
                n == v@.len(),
                old(v)@.len() == n,
                0 <= j <= i < n,
                forall|a: int, b: int|
                    0 <= a < b <= i && b != j ==> (#[trigger] v@[a]).seconds >= (
                    #[trigger] v@[b]).seconds,
                forall|a: int| j < a <= i ==> v@[j as int].seconds >= (#[trigger] v@[a]).seconds,
                forall|b: int| 0 <= b < n ==> good(#[trigger] v@[b]),
                forall|key: Option<u32>| #[trigger]
                    has_cat_key(v@, key) <==> has_cat_key(old(v)@, key),
                cat_keys_distinct(old(v)@) ==> cat_keys_distinct(v@),
                sum_cat_buckets(v@) == sum_cat_buckets(old(v)@),
            decreases j,
        {
            let ghost prev = v@;
            let x = v[j - 1];
            let y = v[j];
            v.set(j - 1, y);
            v.set(j, x);
            proof {
                lemma_sum_cat_update(prev, j - 1, y);
                lemma_sum_cat_update(prev.update(j - 1, y), j as int, x);
                assert(prev.update(j - 1, y)[j as int] == prev[j as int]);
                assert forall|b: int| 0 <= b < n implies good(#[trigger] v@[b]) by {
                    let src = if b == j - 1 {
                        j as int
                    } else if b == j {
                        j - 1
                    } else {
                        b
                    };
                    assert(v@[b] == prev[src]);
                    assert(good(prev[src]));
                }
                assert forall|key: Option<u32>| #[trigger]
                    has_cat_key(v@, key) <==> has_cat_key(prev, key) by {
                    if has_cat_key(v@, key) {
                        let b = choose|b: int| 0 <= b < v@.len() && (#[trigger] v@[b]).key == key;
                        let src = if b == j - 1 {
                            j as int
                        } else if b == j {
                            j - 1
                        } else {
                            b
                        };
                        assert(prev[src].key == key);
                    }
                    if has_cat_key(prev, key) {
                        let b = choose|b: int|
                            0 <= b < prev.len() && (#[trigger] prev[b]).key == key;
                        let dst = if b == j - 1 {
                            j as int
                        } else if b == j {
                            j - 1
                        } else {
                            b
                        };
                        assert(v@[dst].key == key);
                    }
                }
                if cat_keys_distinct(prev) {
                    assert forall|a: int, b: int|
                        0 <= a < v@.len() && 0 <= b < v@.len() && a != b implies (
                    #[trigger] v@[a]).key != (#[trigger] v@[b]).key by {
                        let sa = if a == j - 1 {
                            j as int
                        } else if a == j {
                            j - 1
                        } else {
                            a
                        };
                        let sb = if b == j - 1 {
                            j as int
                        } else if b == j {
                            j - 1
                        } else {
                            b
                        };
                        assert(v@[a] == prev[sa] && v@[b] == prev[sb] && sa != sb);
                    }
                }
            }
            j = j - 1;
        }
        i = i + 1;
    }
}

/// The `Other` bucket's display name.
pub open spec fn other_name() -> Seq<char> {
    seq!['O', 't', 'h', 'e', 'r']
}

/// The `Other` bucket's display color.
pub open spec fn other_color() -> Seq<char> {
    seq!['#', '9', 'C', 'A', '3', 'A', 'F']
}

/// One finished per-category row is truthful for `key`: the blended seconds
/// of that category, the rounded percentage of the window total, and the
/// category's own name and color (or the `Other` bucket's).
pub open spec fn cat_row_matches(
    s: Store,
    row: CategoryStat,
    key: Option<u32>,
    d0: int,
    d1: int,
    now: int,
    total: int,
) -> bool {
    &&& row.seconds == cat_seconds(s, key, d0, d1, now)
    &&& row.percentage == percent_of(row.seconds as int, total)
    &&& match key {
        Some(c) => exists|ci: int|
            0 <= ci < s.categories@.len() && (#[trigger] s.categories@[ci]).id == c && row.name@
                == s.categories@[ci].name@ && row.color@ == s.categories@[ci].color@,
        None => row.name@ == other_name() && row.color@ == other_color(),
    }
}

/// The seconds of the rows, summed.
pub open spec fn sum_cat_rows(rows: Seq<CategoryStat>) -> int
    decreases rows.len(),
{
    if rows.len() == 0 {
        0
    } else {
        sum_cat_rows(rows.drop_last()) + rows.last().seconds
    }
}

/// The per-category rows stand for the distinct key list `ks`: exactly the
/// keys of the window, each row truthful for its key, ordered busiest
/// first, and summing to the window total.
pub open spec fn categories_listed(
    s: Store,
    rows: Seq<CategoryStat>,
    ks: Seq<Option<u32>>,
    d0: int,
    d1: int,
    now: int,
    total: int,
) -> bool {
    &&& ks.len() == rows.len()
    &&& forall|a: int, b: int| 0 <= a < ks.len() && 0 <= b < ks.len() && a != b ==> ks[a] != ks[b]
    &&& forall|key: Option<u32>| #[trigger] ks.contains(key) <==> cat_present(s, key, d0, d1)
    &&& forall|i: int|
        0 <= i < rows.len() ==> cat_row_matches(s, #[trigger] rows[i], ks[i], d0, d1, now, total)
    &&& forall|a: int, b: int|
        0 <= a < b < rows.len() ==> (#[trigger] rows[a]).seconds >= (#[trigger] rows[b]).seconds
    &&& sum_cat_rows(rows) == window_total(s, d0, d1, now)
}

/// There is a key list the rows stand for.
pub open spec fn categories_ok(
    s: Store,
    rows: Seq<CategoryStat>,
    d0: int,
    d1: int,
    now: int,
    total: int,
) -> bool {
    exists|ks: Seq<Option<u32>>| categories_listed(s, rows, ks, d0, d1, now, total)
}

/// The name and color of the category with the given id.
#[verifier::loop_isolation(false)]
fn category_name_color(store: &Store, cid: u32) -> (r: Option<(String, String)>)
    requires
        store.wf(),
    ensures
        match r {
            Some(nc) => exists|ci: int|
                0 <= ci < store.categories@.len() && (#[trigger] store.categories@[ci]).id == cid
                    && nc.0@ == store.categories@[ci].name@ && nc.1@
                    == store.categories@[ci].color@,
            None => !store.has_category(cid),
        },
{
    let mut i: usize = 0;
    while i < store.categories.len()
        invariant
            i <= store.categories@.len(),
            forall|k: int| 0 <= k < i ==> (#[trigger] store.categories@[k]).id != cid,
        decreases store.categories@.len() - i,
    {
        if store.categories[i].id == cid {
            return Some((store.categories[i].name.clone(), store.categories[i].color.clone()));
        }
        i = i + 1;
    }
    None
}

proof fn lemma_sum_cat_rows_push(rows: Seq<CategoryStat>, x: CategoryStat)
    ensures
        sum_cat_rows(rows.push(x)) == sum_cat_rows(rows) + x.seconds,
{
    assert(rows.push(x).drop_last() =~= rows);
}

/// The per-category rows of a window, busiest first, with the `Other`
/// bucket for tasks without a category.
#[verifier::loop_isolation(false)]
fn compute_categories(store: &Store, d0: i64, d1: i64, now: i64, total: i64) -> (rows: Vec<
    CategoryStat,
>)
    requires
        store.wf(),
        store.clock <= now,
        total_all(*store, now as int) <= i64::MAX,
        total == window_total(*store, d0 as int, d1 as int, now as int),
    ensures
        categories_ok(*store, rows@, d0 as int, d1 as int, now as int, total as int),
{
    proof {
        lemma_store_seconds_nonneg(*store, now as int);
        reveal_strlit("Other");
        reveal_strlit("#9CA3AF");
    }
    let ghost d0i = d0 as int;
    let ghost d1i = d1 as int;
    let ghost nowi = now as int;
    let mut bs = build_cat_buckets(store, d0, d1, now);
    let ghost bs0 = bs@;
    let ghost good = |bk: CatBucket|
        bk.seconds == cat_seconds(*store, bk.key, d0i, d1i, nowi) && 0 <= bk.seconds;
    sort_cat_buckets(&mut bs, Ghost(good));
    let ghost ks = bs@.map_values(|bk: CatBucket| bk.key);
    let m = bs.len();
    let mut rows: Vec<CategoryStat> = Vec::new();
    let mut b: usize = 0;
    while b < m
        invariant
            m == bs@.len(),
            b <= m,
            rows@.len() == b,
            ks.len() == m,
            forall|i: int| 0 <= i < m ==> ks[i] == (#[trigger] bs@[i]).key,
            forall|i: int|
                0 <= i < b ==> cat_row_matches(
                    *store,
                    #[trigger] rows@[i],
                    ks[i],
                    d0i,
                    d1i,
                    nowi,
                    total as int,
                ) && rows@[i].seconds == bs@[i].seconds,
            sum_cat_rows(rows@) == sum_cat_buckets(bs@.take(b as int)),
        decreases m - b,
    {
        let seconds = bs[b].seconds;
        proof {
            let kp = cat_pred(store.tasks@, bs@[b as int].key, d0i, d1i);
            lemma_sum_mono(store.entries@, kp, window_pred(d0i, d1i), nowi);
            lemma_sum_cat_take_succ(bs@, b as int);
        }
        let percentage = percent_exec(seconds, total);
        let nc: (String, String) = match &bs[b].key {
            Some(cid) => {
                proof {
                    assert(has_cat_key(bs@, bs@[b as int].key));
                    assert(cat_present(*store, bs@[b as int].key, d0i, d1i));
                    let j = choose|j: int|
                        0 <= j < store.entries@.len() && d0i <= entry_day(
                            #[trigger] store.entries@[j],
                        ) <= d1i && cat_of_entry(store.tasks@, store.entries@[j]) == bs@[
                            b as int
                        ].key;
                    assert(store.entry_wf(store.entries@[j]));
                    assert(store.task_wf(store.tasks@[store.entries@[j].task_id - 1]));
                }
                match category_name_color(store, *cid) {
                    Some(p) => p,
                    None => {
                        proof {
                            assert(false);
                        }
                        (String::new(), String::new())
                    },
                }
            },
            None => {
                let name = String::from_str("Other");
                let color = String::from_str("#9CA3AF");
                proof {
                    assert(name@ =~= other_name());
                    assert(color@ =~= other_color());
                }
                (name, color)
            },
        };
        proof {
            lemma_sum_cat_rows_push(
                rows@,
                CategoryStat { name: nc.0, color: nc.1, seconds, percentage },
            );
        }
        rows.push(CategoryStat { name: nc.0, color: nc.1, seconds, percentage });
        b = b + 1;
    }
    proof {
        assert(bs@.take(m as int) =~= bs@);
        assert forall|key: Option<u32>| #[trigger] ks.contains(key) implies cat_present(
            *store,
            key,
            d0i,
            d1i,
        ) by {
            let i = choose|i: int| 0 <= i < ks.len() && ks[i] == key;
            assert(has_cat_key(bs@, key));
        }
        assert forall|key: Option<u32>| cat_present(*store, key, d0i, d1i) implies #[trigger] ks
            .contains(key) by {
            assert(has_cat_key(bs@, key));
            let b2 = choose|b2: int| 0 <= b2 < bs@.len() && (#[trigger] bs@[b2]).key == key;
            assert(ks[b2] == key);
        }
        assert(categories_listed(*store, rows@, ks, d0i, d1i, nowi, total as int));
    }
    rows
}

/// The blended total of the window restricted to Finished tasks.
#[verifier::loop_isolation(false)]
fn sum_focused_exec(store: &Store, d0: i64, d1: i64, now: i64) -> (r: i64)
    requires
        store.wf(),
        store.clock <= now,
        total_all(*store, now as int) <= i64::MAX,
    ensures
        r == focused_total(*store, d0 as int, d1 as int, now as int),
        0 <= r,
{
    proof {
        lemma_store_seconds_nonneg(*store, now as int);
    }
    let ghost p = finished_pred(store.tasks@, d0 as int, d1 as int);
    let n = store.entries.len();
    let mut acc: i64 = 0;
    let mut j: usize = 0;
    while j < n
        invariant
            n == store.entries@.len(),
            j <= n,
            acc == sum_if(store.entries@.take(j as int), p, now as int),
            0 <= acc,
        decreases n - j,
    {
        proof {
            lemma_agg_take_succ(store.entries@, p, now as int, j as int);
            lemma_sum_prefix_le(store.entries@, p, now as int, j as int + 1);
            lemma_sum_mono(store.entries@, p, all_pred(), now as int);
            lemma_sum_nonneg(store.entries@.take(j as int + 1), p, now as int);
            assert(store.entry_wf(store.entries@[j as int]));
        }
        let e = &store.entries[j];
        let day = e.started_at / SECONDS_PER_DAY;
        if d0 <= day && day <= d1 {
            let ti = (e.task_id - 1) as usize;
            if store.tasks[ti].done == TaskStatus::Finished {
                let sec = match e.duration_seconds {
                    Some(d) => d,
                    None => now - e.started_at,
                };
                acc = acc + sec;
            }
        }
        j = j + 1;
    }
    proof {
        assert(store.entries@.take(n as int) =~= store.entries@);
    }
    acc
}

/// Entries of the window that belong to task `tid`.
pub open spec fn task_pred(tid: u32, d0: int, d1: int) -> spec_fn(TimeEntry) -> bool {
    |e: TimeEntry| d0 <= entry_day(e) <= d1 && e.task_id == tid
}

/// Blended seconds of the window spent on task `tid`.
pub open spec fn task_seconds(s: Store, tid: u32, d0: int, d1: int, now: int) -> int {
    sum_if(s.entries@, task_pred(tid, d0, d1), now)
}

/// Task `tid` appears among the first `upto` ledger entries that fall in
/// the window.
pub open spec fn task_present_upto(s: Store, tid: u32, d0: int, d1: int, upto: int) -> bool {
    exists|j: int|
        0 <= j < upto && j < s.entries@.len() && d0 <= entry_day(#[trigger] s.entries@[j]) <= d1
            && s.entries@[j].task_id == tid
}

/// Task `tid` appears among the window's entries.
pub open spec fn task_present(s: Store, tid: u32, d0: int, d1: int) -> bool {
    task_present_upto(s, tid, d0, d1, s.entries@.len() as int)
}

/// The latest end among the closed window entries of task `tid`, scanning
/// the first `upto` ledger entries.
pub open spec fn last_end_upto(s: Seq<TimeEntry>, tid: u32, d0: int, d1: int, upto: int) -> Option<
    int,
>
    decreases upto,
{
    if upto <= 0 {
        None
    } else {
        let rest = last_end_upto(s, tid, d0, d1, upto - 1);
        if 0 <= upto - 1 < s.len() && d0 <= entry_day(s[upto - 1]) <= d1 && s[upto - 1].task_id
            == tid && s[upto - 1].ended_at is Some {
            let en = s[upto - 1].ended_at->0 as int;
            match rest {
                None => Some(en),
                Some(m) => Some(
                    if m >= en {
                        m
                    } else {
                        en
                    },
                ),
            }
        } else {
            rest
        }
    }
}

/// The latest end among the closed window entries of task `tid`.
pub open spec fn last_end_in(s: Store, tid: u32, d0: int, d1: int) -> Option<int> {
    last_end_upto(s.entries@, tid, d0, d1, s.entries@.len() as int)
}

/// One in-progress aggregation bucket of the per-task rollup.
#[derive(Debug, Clone, Copy)]
struct TaskBucket {
    /// The task's id.
    tid: u32,
    /// Blended seconds accumulated so far.
    seconds: i64,
    /// The latest end among the task's closed window entries seen so far.
    last_end: Option<i64>,
}

/// An optional machine integer, as an optional mathematical one.
pub open spec fn opt_i64_int(o: Option<i64>) -> Option<int> {
    match o {
        Some(x) => Some(x as int),
        None => None,
    }
}

/// A bucket for the given task exists.
spec fn has_task_key(bs: Seq<TaskBucket>, tid: u32) -> bool {
    exists|b: int| 0 <= b < bs.len() && (#[trigger] bs[b]).tid == tid
}

/// No two buckets share a task.
spec fn task_keys_distinct(bs: Seq<TaskBucket>) -> bool {
    forall|a: int, b: int|
        0 <= a < bs.len() && 0 <= b < bs.len() && a != b ==> (#[trigger] bs[a]).tid != (
        #[trigger] bs[b]).tid
}

/// Later-or-equal ordering of optional end times, with absence last.
pub open spec fn report_opt_geq(a: Option<int>, b: Option<int>) -> bool {
    match (a, b) {
        (Some(x), Some(y)) => x >= y,
        (Some(x), None) => true,
        (None, None) => true,
        (None, Some(y)) => false,
    }
}

/// The today view's report order between two tasks: more seconds first,
/// ties broken by the most recent end.
pub open spec fn report_pair_geq(s: Store, t1: u32, t2: u32, d0: int, d1: int, now: int) -> bool {
    task_seconds(s, t1, d0, d1, now) > task_seconds(s, t2, d0, d1, now) || (task_seconds(
        s,
        t1,
        d0,
        d1,
        now,
    ) == task_seconds(s, t2, d0, d1, now) && report_opt_geq(
        last_end_in(s, t1, d0, d1),
        last_end_in(s, t2, d0, d1),
    ))
}

/// The same order on buckets.
spec fn tb_geq(a: TaskBucket, b: TaskBucket) -> bool {
    a.seconds > b.seconds || (a.seconds == b.seconds && report_opt_geq(
        opt_i64_int(a.last_end),
        opt_i64_int(b.last_end),
    ))
}

/// The bucket order, decided.
fn tb_geq_exec(a: &TaskBucket, b: &TaskBucket) -> (r: bool)
    ensures
        r == tb_geq(*a, *b),
{
    if a.seconds > b.seconds {
        true
    } else if a.seconds < b.seconds {
        false
    } else {
        match (&a.last_end, &b.last_end) {
            (Some(x), Some(y)) => *x >= *y,
            (Some(x), None) => true,
            (None, None) => true,
            (None, Some(y)) => false,
        }
    }
}

/// Groups the window's entries into per-task buckets carrying the task's
/// blended seconds and the latest end among its closed window entries.
#[verifier::loop_isolation(false)]
#[verifier::rlimit(80)]
fn build_task_buckets(store: &Store, d0: i64, d1: i64, now: i64) -> (bs: Vec<TaskBucket>)
    requires
        store.wf(),
        store.clock <= now,
        total_all(*store, now as int) <= i64::MAX,
    ensures
        task_keys_distinct(bs@),
        forall|tid: u32| #[trigger]
            has_task_key(bs@, tid) <==> task_present(*store, tid, d0 as int, d1 as int),
        forall|b: int|
            0 <= b < bs@.len() ==> {
                &&& (#[trigger] bs@[b]).seconds == task_seconds(
                    *store,
                    bs@[b].tid,
                    d0 as int,
                    d1 as int,
                    now as int,
                )
                &&& 0 <= bs@[b].seconds
                &&& opt_i64_int(bs@[b].last_end) == last_end_in(*store, bs@[b].tid, d0 as int, d1 as int)
                &&& store.has_task(bs@[b].tid)
                &&& match bs@[b].last_end {
                    Some(en) => 0 <= en <= store.clock,
                    None => true,
                }
            },
{
    proof {
        lemma_store_seconds_nonneg(*store, now as int);
    }
    let ghost entries = store.entries@;
    let ghost d0i = d0 as int;
    let ghost d1i = d1 as int;
    let ghost nowi = now as int;
    let n = store.entries.len();
    let mut bs: Vec<TaskBucket> = Vec::new();
    let mut j: usize = 0;
    while j < n
        invariant
            n == entries.len(),
            j <= n,
            task_keys_distinct(bs@),
            forall|tid: u32| #[trigger]
                has_task_key(bs@, tid) <==> task_present_upto(*store, tid, d0i, d1i, j as int),
            forall|b: int|
                0 <= b < bs@.len() ==> {
                    &&& (#[trigger] bs@[b]).seconds == sum_if(
                        entries.take(j as int),
                        task_pred(bs@[b].tid, d0i, d1i),
                        nowi,
                    )
                    &&& 0 <= bs@[b].seconds
                    &&& opt_i64_int(bs@[b].last_end) == last_end_upto(
                        entries,
                        bs@[b].tid,
                        d0i,
                        d1i,
                        j as int,
                    )
                    &&& store.has_task(bs@[b].tid)
                    &&& match bs@[b].last_end {
                        Some(en) => 0 <= en <= store.clock,
                        None => true,
                    }
                },
        decreases n - j,
    {
        let ghost ji = j as int;
        let ghost ej = entries[ji];
        proof {
            assert(store.entry_wf(ej));
            assert forall|b: int| 0 <= b < bs@.len() implies sum_if(
                entries.take(ji + 1),
                task_pred((#[trigger] bs@[b]).tid, d0i, d1i),
                nowi,
            ) == sum_if(entries.take(ji), task_pred(bs@[b].tid, d0i, d1i), nowi) + (if (task_pred(
                bs@[b].tid,
                d0i,
                d1i,
            ))(ej) {
                entry_seconds(ej, nowi)
            } else {
                0int
            }) by {
                lemma_agg_take_succ(entries, task_pred(bs@[b].tid, d0i, d1i), nowi, ji);
            }
        }
        let e = &store.entries[j];
        let day = e.started_at / SECONDS_PER_DAY;
        if d0 <= day && day <= d1 {
            let tid = e.task_id;
            let sec = match e.duration_seconds {
                Some(d) => d,
                None => now - e.started_at,
            };
            proof {
                assert(sec == entry_seconds(ej, nowi));
            }
            let m = bs.len();
            let mut b: usize = 0;
            let mut found: bool = false;
            while b < m && !found
                invariant
                    m == bs@.len(),
                    b <= m,
                    !found ==> forall|b2: int| 0 <= b2 < b ==> (#[trigger] bs@[b2]).tid != tid,
                    found ==> b < m && bs@[b as int].tid == tid,
                decreases m - b + if found {
                    0int
                } else {
                    1int
                },
            {
                if bs[b].tid == tid {
                    found = true;
                } else {
                    b = b + 1;
                }
            }
            proof {
                let kp = task_pred(tid, d0i, d1i);
                assert(kp(ej));
                lemma_agg_take_succ(entries, kp, nowi, ji);
                lemma_sum_prefix_le(entries, kp, nowi, ji + 1);
                lemma_sum_mono(entries, kp, all_pred(), nowi);
                lemma_sum_nonneg(entries.take(ji + 1), kp, nowi);
                lemma_sum_nonneg(entries.take(ji), kp, nowi);
            }
            let new_last: Option<i64> = match (e.ended_at, if found {
                bs[b].last_end
            } else {
                None
            }) {
                (Some(en), Some(m2)) => Some(
                    if m2 >= en {
                        m2
                    } else {
                        en
                    },
                ),
                (Some(en), None) => Some(en),
                (None, Some(m2)) => Some(m2),
                (None, None) => None,
            };
            let ghost before = bs@;
            if found {
                let upd = TaskBucket { tid: bs[b].tid, seconds: bs[b].seconds + sec, last_end: new_last };
                bs.set(b, upd);
                proof {
                    assert forall|tid2: u32| #[trigger]
                        has_task_key(bs@, tid2) <==> has_task_key(before, tid2) by {
                        if has_task_key(bs@, tid2) {
                            let b2 = choose|b2: int|
                                0 <= b2 < bs@.len() && (#[trigger] bs@[b2]).tid == tid2;
                            assert(before[b2].tid == tid2);
                        }
                        if has_task_key(before, tid2) {
                            let b2 = choose|b2: int|
                                0 <= b2 < before.len() && (#[trigger] before[b2]).tid == tid2;
                            assert(bs@[b2].tid == tid2);
                        }
                    }
                }
            } else {
                proof {
                    let kp = task_pred(tid, d0i, d1i);
                    assert(!has_task_key(before, tid));
                    assert(!task_present_upto(*store, tid, d0i, d1i, ji));
                    assert forall|x: int| 0 <= x < entries.take(ji).len() implies !kp(
                        #[trigger] entries.take(ji)[x],
                    ) by {
                        assert(entries.take(ji)[x] == entries[x]);
                        if kp(entries[x]) {
                            assert(task_present_upto(*store, tid, d0i, d1i, ji));
                        }
                    }
                    lemma_agg_absent(entries.take(ji), kp, nowi);
                    assert(last_end_upto(entries, tid, d0i, d1i, 0) is None);
                    lemma_last_end_absent(entries, tid, d0i, d1i, ji, *store);
                }
                bs.push(TaskBucket { tid, seconds: sec, last_end: new_last });
                proof {
                    assert forall|tid2: u32| #[trigger]
                        has_task_key(bs@, tid2) <==> (has_task_key(before, tid2) || tid2
                        == tid) by {
                        if has_task_key(bs@, tid2) {
                            let b2 = choose|b2: int|
                                0 <= b2 < bs@.len() && (#[trigger] bs@[b2]).tid == tid2;
                            if b2 < before.len() {
                                assert(before[b2].tid == tid2);
                            }
                        }
                        if has_task_key(before, tid2) {
                            let b2 = choose|b2: int|
                                0 <= b2 < before.len() && (#[trigger] before[b2]).tid == tid2;
                            assert(bs@[b2].tid == tid2);
                        }
                        if tid2 == tid {
                            assert(bs@[bs@.len() - 1].tid == tid2);
                        }
                    }
                }
            }
            proof {
                assert forall|tid2: u32| #[trigger]
                    task_present_upto(*store, tid2, d0i, d1i, ji + 1) <==> (task_present_upto(
                    *store,
                    tid2,
                    d0i,
                    d1i,
                    ji,
                ) || tid2 == tid) by {
                    if task_present_upto(*store, tid2, d0i, d1i, ji + 1) {
                        let j2 = choose|j2: int|
                            0 <= j2 < ji + 1 && j2 < entries.len() && d0i <= entry_day(
                                #[trigger] entries[j2],
                            ) <= d1i && entries[j2].task_id == tid2;
                        if j2 < ji {
                            assert(task_present_upto(*store, tid2, d0i, d1i, ji));
                        }
                    }
                    if task_present_upto(*store, tid2, d0i, d1i, ji) {
                        let j2 = choose|j2: int|
                            0 <= j2 < ji && j2 < entries.len() && d0i <= entry_day(
                                #[trigger] entries[j2],
                            ) <= d1i && entries[j2].task_id == tid2;
                        assert(task_present_upto(*store, tid2, d0i, d1i, ji + 1));
                    }
                    if tid2 == tid {
                        assert(d0i <= entry_day(entries[ji]) <= d1i && entries[ji].task_id == tid2);
                        assert(task_present_upto(*store, tid2, d0i, d1i, ji + 1));
                    }
                }
            }
        } else {
            proof {
                assert forall|tid2: u32| #[trigger]
                    task_present_upto(*store, tid2, d0i, d1i, ji + 1) <==> task_present_upto(
                    *store,
                    tid2,
                    d0i,
                    d1i,
                    ji,
                ) by {
                    if task_present_upto(*store, tid2, d0i, d1i, ji + 1) {
                        let j2 = choose|j2: int|
                            0 <= j2 < ji + 1 && j2 < entries.len() && d0i <= entry_day(
                                #[trigger] entries[j2],
                            ) <= d1i && entries[j2].task_id == tid2;
                        assert(j2 != ji);
                        assert(task_present_upto(*store, tid2, d0i, d1i, ji));
                    }
                    if task_present_upto(*store, tid2, d0i, d1i, ji) {
                        let j2 = choose|j2: int|
                            0 <= j2 < ji && j2 < entries.len() && d0i <= entry_day(
                                #[trigger] entries[j2],
                            ) <= d1i && entries[j2].task_id == tid2;
                        assert(task_present_upto(*store, tid2, d0i, d1i, ji + 1));
                    }
                }
            }
        }
        j = j + 1;
    }
    proof {
        assert(entries.take(n as int) =~= entries);
    }
    bs
}

/// A task that never appears in the first `upto` window entries has no
/// recorded end there.
proof fn lemma_last_end_absent(
    s: Seq<TimeEntry>,
    tid: u32,
    d0: int,
    d1: int,
    upto: int,
    st: Store,
)
    requires
        upto <= s.len(),
        !task_present_upto(st, tid, d0, d1, upto),
        st.entries@ == s,
    ensures
        last_end_upto(s, tid, d0, d1, upto) is None,
    decreases upto,
{
    if upto > 0 {
        assert(!task_present_upto(st, tid, d0, d1, upto - 1)) by {
            if task_present_upto(st, tid, d0, d1, upto - 1) {
                let j2 = choose|j2: int|
                    0 <= j2 < upto - 1 && j2 < s.len() && d0 <= entry_day(#[trigger] s[j2]) <= d1
                        && s[j2].task_id == tid;
                assert(task_present_upto(st, tid, d0, d1, upto));
            }
        }
        lemma_last_end_absent(s, tid, d0, d1, upto - 1, st);
        if d0 <= entry_day(s[upto - 1]) <= d1 && s[upto - 1].task_id == tid {
            assert(task_present_upto(st, tid, d0, d1, upto));
        }
    }
}

/// Sorts task buckets in report order, busiest first with ties broken by
/// the most recent end, preserving the buckets themselves.
#[verifier::loop_isolation(false)]
#[verifier::rlimit(50)]
fn sort_task_buckets(v: &mut Vec<TaskBucket>, Ghost(good): Ghost<spec_fn(TaskBucket) -> bool>)
    requires
        forall|b: int| 0 <= b < old(v)@.len() ==> good(#[trigger] old(v)@[b]),
    ensures
        final(v)@.len() == old(v)@.len(),
        forall|a: int, b: int|
            0 <= a < b < final(v)@.len() ==> tb_geq(
                #[trigger] final(v)@[a],
                #[trigger] final(v)@[b],
            ),
        forall|b: int| 0 <= b < final(v)@.len() ==> good(#[trigger] final(v)@[b]),
        forall|tid: u32| #[trigger] has_task_key(final(v)@, tid) <==> has_task_key(old(v)@, tid),
        task_keys_distinct(old(v)@) ==> task_keys_distinct(final(v)@),
{
    let n = v.len();
    if n == 0 {
        return ;
    }
    let mut i: usize = 1;
    while i < n
        invariant
            n == v@.len(),
            old(v)@.len() == n,
            1 <= i <= n,
            forall|a: int, b: int| 0 <= a < b < i ==> tb_geq(#[trigger] v@[a], #[trigger] v@[b]),
            forall|b: int| 0 <= b < n ==> good(#[trigger] v@[b]),
            forall|tid: u32| #[trigger] has_task_key(v@, tid) <==> has_task_key(old(v)@, tid),
            task_keys_distinct(old(v)@) ==> task_keys_distinct(v@),
        decreases n - i,
    {
        let mut j: usize = i;
        let mut more: bool = true;
        while j > 0 && more
            invariant
                n == v@.len(),
                old(v)@.len() == n,
                0 <= j <= i < n,
                forall|a: int, b: int|
                    0 <= a < b <= i && b != j ==> tb_geq(#[trigger] v@[a], #[trigger] v@[b]),
                forall|a: int| j < a <= i ==> tb_geq(v@[j as int], #[trigger] v@[a]),
                !more && j > 0 ==> tb_geq(v@[j - 1], v@[j as int]),
                forall|b: int| 0 <= b < n ==> good(#[trigger] v@[b]),
                forall|tid: u32| #[trigger] has_task_key(v@, tid) <==> has_task_key(old(v)@, tid),
                task_keys_distinct(old(v)@) ==> task_keys_distinct(v@),
            decreases j + if more {
                1int
            } else {
                0int
            },
        {
            if tb_geq_exec(&v[j - 1], &v[j]) {
                more = false;
            } else {
                let ghost prev = v@;
                let x = v[j - 1];
                let y = v[j];
                v.set(j - 1, y);
                v.set(j, x);
                proof {
                    assert(prev.update(j - 1, y)[j as int] == prev[j as int]);
                    assert(tb_geq(v@[j - 1], v@[j as int]));
                    assert forall|b: int| 0 <= b < n implies good(#[trigger] v@[b]) by {
                        let src = if b == j - 1 {
                            j as int
                        } else if b == j {
                            j - 1
                        } else {
                            b
                        };
                        assert(v@[b] == prev[src]);
                        assert(good(prev[src]));
                    }
                    assert forall|tid2: u32| #[trigger]
                        has_task_key(v@, tid2) <==> has_task_key(prev, tid2) by {
                        if has_task_key(v@, tid2) {
                            let b = choose|b: int|
                                0 <= b < v@.len() && (#[trigger] v@[b]).tid == tid2;
                            let src = if b == j - 1 {
                                j as int
                            } else if b == j {
                                j - 1
                            } else {
                                b
                            };
                            assert(prev[src].tid == tid2);
                        }
                        if has_task_key(prev, tid2) {
                            let b = choose|b: int|
                                0 <= b < prev.len() && (#[trigger] prev[b]).tid == tid2;
                            let dst = if b == j - 1 {
                                j as int
                            } else if b == j {
                                j - 1
                            } else {
                                b
                            };
                            assert(v@[dst].tid == tid2);
                        }
                    }
                    if task_keys_distinct(prev) {
                        assert forall|a: int, b: int|
                            0 <= a < v@.len() && 0 <= b < v@.len() && a != b implies (
                        #[trigger] v@[a]).tid != (#[trigger] v@[b]).tid by {
                            let sa = if a == j - 1 {
                                j as int
                            } else if a == j {
                                j - 1
                            } else {
                                a
                            };
                            let sb = if b == j - 1 {
                                j as int
                            } else if b == j {
                                j - 1
                            } else {
                                b
                            };
                            assert(v@[a] == prev[sa] && v@[b] == prev[sb] && sa != sb);
                        }
                    }
                }
                j = j - 1;
            }
        }
        i = i + 1;
    }
}

/// One per-task row is truthful for task `tid`: its title, its category's
/// name and color (absent when the task has none), its blended window
/// seconds, and - when `with_last` - the 12-hour-clock text of its latest
/// closed end in the window.
pub open spec fn task_row_matches(
    s: Store,
    row: TaskStat,
    tid: u32,
    d0: int,
    d1: int,
    now: int,
    with_last: bool,
) -> bool {
    &&& row.task_id == tid
    &&& s.has_task(tid)
    &&& row.task_title@ == s.task_of(tid).title@
    &&& row.seconds == task_seconds(s, tid, d0, d1, now)
    &&& match s.task_of(tid).category_id {
        Some(c) => {
            &&& row.category is Some
            &&& row.category_color is Some
            &&& exists|ci: int|
                0 <= ci < s.categories@.len() && (#[trigger] s.categories@[ci]).id == c
                    && row.category->0@ == s.categories@[ci].name@ && row.category_color->0@
                    == s.categories@[ci].color@
        },
        None => row.category is None && row.category_color is None,
    }
    &&& if with_last {
        match last_end_in(s, tid, d0, d1) {
            Some(en) => row.last_time is Some && row.last_time->0@ == time12_string(en),
            None => row.last_time is None,
        }
    } else {
        row.last_time is None
    }
}

/// The report rows stand for the distinct task list `ks`: exactly the
/// window's tasks, each row truthful, in report order.
pub open spec fn report_listed(
    s: Store,
    rows: Seq<TaskStat>,
    ks: Seq<u32>,
    d0: int,
    d1: int,
    now: int,
) -> bool {
    &&& ks.len() == rows.len()
    &&& forall|a: int, b: int| 0 <= a < ks.len() && 0 <= b < ks.len() && a != b ==> ks[a] != ks[b]
    &&& forall|tid: u32| #[trigger] ks.contains(tid) <==> task_present(s, tid, d0, d1)
    &&& forall|i: int|
        0 <= i < rows.len() ==> task_row_matches(s, #[trigger] rows[i], ks[i], d0, d1, now, true)
    &&& forall|a: int, b: int| 0 <= a < b < ks.len() ==> report_pair_geq(s, ks[a], ks[b], d0, d1, now)
}

/// There is a task list the report rows stand for.
pub open spec fn report_ok(s: Store, rows: Seq<TaskStat>, d0: int, d1: int, now: int) -> bool {
    exists|ks: Seq<u32>| report_listed(s, rows, ks, d0, d1, now)
}

/// The top-task rows are the first ten of a full ranking `ks` of the
/// window's tasks by seconds, each row truthful (without an end time).
pub open spec fn top_tasks_listed(
    s: Store,
    rows: Seq<TaskStat>,
    ks: Seq<u32>,
    d0: int,
    d1: int,
    now: int,
) -> bool {
    &&& forall|a: int, b: int| 0 <= a < ks.len() && 0 <= b < ks.len() && a != b ==> ks[a] != ks[b]
    &&& forall|tid: u32| #[trigger] ks.contains(tid) <==> task_present(s, tid, d0, d1)
    &&& forall|a: int, b: int|
        0 <= a < b < ks.len() ==> task_seconds(s, #[trigger] ks[a], d0, d1, now) >= task_seconds(
            s,
            #[trigger] ks[b],
            d0,
            d1,
            now,
        )
    &&& rows.len() == (if ks.len() <= 10 {
        ks.len() as int
    } else {
        10int
    })
    &&& forall|i: int|
        0 <= i < rows.len() ==> task_row_matches(s, #[trigger] rows[i], ks[i], d0, d1, now, false)
}

/// There is a full ranking the top-task rows are the head of.
pub open spec fn top_tasks_ok(s: Store, rows: Seq<TaskStat>, d0: int, d1: int, now: int) -> bool {
    exists|ks: Seq<u32>| top_tasks_listed(s, rows, ks, d0, d1, now)
}

/// Builds one per-task row from a bucket.
fn task_row_of(
    store: &Store,
    tid: u32,
    seconds: i64,
    last_end: Option<i64>,
    with_last: bool,
) -> (row: TaskStat)
    requires
        store.wf(),
        store.has_task(tid),
        with_last ==> match last_end {
            Some(en) => 0 <= en <= store.clock,
            None => true,
        },
    ensures
        row.task_id == tid,
        row.task_title@ == store.task_of(tid).title@,
        row.seconds == seconds,
        match store.task_of(tid).category_id {
            Some(c) => {
                &&& row.category is Some
                &&& row.category_color is Some
                &&& exists|ci: int|
                    0 <= ci < store.categories@.len() && (#[trigger] store.categories@[ci]).id == c
                        && row.category->0@ == store.categories@[ci].name@
                        && row.category_color->0@ == store.categories@[ci].color@
            },
            None => row.category is None && row.category_color is None,
        },
        if with_last {
            match opt_i64_int(last_end) {
                Some(en) => row.last_time is Some && row.last_time->0@ == time12_string(en),
                None => row.last_time is None,
            }
        } else {
            row.last_time is None
        },
{
    let ti = (tid - 1) as usize;
    proof {
        assert(store.task_wf(store.tasks@[ti as int]));
    }
    let title = store.tasks[ti].title.clone();
    let (category, category_color): (Option<String>, Option<String>) = match store
        .tasks[ti]
        .category_id {
        Some(c) => {
            match category_name_color(store, c) {
                Some(p) => (Some(p.0), Some(p.1)),
                None => {
                    proof {
                        assert(false);
                    }
                    (None, None)
                },
            }
        },
        None => (None, None),
    };
    let last_time: Option<String> = if with_last {
        match last_end {
            Some(en) => Some(format_time12(en)),
            None => None,
        }
    } else {
        None
    };
    TaskStat { task_id: tid, task_title: title, category, category_color, seconds, last_time }
}

/// The today view's per-task report: one truthful row per task active in
/// the window, busiest first, ties broken by the most recent closed end.
#[verifier::loop_isolation(false)]
#[verifier::rlimit(50)]
fn compute_detailed_report(store: &Store, d0: i64, d1: i64, now: i64) -> (rows: Vec<TaskStat>)
    requires
        store.wf(),
        store.clock <= now,
        now <= MAX_TIMESTAMP,
        total_all(*store, now as int) <= i64::MAX,
    ensures
        report_ok(*store, rows@, d0 as int, d1 as int, now as int),
{
    let ghost d0i = d0 as int;
    let ghost d1i = d1 as int;
    let ghost nowi = now as int;
    let mut bs = build_task_buckets(store, d0, d1, now);
    let ghost good = |bk: TaskBucket|
        {
            &&& bk.seconds == task_seconds(*store, bk.tid, d0i, d1i, nowi)
            &&& 0 <= bk.seconds
            &&& opt_i64_int(bk.last_end) == last_end_in(*store, bk.tid, d0i, d1i)
            &&& store.has_task(bk.tid)
            &&& match bk.last_end {
                Some(en) => 0 <= en <= store.clock,
                None => true,
            }
        };
    sort_task_buckets(&mut bs, Ghost(good));
    let ghost ks = bs@.map_values(|bk: TaskBucket| bk.tid);
    let m = bs.len();
    let mut rows: Vec<TaskStat> = Vec::new();
    let mut b: usize = 0;
    while b < m
        invariant
            m == bs@.len(),
            b <= m,
            rows@.len() == b,
            ks.len() == m,
            forall|i: int| 0 <= i < m ==> ks[i] == (#[trigger] bs@[i]).tid,
            forall|i: int|
                0 <= i < b ==> task_row_matches(
                    *store,
                    #[trigger] rows@[i],
                    ks[i],
                    d0i,
                    d1i,
                    nowi,
                    true,
                ),
        decreases m - b,
    {
        let row = task_row_of(store, bs[b].tid, bs[b].seconds, bs[b].last_end, true);
        rows.push(row);
        b = b + 1;
    }
    proof {
        assert forall|tid: u32| #[trigger] ks.contains(tid) implies task_present(
            *store,
            tid,
            d0i,
            d1i,
        ) by {
            let i = choose|i: int| 0 <= i < ks.len() && ks[i] == tid;
            assert(has_task_key(bs@, tid));
        }
        assert forall|tid: u32| task_present(*store, tid, d0i, d1i) implies #[trigger] ks.contains(
            tid,
        ) by {
            assert(has_task_key(bs@, tid));
            let b2 = choose|b2: int| 0 <= b2 < bs@.len() && (#[trigger] bs@[b2]).tid == tid;
            assert(ks[b2] == tid);
        }
        assert forall|a: int, b2: int| 0 <= a < b2 < ks.len() implies report_pair_geq(
            *store,
            ks[a],
            ks[b2],
            d0i,
            d1i,
            nowi,
        ) by {
            assert(tb_geq(bs@[a], bs@[b2]));
            assert(good(bs@[a]) && good(bs@[b2]));
        }
        assert(report_listed(*store, rows@, ks, d0i, d1i, nowi));
    }
    rows
}

/// The month view's ranking: truthful rows for the ten busiest tasks of
/// the window.
#[verifier::loop_isolation(false)]
#[verifier::rlimit(50)]
fn compute_top_tasks(store: &Store, d0: i64, d1: i64, now: i64) -> (rows: Vec<TaskStat>)
    requires
        store.wf(),
        store.clock <= now,
        now <= MAX_TIMESTAMP,
        total_all(*store, now as int) <= i64::MAX,
    ensures
        top_tasks_ok(*store, rows@, d0 as int, d1 as int, now as int),
{
    let ghost d0i = d0 as int;
    let ghost d1i = d1 as int;
    let ghost nowi = now as int;
    let mut bs = build_task_buckets(store, d0, d1, now);
    let ghost good = |bk: TaskBucket|
        {
            &&& bk.seconds == task_seconds(*store, bk.tid, d0i, d1i, nowi)
            &&& 0 <= bk.seconds
            &&& opt_i64_int(bk.last_end) == last_end_in(*store, bk.tid, d0i, d1i)
            &&& store.has_task(bk.tid)
            &&& match bk.last_end {
                Some(en) => 0 <= en <= store.clock,
                None => true,
            }
        };
    sort_task_buckets(&mut bs, Ghost(good));
    let ghost ks = bs@.map_values(|bk: TaskBucket| bk.tid);
    let m = bs.len();
    let limit = if m <= 10 {
        m
    } else {
        10
    };
    let mut rows: Vec<TaskStat> = Vec::new();
    let mut b: usize = 0;
    while b < limit
        invariant
            m == bs@.len(),
            limit <= m,
            b <= limit,
            rows@.len() == b,
            ks.len() == m,
            forall|i: int| 0 <= i < m ==> ks[i] == (#[trigger] bs@[i]).tid,
            forall|i: int|
                0 <= i < b ==> task_row_matches(
                    *store,
                    #[trigger] rows@[i],
                    ks[i],
                    d0i,
                    d1i,
                    nowi,
                    false,
                ),
        decreases limit - b,
    {
        let row = task_row_of(store, bs[b].tid, bs[b].seconds, bs[b].last_end, false);
        rows.push(row);
        b = b + 1;
    }
    proof {
        assert forall|tid: u32| #[trigger] ks.contains(tid) implies task_present(
            *store,
            tid,
            d0i,
            d1i,
        ) by {
            let i = choose|i: int| 0 <= i < ks.len() && ks[i] == tid;
            assert(has_task_key(bs@, tid));
        }
        assert forall|tid: u32| task_present(*store, tid, d0i, d1i) implies #[trigger] ks.contains(
            tid,
        ) by {
            assert(has_task_key(bs@, tid));
            let b2 = choose|b2: int| 0 <= b2 < bs@.len() && (#[trigger] bs@[b2]).tid == tid;
            assert(ks[b2] == tid);
        }
        assert forall|a: int, b2: int| 0 <= a < b2 < ks.len() implies task_seconds(
            *store,
            #[trigger] ks[a],
            d0i,
            d1i,
            nowi,
        ) >= task_seconds(*store, #[trigger] ks[b2], d0i, d1i, nowi) by {
            assert(tb_geq(bs@[a], bs@[b2]));
            assert(good(bs@[a]) && good(bs@[b2]));
        }
        assert(top_tasks_listed(*store, rows@, ks, d0i, d1i, nowi));
    }
    rows
}

/// The blended seconds of one calendar day.
pub open spec fn day_seconds(s: Store, d: int, now: int) -> int {
    window_total(s, d, d, now)
}

/// One week-breakdown row is truthful for day `d`: the weekday name, the
/// date text, the day's blended seconds, and their share of the range.
pub open spec fn breakdown_row_matches(
    s: Store,
    row: DailyStat,
    d: int,
    now: int,
    total: int,
) -> bool {
    &&& row.day_name@ == weekday_name(weekday_of(d))
    &&& row.date@ == day_date_string(d)
    &&& row.seconds == day_seconds(s, d, now)
    &&& row.percentage == percent_of(row.seconds as int, total)
}

/// The breakdown rows stand for the day list `ds`: exactly the range's
/// active days, in date order, each row truthful.
pub open spec fn breakdown_listed(
    s: Store,
    rows: Seq<DailyStat>,
    ds: Seq<int>,
    d0: int,
    d1: int,
    now: int,
    total: int,
) -> bool {
    &&& ds.len() == rows.len()
    &&& forall|a: int, b: int| 0 <= a < b < ds.len() ==> ds[a] < ds[b]
    &&& forall|i: int| 0 <= i < ds.len() ==> d0 <= #[trigger] ds[i] <= d1 && day_seconds(s, ds[i], now) > 0
    &&& forall|d: int| d0 <= d <= d1 && day_seconds(s, d, now) > 0 ==> #[trigger] ds.contains(d)
    &&& forall|i: int|
        0 <= i < rows.len() ==> breakdown_row_matches(s, #[trigger] rows[i], ds[i], now, total)
}

/// There is a day list the breakdown rows stand for.
pub open spec fn breakdown_ok(
    s: Store,
    rows: Seq<DailyStat>,
    d0: int,
    d1: int,
    now: int,
    total: int,
) -> bool {
    exists|ds: Seq<int>| breakdown_listed(s, rows, ds, d0, d1, now, total)
}

/// Every day of a window's bound lies in the calendar range when it has
/// activity.
proof fn lemma_active_day_bounds(s: Store, d: int, now: int)
    requires
        s.wf(),
        s.clock <= now,
        day_seconds(s, d, now) > 0,
    ensures
        0 <= d <= MAX_DAY_NUMBER,
{
    lemma_sum_pos_exists(s.entries@, window_pred(d, d), now);
    let j = choose|j: int| 0 <= j < s.entries@.len() && (window_pred(d, d))(#[trigger] s.entries@[j]);
    assert(s.entry_wf(s.entries@[j]));
    let e = s.entries@[j];
    assert(entry_day(e) == d);
    vstd::arithmetic::div_mod::lemma_div_is_ordered(
        e.started_at as int,
        MAX_TIMESTAMP as int,
        SECONDS_PER_DAY as int,
    );
    vstd::arithmetic::div_mod::lemma_div_is_ordered(0, e.started_at as int, SECONDS_PER_DAY as int);
}

/// The week view's day rows: one truthful row per active day of the range,
/// in date order.
#[verifier::loop_isolation(false)]
#[verifier::rlimit(50)]
fn compute_breakdown(store: &Store, d0: i64, d1: i64, now: i64, total: i64) -> (rows: Vec<
    DailyStat,
>)
    requires
        store.wf(),
        store.clock <= now <= MAX_TIMESTAMP,
        total_all(*store, now as int) <= i64::MAX,
        total == window_total(*store, d0 as int, d1 as int, now as int),
        d1 < i64::MAX,
    ensures
        breakdown_ok(*store, rows@, d0 as int, d1 as int, now as int, total as int),
{
    let ghost d0i = d0 as int;
    let ghost d1i = d1 as int;
    let ghost nowi = now as int;
    let mut rows: Vec<DailyStat> = Vec::new();
    let ghost mut ds_tracked: Seq<int> = Seq::empty();
    let mut d = d0;
    while d <= d1
        invariant
            d0 <= d,
            d <= d1 + 1 || d == d0,
            ds_tracked.len() == rows@.len(),
            forall|a: int, b: int| 0 <= a < b < ds_tracked.len() ==> ds_tracked[a] < ds_tracked[b],
            forall|i: int|
                0 <= i < ds_tracked.len() ==> d0i <= #[trigger] ds_tracked[i] < d as int
                    && day_seconds(*store, ds_tracked[i], nowi) > 0,
            forall|dd: int|
                d0i <= dd < d as int && day_seconds(*store, dd, nowi) > 0
                    ==> #[trigger] ds_tracked.contains(dd),
            forall|i: int|
                0 <= i < rows@.len() ==> breakdown_row_matches(
                    *store,
                    #[trigger] rows@[i],
                    ds_tracked[i],
                    nowi,
                    total as int,
                ),
        decreases d1 + 1 - d,
    {
        let sec = sum_window_exec(store, d, d, now);
        if sec > 0 {
            proof {
                lemma_active_day_bounds(*store, d as int, nowi);
                lemma_store_seconds_nonneg(*store, nowi);
                lemma_sum_mono(
                    store.entries@,
                    window_pred(d as int, d as int),
                    window_pred(d0i, d1i),
                    nowi,
                );
            }
            let w = weekday_of_day(d);
            let day_name = weekday_name_of(w);
            let date = format_day_number(d);
            let percentage = percent_exec(sec, total);
            rows.push(DailyStat { day_name, date, seconds: sec, percentage });
            proof {
                let old_ds = ds_tracked;
                ds_tracked = old_ds.push(d as int);
                assert(forall|k: int| 0 <= k < old_ds.len() ==> ds_tracked[k] == old_ds[k]);
                assert forall|dd: int|
                    d0i <= dd < d as int + 1 && day_seconds(*store, dd, nowi) > 0
                        implies #[trigger] ds_tracked.contains(dd) by {
                    if dd < d as int {
                        assert(old_ds.contains(dd));
                        let k = choose|k: int| 0 <= k < old_ds.len() && old_ds[k] == dd;
                        assert(ds_tracked[k] == dd);
                    } else {
                        assert(ds_tracked[ds_tracked.len() - 1] == dd);
                    }
                }
            }
        } else {
            proof {
                assert forall|dd: int|
                    d0i <= dd < d as int + 1 && day_seconds(*store, dd, nowi) > 0
                        implies #[trigger] ds_tracked.contains(dd) by {
                    assert(dd != d as int);
                }
            }
        }
        d = d + 1;
    }
    proof {
        assert forall|dd: int|
            d0i <= dd <= d1i && day_seconds(*store, dd, nowi) > 0
                implies #[trigger] ds_tracked.contains(dd) by {
            assert(dd < d as int);
        }
        assert(breakdown_listed(*store, rows@, ds_tracked, d0i, d1i, nowi, total as int));
    }
    rows
}

/// The busiest day's blended seconds within the range.
pub open spec fn max_day_seconds(s: Store, d0: int, d1: int, now: int) -> int
    decreases d1 - d0 + 1,
{
    if d1 < d0 {
        0
    } else {
        let rest = max_day_seconds(s, d0, d1 - 1, now);
        let last = day_seconds(s, d1, now);
        if last >= rest {
            last
        } else {
            rest
        }
    }
}

/// How many days of the range have any activity.
pub open spec fn count_active_days(s: Store, d0: int, d1: int, now: int) -> int
    decreases d1 - d0 + 1,
{
    if d1 < d0 {
        0
    } else {
        count_active_days(s, d0, d1 - 1, now) + if day_seconds(s, d1, now) > 0 {
            1int
        } else {
            0int
        }
    }
}

/// Every day's seconds are bounded by the range maximum.
proof fn lemma_max_day_ge(s: Store, d0: int, d1: int, now: int, d: int)
    requires
        d0 <= d <= d1,
    ensures
        day_seconds(s, d, now) <= max_day_seconds(s, d0, d1, now),
    decreases d1 - d0 + 1,
{
    if d < d1 {
        lemma_max_day_ge(s, d0, d1 - 1, now, d);
    }
}

/// The busiest day's seconds of the range.
#[verifier::loop_isolation(false)]
fn max_day_exec(store: &Store, d0: i64, d1: i64, now: i64) -> (m: i64)
    requires
        store.wf(),
        store.clock <= now,
        total_all(*store, now as int) <= i64::MAX,
        d1 < i64::MAX,
    ensures
        m == max_day_seconds(*store, d0 as int, d1 as int, now as int),
        0 <= m,
{
    let ghost nowi = now as int;
    let mut m: i64 = 0;
    let mut d = d0;
    while d <= d1
        invariant
            d0 <= d,
            d <= d1 + 1 || d == d0,
            m == max_day_seconds(*store, d0 as int, d as int - 1, nowi),
            0 <= m,
        decreases d1 + 1 - d,
    {
        let sec = sum_window_exec(store, d, d, now);
        if sec > m {
            m = sec;
        }
        d = d + 1;
    }
    m
}

/// How many days of the range have any activity.
#[verifier::loop_isolation(false)]
fn count_active_exec(store: &Store, d0: i64, d1: i64, now: i64) -> (c: i64)
    requires
        store.wf(),
        store.clock <= now,
        total_all(*store, now as int) <= i64::MAX,
        d1 < i64::MAX,
        d1 - d0 < i64::MAX,
    ensures
        c == count_active_days(*store, d0 as int, d1 as int, now as int),
        0 <= c,
{
    let ghost nowi = now as int;
    let mut c: i64 = 0;
    let mut d = d0;
    while d <= d1
        invariant
            d0 <= d,
            d <= d1 + 1 || d == d0,
            c == count_active_days(*store, d0 as int, d as int - 1, nowi),
            0 <= c <= d - d0,
        decreases d1 + 1 - d,
    {
        let sec = sum_window_exec(store, d, d, now);
        if sec > 0 {
            c = c + 1;
        }
        d = d + 1;
    }
    c
}

/// One month-overview row is truthful for day `d` against the range
/// maximum `maxs`.
pub open spec fn overview_row_matches(
    s: Store,
    row: MonthlyDailyStat,
    d: int,
    now: int,
    maxs: int,
) -> bool {
    &&& row.date@ == day_date_string(d)
    &&& row.seconds == day_seconds(s, d, now)
    &&& row.active == (day_seconds(s, d, now) > 0)
    &&& row.level == level_of(day_seconds(s, d, now), maxs)
}

/// The overview has one truthful row for every calendar day of the range.
pub open spec fn overview_ok(
    s: Store,
    rows: Seq<MonthlyDailyStat>,
    d0: int,
    d1: int,
    now: int,
) -> bool {
    &&& rows.len() == (if d1 >= d0 {
        d1 - d0 + 1
    } else {
        0int
    })
    &&& forall|i: int|
        0 <= i < rows.len() ==> overview_row_matches(
            s,
            #[trigger] rows[i],
            d0 + i,
            now,
            max_day_seconds(s, d0, d1, now),
        )
}

/// The month view's calendar rows: every day of the range with its seconds
/// and heatmap level.
#[verifier::loop_isolation(false)]
#[verifier::rlimit(50)]
fn compute_overview(store: &Store, d0: i64, d1: i64, now: i64) -> (rows: Vec<MonthlyDailyStat>)
    requires
        store.wf(),
        store.clock <= now <= MAX_TIMESTAMP,
        total_all(*store, now as int) <= i64::MAX,
        0 <= d0,
        d1 <= MAX_DAY_NUMBER,
    ensures
        overview_ok(*store, rows@, d0 as int, d1 as int, now as int),
{
    let ghost d0i = d0 as int;
    let ghost d1i = d1 as int;
    let ghost nowi = now as int;
    let maxs = max_day_exec(store, d0, d1, now);
    let mut rows: Vec<MonthlyDailyStat> = Vec::new();
    let mut d = d0;
    while d <= d1
        invariant
            d0 <= d,
            d <= d1 + 1 || d == d0,
            rows@.len() == d - d0,
            maxs == max_day_seconds(*store, d0i, d1i, nowi),
            0 <= maxs,
            forall|i: int|
                0 <= i < rows@.len() ==> overview_row_matches(
                    *store,
                    #[trigger] rows@[i],
                    d0i + i,
                    nowi,
                    maxs as int,
                ),
        decreases d1 + 1 - d,
    {
        let sec = sum_window_exec(store, d, d, now);
        proof {
            lemma_max_day_ge(*store, d0i, d1i, nowi, d as int);
        }
        let date = format_day_number(d);
        let level = level_exec(sec, maxs);
        rows.push(MonthlyDailyStat { date, seconds: sec, active: sec > 0, level });
        d = d + 1;
    }
    rows
}

/// The today view for one day, taken at time `now` (which the store's
/// clock has not passed): blended totals, focus time on tasks Finished
/// now, the session count, category shares that sum to the total, and the
/// per-task report in report order.
pub fn get_today_stats_impl(store: &Store, query: &StatsDateQuery, now: i64) -> (r:
    TodayStatsResponse)
    requires
        store.wf(),
        store.clock <= now <= MAX_TIMESTAMP,
        total_all(*store, now as int) <= i64::MAX,
    ensures
        ({
            let d = resolved_today_day(*query, now as int);
            &&& r.total_seconds == window_total(*store, d, d, now as int)
            &&& r.focused_seconds == focused_total(*store, d, d, now as int)
            &&& r.sessions_count == window_sessions(*store, d, d)
            &&& categories_ok(*store, r.categories@, d, d, now as int, r.total_seconds as int)
            &&& report_ok(*store, r.detailed_report@, d, d, now as int)
        }),
{
    let d = resolve_today(query, now);
    let total_seconds = sum_window_exec(store, d, d, now);
    let focused_seconds = sum_focused_exec(store, d, d, now);
    let sessions_count = count_window_exec(store, d, d);
    let categories = compute_categories(store, d, d, now, total_seconds);
    let detailed_report = compute_detailed_report(store, d, d, now);
    TodayStatsResponse {
        total_seconds,
        focused_seconds,
        sessions_count,
        categories,
        detailed_report,
    }
}

/// The week view for a range, defaulting to the seven days ending today:
/// blended totals, the per-day average over the range's day span (with a
/// seven-day fallback for a degenerate range), the active days in date
/// order, and category shares that sum to the total.
pub fn get_week_stats_impl(store: &Store, query: &StatsDateQuery, now: i64) -> (r:
    WeekStatsResponse)
    requires
        store.wf(),
        store.clock <= now <= MAX_TIMESTAMP,
        total_all(*store, now as int) <= i64::MAX,
    ensures
        ({
            let d0 = resolved_week_range(*query, now as int).0;
            let d1 = resolved_week_range(*query, now as int).1;
            &&& r.total_seconds == window_total(*store, d0, d1, now as int)
            &&& r.sessions_count == window_sessions(*store, d0, d1)
            &&& r.daily_average_seconds == (if r.total_seconds > 0 {
                (r.total_seconds as int) / (if d1 - d0 + 1 > 0 {
                    d1 - d0 + 1
                } else {
                    7int
                })
            } else {
                0int
            })
            &&& breakdown_ok(*store, r.daily_breakdown@, d0, d1, now as int, r.total_seconds as int)
            &&& categories_ok(*store, r.categories@, d0, d1, now as int, r.total_seconds as int)
        }),
{
    let (d0, d1) = resolve_week(query, now);
    let total_seconds = sum_window_exec(store, d0, d1, now);
    let sessions_count = count_window_exec(store, d0, d1);
    let span = d1 - d0 + 1;
    let day_count: i64 = if span > 0 {
        span
    } else {
        7
    };
    let daily_average_seconds: i64 = if total_seconds > 0 {
        total_seconds / day_count
    } else {
        0
    };
    let daily_breakdown = compute_breakdown(store, d0, d1, now, total_seconds);
    let categories = compute_categories(store, d0, d1, now, total_seconds);
    WeekStatsResponse {
        total_seconds,
        daily_average_seconds,
        sessions_count,
        daily_breakdown,
        categories,
    }
}

/// The month view for a range, defaulting to the current month up to
/// today: blended totals, the count of active days, the per-day average
/// (with a thirty-day fallback for a degenerate range), one heatmap row
/// per calendar day, category shares that sum to the total, and the ten
/// busiest tasks.
pub fn get_month_stats_impl(store: &Store, query: &StatsDateQuery, now: i64) -> (r:
    MonthStatsResponse)
    requires
        store.wf(),
        store.clock <= now <= MAX_TIMESTAMP,
        total_all(*store, now as int) <= i64::MAX,
    ensures
        ({
            let d0 = resolved_month_range(*query, now as int).0;
            let d1 = resolved_month_range(*query, now as int).1;
            &&& r.total_seconds == window_total(*store, d0, d1, now as int)
            &&& r.active_days == count_active_days(*store, d0, d1, now as int)
            &&& r.daily_average_seconds == (if r.total_seconds > 0 {
                (r.total_seconds as int) / (if d1 - d0 + 1 > 0 {
                    d1 - d0 + 1
                } else {
                    30int
                })
            } else {
                0int
            })
            &&& overview_ok(*store, r.monthly_overview@, d0, d1, now as int)
            &&& categories_ok(*store, r.categories@, d0, d1, now as int, r.total_seconds as int)
            &&& top_tasks_ok(*store, r.top_tasks@, d0, d1, now as int)
        }),
{
    let (d0, d1) = resolve_month(query, now);
    let total_seconds = sum_window_exec(store, d0, d1, now);
    let active_days = count_active_exec(store, d0, d1, now);
    let span = d1 - d0 + 1;
    let day_count: i64 = if span > 0 {
        span
    } else {
        30
    };
    let daily_average_seconds: i64 = if total_seconds > 0 {
        total_seconds / day_count
    } else {
        0
    };
    let monthly_overview = compute_overview(store, d0, d1, now);
    let categories = compute_categories(store, d0, d1, now, total_seconds);
    let top_tasks = compute_top_tasks(store, d0, d1, now);
    MonthStatsResponse {
        total_seconds,
        daily_average_seconds,
        active_days,
        monthly_overview,
        categories,
        top_tasks,
    }
}

} // verus!
