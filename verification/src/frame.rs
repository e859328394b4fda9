//! The table of activities with its running balance, and the totals by
//! kind over the whole table and over its recent rows.

use vstd::prelude::*;
use crate::activity::{ActivityKind, ActivityRecord, Distance, Instant};
use crate::sort::sorted_by_start;

verus! {

/// No total of a summary is above this, in micrometres: no distance is
/// above `MAX_MICROMETRES`, and no table has more rows than `u64` counts.
pub const MAX_TOTAL: u128 = 0x7fff_ffff_ffff_fffe_8000_0000_0000_0001;

/// One row of the table: a record and the balance after it.
#[derive(Clone, Copy, Debug, PartialEq, Eq, Structural)]
pub struct Row {
    /// The instant at which the activity began.
    pub start: Instant,
    /// The instant at which the activity ended.
    pub end: Instant,
    /// The distance covered.
    pub distance: Distance,
    /// The mode of travel.
    pub activity: ActivityKind,
    /// The balance after this row, in micrometres: what was driven less
    /// what was cycled over this row and all rows before it.
    pub debt: i128,
}

/// The balance over `records` in micrometres: what was driven less what was
/// cycled.
pub open spec fn balance(records: Seq<ActivityRecord>) -> int
    decreases records.len(),
{
    if records.len() == 0 {
        0
    } else {
        balance(records.drop_last()) + records.last().activity.signed(
            records.last().distance@ as int,
        )
    }
}

/// Whether `rows` is the table of `records`: one row for each record, in the
/// same order, with the record's own values and the balance over the records
/// up to and including it.
pub open spec fn is_table_of(rows: Seq<Row>, records: Seq<ActivityRecord>) -> bool {
    &&& rows.len() == records.len()
    &&& forall|i: int|
        0 <= i < rows.len() ==> {
            &&& (#[trigger] rows[i]).start == records[i].start
            &&& rows[i].end == records[i].end
            &&& rows[i].distance == records[i].distance
            &&& rows[i].activity == records[i].activity
            &&& rows[i].debt == balance(records.take(i + 1))
        }
}

/// Whether the rows stand in the order of their start, earliest first.
pub open spec fn rows_sorted_by_start(rows: Seq<Row>) -> bool {
    forall|i: int, j: int| 0 <= i <= j < rows.len() ==> (#[trigger] rows[i]).start.at_or_before(
        (#[trigger] rows[j]).start,
    )
}

/// Whether some row is of the kind `kind`.
pub open spec fn occurs(rows: Seq<Row>, kind: ActivityKind) -> bool {
    exists|i: int| 0 <= i < rows.len() && (#[trigger] rows[i]).activity == kind
}

/// The sum of the distances of the rows of the kind `kind`, in micrometres.
pub open spec fn total_of(rows: Seq<Row>, kind: ActivityKind) -> nat
    decreases rows.len(),
{
    if rows.len() == 0 {
        0
    } else {
        total_of(rows.drop_last(), kind) + if rows.last().activity == kind {
            rows.last().distance@
        } else {
            0
        }
    }
}

/// The summary of `rows`: for each kind that occurs, the sum of its
/// distances. A kind that does not occur has no entry.
pub open spec fn summary_of(rows: Seq<Row>) -> Map<ActivityKind, nat> {
    Map::new(|kind: ActivityKind| occurs(rows, kind), |kind: ActivityKind| total_of(rows, kind))
}

/// The rows that end on a calendar day after the day `cutoff`, in their
/// order. The day of a row's end is read under the offset that the end
/// carries.
pub open spec fn ended_after(rows: Seq<Row>, cutoff: int) -> Seq<Row>
    decreases rows.len(),
{
    if rows.len() == 0 {
        Seq::empty()
    } else if rows.last().end.day() > cutoff {
        ended_after(rows.drop_last(), cutoff).push(rows.last())
    } else {
        ended_after(rows.drop_last(), cutoff)
    }
}

/// The last day that is too old for a window of `weeks` weeks that ends on
/// the day `today`.
pub open spec fn cutoff_day(today: int, weeks: int) -> int {
    today - 7 * weeks
}

/// The table of activities.
#[derive(Debug)]
pub struct DataFrame {
    rows: Vec<Row>,
}

impl View for DataFrame {
    type V = Seq<Row>;

    closed spec fn view(&self) -> Seq<Row> {
        self.rows@
    }
}

impl DataFrame {
    /// The number of rows.
    pub fn len(&self) -> (n: usize)
        ensures
            n == self@.len(),
    {
        self.rows.len()
    }

    /// The row at `index`, or `None` where the table has no such row.
    pub fn row(&self, index: usize) -> (r: Option<Row>)
        ensures
            r == (if index < self@.len() {
                Some(self@[index as int])
            } else {
                None
            }),
    {
        if index < self.rows.len() {
            Some(self.rows[index])
        } else {
            None
        }
    }
}

/// The totals of a table by kind, in micrometres. A kind of which the table
/// holds no row has no entry: read a missing entry as zero, or ask `total`.
#[derive(Clone, Copy, Debug, PartialEq, Eq)]
pub struct Summary {
    driving: Option<u128>,
    cycling: Option<u128>,
}

impl View for Summary {
    type V = Map<ActivityKind, nat>;

    closed spec fn view(&self) -> Map<ActivityKind, nat> {
        Map::new(
            |kind: ActivityKind|
                match kind {
                    ActivityKind::Driving => self.driving is Some,
                    ActivityKind::Cycling => self.cycling is Some,
                },
            |kind: ActivityKind|
                match kind {
                    ActivityKind::Driving => self.driving.unwrap() as nat,
                    ActivityKind::Cycling => self.cycling.unwrap() as nat,
                },
        )
    }
}

impl Summary {
    #[verifier::type_invariant]
    spec fn bounded(self) -> bool {
        &&& self.driving matches Some(d) ==> d <= MAX_TOTAL
        &&& self.cycling matches Some(c) ==> c <= MAX_TOTAL
    }

    /// The total of `kind`, with zero for a kind that has no entry.
    pub open spec fn total_or_zero(self, kind: ActivityKind) -> nat {
        if self@.dom().contains(kind) {
            self@[kind]
        } else {
            0
        }
    }

    /// The total of `kind`, or `None` where no row was of that kind.
    pub fn get(&self, kind: ActivityKind) -> (r: Option<u128>)
        ensures
            r is Some == self@.dom().contains(kind),
            r matches Some(total) ==> total == self@[kind],
    {
        match kind {
            ActivityKind::Driving => self.driving,
            ActivityKind::Cycling => self.cycling,
        }
    }

    /// The total of `kind`, with zero where no row was of that kind.
    pub fn total(&self, kind: ActivityKind) -> (r: u128)
        ensures
            r == self.total_or_zero(kind),
    {
        match self.get(kind) {
            Some(total) => total,
            None => 0,
        }
    }

    /// Whether no kind has an entry.
    pub fn is_empty(&self) -> (r: bool)
        ensures
            r == (self@ == Map::<ActivityKind, nat>::empty()),
    {
        let r = self.driving.is_none() && self.cycling.is_none();
        proof {
            if r {
                assert(self@ =~= Map::<ActivityKind, nat>::empty());
            } else {
                assert(self@.dom().contains(ActivityKind::Driving) || self@.dom().contains(
                    ActivityKind::Cycling,
                ));
            }
        }
        r
    }

    /// The debt in micrometres: the total driven less the total cycled, a
    /// missing entry counting as zero.
    pub fn debt(&self) -> (r: i128)
        ensures
            r == self.total_or_zero(ActivityKind::Driving) - self.total_or_zero(
                ActivityKind::Cycling,
            ),
    {
        proof {
            use_type_invariant(self);
        }
        let driven = self.total(ActivityKind::Driving);
        let cycled = self.total(ActivityKind::Cycling);
        driven as i128 - cycled as i128
    }
}

/// Where no row ends after the cutoff, the window is empty and its summary
/// has no entry.
pub proof fn law_empty_window(rows: Seq<Row>, cutoff: int)
    requires
        forall|i: int| 0 <= i < rows.len() ==> (#[trigger] rows[i]).end.day() <= cutoff,
    ensures
        ended_after(rows, cutoff) == Seq::<Row>::empty(),
        summary_of(ended_after(rows, cutoff)) == Map::<ActivityKind, nat>::empty(),
    decreases rows.len(),
{
    if rows.len() > 0 {
        let shorter = rows.drop_last();
        assert forall|i: int| 0 <= i < shorter.len() implies (#[trigger] shorter[i]).end.day()
            <= cutoff by {
            assert(shorter[i] == rows[i]);
        }
        law_empty_window(shorter, cutoff);
        assert(rows[rows.len() - 1].end.day() <= cutoff);
    }
    assert(summary_of(Seq::<Row>::empty()) =~= Map::<ActivityKind, nat>::empty());
}

/// The window holds rows of the table only, each ending after the cutoff,
/// and where every row ends after the cutoff it is the whole table.
pub proof fn law_window_rows(rows: Seq<Row>, cutoff: int)
    ensures
        ended_after(rows, cutoff).len() <= rows.len(),
        forall|i: int|
            0 <= i < ended_after(rows, cutoff).len() ==> {
                &&& (#[trigger] ended_after(rows, cutoff)[i]).end.day() > cutoff
                &&& rows.contains(ended_after(rows, cutoff)[i])
            },
        (forall|i: int| 0 <= i < rows.len() ==> (#[trigger] rows[i]).end.day() > cutoff)
            ==> ended_after(rows, cutoff) == rows,
    decreases rows.len(),
{
    if rows.len() > 0 {
        let shorter = rows.drop_last();
        let last = rows.last();
        law_window_rows(shorter, cutoff);
        let window = ended_after(rows, cutoff);
        assert forall|i: int| 0 <= i < window.len() implies {
            &&& (#[trigger] window[i]).end.day() > cutoff
            &&& rows.contains(window[i])
        } by {
            if i < ended_after(shorter, cutoff).len() {
                let row = ended_after(shorter, cutoff)[i];
                assert(window[i] == row);
                assert(shorter.contains(row));
                let j = choose|j: int| 0 <= j < shorter.len() && shorter[j] == row;
                assert(rows[j] == row);
            } else {
                assert(window[i] == last);
                assert(rows[rows.len() - 1] == last);
            }
        }
        if forall|i: int| 0 <= i < rows.len() ==> (#[trigger] rows[i]).end.day() > cutoff {
            assert forall|i: int| 0 <= i < shorter.len() implies (#[trigger] shorter[i]).end.day()
                > cutoff by {
                assert(shorter[i] == rows[i]);
            }
            assert(rows[rows.len() - 1].end.day() > cutoff);
            assert(shorter.push(last) == rows);
        }
    } else {
        assert(ended_after(rows, cutoff) =~= rows);
    }
}

/// The balance in the last row of a table is the debt of its full summary:
/// the total driven less the total cycled.
pub proof fn law_balance_is_total_difference(rows: Seq<Row>, records: Seq<ActivityRecord>)
    requires
        is_table_of(rows, records),
    ensures
        balance(records) == total_of(rows, ActivityKind::Driving) - total_of(
            rows,
            ActivityKind::Cycling,
        ),
        rows.len() > 0 ==> rows.last().debt == balance(records),
    decreases rows.len(),
{
    if rows.len() > 0 {
        let n = rows.len() - 1;
        assert(records.take(n + 1) == records);
        let shorter = rows.drop_last();
        let fewer = records.drop_last();
        assert forall|i: int| 0 <= i < shorter.len() implies {
            &&& (#[trigger] shorter[i]).start == fewer[i].start
            &&& shorter[i].end == fewer[i].end
            &&& shorter[i].distance == fewer[i].distance
            &&& shorter[i].activity == fewer[i].activity
            &&& shorter[i].debt == balance(fewer.take(i + 1))
        } by {
            assert(shorter[i] == rows[i]);
            assert(fewer.take(i + 1) == records.take(i + 1));
        }
        law_balance_is_total_difference(shorter, fewer);
        assert(rows[n].activity == records[n].activity);
        assert(rows[n].distance == records[n].distance);
    }
}

/// A row more adds its distance to the total of its kind and to no other.
proof fn lemma_total_step(rows: Seq<Row>, k: int, kind: ActivityKind)
    requires
        0 <= k < rows.len(),
    ensures
        total_of(rows.take(k + 1), kind) == total_of(rows.take(k), kind) + if rows[k].activity
            == kind {
            rows[k].distance@
        } else {
            0
        },
        occurs(rows.take(k + 1), kind) == (occurs(rows.take(k), kind) || rows[k].activity == kind),
{
    let longer = rows.take(k + 1);
    let shorter = rows.take(k);
    assert(longer.drop_last() == shorter);
    assert(longer.last() == rows[k]);
    if occurs(shorter, kind) {
        let i = choose|i: int| 0 <= i < shorter.len() && (#[trigger] shorter[i]).activity == kind;
        assert(longer[i] == shorter[i]);
    }
    if rows[k].activity == kind {
        assert(longer[k].activity == kind);
    }
    if occurs(longer, kind) {
        let i = choose|i: int| 0 <= i < longer.len() && (#[trigger] longer[i]).activity == kind;
        if i < k {
            assert(shorter[i] == longer[i]);
        }
    }
}

/// The totals of `rows` by kind.
fn summarize(rows: &Vec<Row>) -> (r: Summary)
    ensures
        r@ == summary_of(rows@),
{
    let mut driving: Option<u128> = None;
    let mut cycling: Option<u128> = None;
    let mut i: usize = 0;
    assert(rows@.take(0) =~= Seq::empty());
    while i < rows.len()
        invariant
            i <= rows.len(),
            driving is Some == occurs(rows@.take(i as int), ActivityKind::Driving),
            cycling is Some == occurs(rows@.take(i as int), ActivityKind::Cycling),
            driving matches Some(d) ==> d == total_of(rows@.take(i as int), ActivityKind::Driving),
            cycling matches Some(c) ==> c == total_of(rows@.take(i as int), ActivityKind::Cycling),
            total_of(rows@.take(i as int), ActivityKind::Driving) <= i * 0x7fff_ffff_ffff_ffff,
            total_of(rows@.take(i as int), ActivityKind::Cycling) <= i * 0x7fff_ffff_ffff_ffff,
        decreases rows.len() - i,
    {
        proof {
            lemma_total_step(rows@, i as int, ActivityKind::Driving);
            lemma_total_step(rows@, i as int, ActivityKind::Cycling);
        }
        let row = rows[i];
        let distance: u128 = row.distance.micrometres() as u128;
        match row.activity {
            ActivityKind::Driving => {
                driving = match driving {
                    Some(d) => Some(d + distance),
                    None => {
                        proof {
                            lemma_total_without(rows@.take(i as int), ActivityKind::Driving);
                        }
                        Some(distance)
                    },
                };
            },
            ActivityKind::Cycling => {
                cycling = match cycling {
                    Some(c) => Some(c + distance),
                    None => {
                        proof {
                            lemma_total_without(rows@.take(i as int), ActivityKind::Cycling);
                        }
                        Some(distance)
                    },
                };
            },
        }
        i += 1;
    }
    assert(rows@.take(i as int) == rows@);
    let summary = Summary { driving, cycling };
    assert(summary@ =~= summary_of(rows@));
    summary
}

/// Rows among which a kind does not occur add up to nothing for it.
proof fn lemma_total_without(rows: Seq<Row>, kind: ActivityKind)
    requires
        !occurs(rows, kind),
    ensures
        total_of(rows, kind) == 0,
    decreases rows.len(),
{
    if rows.len() > 0 {
        let shorter = rows.drop_last();
        assert(rows[rows.len() - 1].activity != kind);
        assert forall|i: int| 0 <= i < shorter.len() implies (#[trigger] shorter[i]).activity
            != kind by {
            assert(shorter[i] == rows[i]);
        }
        lemma_total_without(shorter, kind);
    }
}

/// Builds the table of `records`, which are expected in the order of their
/// start: the balance in each row is the balance over the records as they
/// stand, up to and including that row.
pub fn to_dataframe(records: &Vec<ActivityRecord>) -> (df: DataFrame)
    ensures
        is_table_of(df@, records@),
        sorted_by_start(records@) ==> rows_sorted_by_start(df@),
{
    let mut rows: Vec<Row> = Vec::new();
    let mut debt: i128 = 0;
    let mut i: usize = 0;
    assert(records@.take(0) =~= Seq::empty());
    while i < records.len()
        invariant
            i <= records.len(),
            is_table_of(rows@, records@.take(i as int)),
            debt == balance(records@.take(i as int)),
            -(i * 0x7fff_ffff_ffff_ffff) <= debt <= i * 0x7fff_ffff_ffff_ffff,
        decreases records.len() - i,
    {
        let record = records[i];
        proof {
            assert(records@.take(i + 1).drop_last() == records@.take(i as int));
            assert(records@.take(i + 1).last() == record);
        }
        let distance: i128 = record.distance.micrometres() as i128;
        debt = match record.activity {
            ActivityKind::Driving => debt + distance,
            ActivityKind::Cycling => debt - distance,
        };
        rows.push(
            Row {
                start: record.start,
                end: record.end,
                distance: record.distance,
                activity: record.activity,
                debt,
            },
        );
        proof {
            let shorter = records@.take(i as int);
            let longer = records@.take(i + 1);
            assert forall|j: int| 0 <= j < rows@.len() implies {
                &&& (#[trigger] rows@[j]).start == longer[j].start
                &&& rows@[j].end == longer[j].end
                &&& rows@[j].distance == longer[j].distance
                &&& rows@[j].activity == longer[j].activity
                &&& rows@[j].debt == balance(longer.take(j + 1))
            } by {
                if j < i {
                    assert(longer[j] == shorter[j]);
                    assert(longer.take(j + 1) == shorter.take(j + 1));
                } else {
                    assert(longer.take(j + 1) == longer);
                }
            }
        }
        i += 1;
    }
    assert(records@.take(i as int) == records@);
    DataFrame { rows }
}

/// The full summary: the sum of the distances of each kind over all rows.
/// A kind of which the table holds no row has no entry.
pub fn summary(df: &DataFrame) -> (r: Summary)
    ensures
        r@ == summary_of(df@),
{
    summarize(&df.rows)
}

/// The summary over the rows that ended on one of the last days: `now`
/// gives today's date under its own offset, the cutoff is the day `weeks`
/// weeks before today, and a row counts when the calendar day of its end is
/// after the cutoff. Days are compared, not instants: the time of day plays
/// no part.
pub fn recent_summary(df: &DataFrame, weeks: i64, now: &Instant) -> (r: Summary)
    ensures
        r@ == summary_of(ended_after(df@, cutoff_day(now.day(), weeks as int))),
{
    let cutoff: i128 = now.day_number() as i128 - 7 * (weeks as i128);
    let mut kept: Vec<Row> = Vec::new();
    let mut i: usize = 0;
    assert(df.rows@.take(0) =~= Seq::empty());
    while i < df.rows.len()
        invariant
            i <= df.rows.len(),
            kept@ == ended_after(df.rows@.take(i as int), cutoff as int),
        decreases df.rows.len() - i,
    {
        let row = df.rows[i];
        proof {
            assert(df.rows@.take(i + 1).drop_last() == df.rows@.take(i as int));
            assert(df.rows@.take(i + 1).last() == row);
        }
        if row.end.day_number() as i128 > cutoff {
            kept.push(row);
        }
        i += 1;
    }
    assert(df.rows@.take(i as int) == df.rows@);
    summarize(&kept)
}

} // verus!
