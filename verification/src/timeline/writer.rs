//! What an exported timeline holds: the order of its events and the records
//! of its CSV form.

use vstd::prelude::*;

use super::time;
use super::{EventView, TimelineEvent};
use crate::text;

verus! {

// ---------------------------------------------------------------------
// Chronological order
// ---------------------------------------------------------------------

/// The moments of a list of events.
pub open spec fn times_of(events: Seq<TimelineEvent>) -> Seq<time::Moment> {
    Seq::new(events.len(), |i: int| events[i].timestamp@)
}

/// Whether the event at `a` goes before the one at `b`: it is earlier, or it
/// is as early and came first.
pub open spec fn goes_before(times: Seq<time::Moment>, a: int, b: int) -> bool {
    times[a].le(times[b]) && (times[b].le(times[a]) ==> a < b)
}

/// Whether `order` lists the events from `lo` to `hi` one after the other as
/// they go before each other.
pub open spec fn is_order_of(
    times: Seq<time::Moment>,
    order: Seq<usize>,
    lo: int,
    hi: int,
) -> bool {
    &&& order.len() == hi - lo
    &&& forall|i: int| 0 <= i < order.len() ==> lo <= #[trigger] order[i] < hi
    &&& forall|i: int, j: int|
        0 <= i < j < order.len() ==> goes_before(
            times,
            #[trigger] order[i] as int,
            #[trigger] order[j] as int,
        )
}

/// Whether `order` lists all events in chronological order, those of one time
/// in the order in which they came.
pub open spec fn is_chronological(times: Seq<time::Moment>, order: Seq<usize>) -> bool {
    is_order_of(times, order, 0, times.len() as int)
}

fn merge(
    events: &[TimelineEvent],
    left: &Vec<usize>,
    right: &Vec<usize>,
    Ghost(lo): Ghost<int>,
    Ghost(mid): Ghost<int>,
    Ghost(hi): Ghost<int>,
) -> (r: Vec<usize>)
    requires
        0 <= lo <= mid <= hi <= events@.len(),
        is_order_of(times_of(events@), left@, lo, mid),
        is_order_of(times_of(events@), right@, mid, hi),
    ensures
        is_order_of(times_of(events@), r@, lo, hi),
{
    let ghost times = times_of(events@);
    let mut out: Vec<usize> = Vec::new();
    let mut i: usize = 0;
    let mut j: usize = 0;
    while i < left.len() || j < right.len()
        invariant
            times == times_of(events@),
            0 <= lo <= mid <= hi <= events@.len(),
            is_order_of(times, left@, lo, mid),
            is_order_of(times, right@, mid, hi),
            i <= left@.len(),
            j <= right@.len(),
            out@.len() == i + j,
            forall|k: int| 0 <= k < out@.len() ==> lo <= #[trigger] out@[k] < hi,
            forall|k: int, l: int|
                0 <= k < l < out@.len() ==> goes_before(
                    times,
                    #[trigger] out@[k] as int,
                    #[trigger] out@[l] as int,
                ),
            forall|k: int|
                0 <= k < out@.len() && i < left@.len() ==> goes_before(
                    times,
                    #[trigger] out@[k] as int,
                    left@[i as int] as int,
                ),
            forall|k: int|
                0 <= k < out@.len() && j < right@.len() ==> goes_before(
                    times,
                    #[trigger] out@[k] as int,
                    right@[j as int] as int,
                ),
        decreases left@.len() - i + right@.len() - j,
    {
        let from_left = if i == left.len() {
            false
        } else if j == right.len() {
            true
        } else {
            events[left[i]].timestamp.not_after(&events[right[j]].timestamp)
        };
        if from_left {
            out.push(left[i]);
            i = i + 1;
        } else {
            out.push(right[j]);
            j = j + 1;
        }
    }
    out
}

fn sort_range(events: &[TimelineEvent], lo: usize, hi: usize) -> (r: Vec<usize>)
    requires
        lo <= hi <= events@.len(),
    ensures
        is_order_of(times_of(events@), r@, lo as int, hi as int),
    decreases hi - lo,
{
    if hi - lo < 2 {
        let mut out: Vec<usize> = Vec::new();
        if lo < hi {
            out.push(lo);
        }
        return out;
    }
    let mid: usize = lo + (hi - lo) / 2;
    let left = sort_range(events, lo, mid);
    let right = sort_range(events, mid, hi);
    merge(events, &left, &right, Ghost(lo as int), Ghost(mid as int), Ghost(hi as int))
}

/// The places of the events in chronological order. Events of one time keep
/// the order in which they came.
pub fn chronological(events: &[TimelineEvent]) -> (r: Vec<usize>)
    ensures
        is_chronological(times_of(events@), r@),
{
    sort_range(events, 0, events.len())
}

/// A chronological order holds every event, and none twice.
pub proof fn law_order_holds_every_event(times: Seq<time::Moment>, order: Seq<usize>)
    requires
        is_chronological(times, order),
    ensures
        order.no_duplicates(),
        forall|e: usize| e < times.len() <==> #[trigger] order.contains(e),
{
    assert forall|e: usize| e < times.len() implies #[trigger] order.contains(e) by {
        let places = Seq::new(order.len(), |i: int| order[i] as int);
        assert(places.no_duplicates());
        places.unique_seq_to_set();
        let all = vstd::set_lib::set_int_range(0, times.len() as int);
        vstd::set_lib::lemma_int_range(0, times.len() as int);
        assert(places.to_set().subset_of(all));
        vstd::set_lib::lemma_subset_equality(places.to_set(), all);
        assert(all.contains(e as int));
        let i = choose|i: int| 0 <= i < places.len() && places[i] == e as int;
        assert(order[i] == e);
    }
}

/// There is one chronological order.
pub proof fn law_order_is_unique(times: Seq<time::Moment>, a: Seq<usize>, b: Seq<usize>)
    requires
        is_chronological(times, a),
        is_chronological(times, b),
    ensures
        a == b,
{
    lemma_orders_agree(times, a, b, a.len() as int);
    assert(a =~= b);
}

proof fn lemma_orders_agree(times: Seq<time::Moment>, a: Seq<usize>, b: Seq<usize>, n: int)
    requires
        is_chronological(times, a),
        is_chronological(times, b),
        0 <= n <= a.len(),
    ensures
        forall|i: int| 0 <= i < n ==> a[i] == b[i],
    decreases n,
{
    if n > 0 {
        let m = n - 1;
        lemma_orders_agree(times, a, b, m);
        law_order_holds_every_event(times, a);
        law_order_holds_every_event(times, b);
        if a[m] != b[m] {
            assert(b.contains(a[m]) && a.contains(b[m]));
            let p = choose|p: int| 0 <= p < b.len() && b[p] == a[m];
            let q = choose|q: int| 0 <= q < a.len() && a[q] == b[m];
            assert(p > m && q > m);
            assert(goes_before(times, b[m] as int, b[p] as int));
            assert(goes_before(times, a[m] as int, a[q] as int));
        }
    }
}

// ---------------------------------------------------------------------
// CSV records
// ---------------------------------------------------------------------

/// The columns of a CSV timeline.
pub open spec fn csv_columns() -> Seq<Seq<char>> {
    seq![
        "Timestamp"@,
        "Source"@,
        "EventType"@,
        "Description"@,
        "ArtifactPath"@,
        "TargetPath"@,
    ]
}

/// The record of an event in a CSV timeline.
pub open spec fn csv_fields(event: EventView) -> Seq<Seq<char>> {
    seq![
        time::rfc3339_text(event.timestamp.secs, event.timestamp.nanos),
        super::source_name(event.source),
        event.event_type,
        event.description,
        event.artifact_path,
        match event.target_path {
            Some(target) => target,
            None => Seq::empty(),
        },
    ]
}

/// The columns of a CSV timeline, the ones that most triage workflows expect.
pub fn csv_header() -> (r: Vec<String>)
    ensures
        text::texts(r@) == csv_columns(),
{
    let r = vec![
        "Timestamp".to_string(),
        "Source".to_string(),
        "EventType".to_string(),
        "Description".to_string(),
        "ArtifactPath".to_string(),
        "TargetPath".to_string(),
    ];
    assert(text::texts(r@) =~= csv_columns());
    r
}

/// The record of an event in a CSV timeline.
pub fn csv_record(event: &TimelineEvent) -> (r: Vec<String>)
    ensures
        text::texts(r@) == csv_fields(event@),
{
    let target = match &event.target_path {
        Some(target) => target.clone(),
        None => String::new(),
    };
    let r = vec![
        event.timestamp.to_rfc3339(),
        event.source.as_str().to_string(),
        event.event_type.clone(),
        event.description.clone(),
        event.artifact_path.clone(),
        target,
    ];
    assert(text::texts(r@) =~= csv_fields(event@));
    r
}

/// The records of a CSV timeline: its columns, then its events in
/// chronological order.
pub fn csv_records(events: &[TimelineEvent]) -> (r: Vec<Vec<String>>)
    ensures
        r@.len() == events@.len() + 1,
        text::texts(r@[0]@) == csv_columns(),
        exists|order: Seq<usize>|
            is_chronological(times_of(events@), order) && forall|i: int|
                0 <= i < events@.len() ==> text::texts((#[trigger] r@[i + 1])@) == csv_fields(
                    events@[order[i] as int]@,
                ),
{
    let order = chronological(events);
    let mut out: Vec<Vec<String>> = Vec::new();
    out.push(csv_header());
    for n in 0..order.len()
        invariant
            is_chronological(times_of(events@), order@),
            out@.len() == n + 1,
            text::texts(out@[0]@) == csv_columns(),
            forall|i: int|
                0 <= i < n ==> text::texts((#[trigger] out@[i + 1])@) == csv_fields(
                    events@[order@[i] as int]@,
                ),
    {
        let record = csv_record(&events[order[n]]);
        out.push(record);
    }
    out
}

/// The columns of a CSV timeline are the time, the source, the type, the
/// description, the artifact and the target. An event has its own under each of
/// them, and nothing under the target where it has none.
pub proof fn law_csv_columns_hold_what_they_name(event: EventView)
    ensures
        csv_columns().len() == 6,
        csv_fields(event).len() == 6,
        csv_columns()[0] == "Timestamp"@,
        csv_fields(event)[0] == time::rfc3339_text(event.timestamp.secs, event.timestamp.nanos),
        csv_columns()[1] == "Source"@,
        csv_fields(event)[1] == super::source_name(event.source),
        csv_columns()[2] == "EventType"@,
        csv_fields(event)[2] == event.event_type,
        csv_columns()[3] == "Description"@,
        csv_fields(event)[3] == event.description,
        csv_columns()[4] == "ArtifactPath"@,
        csv_fields(event)[4] == event.artifact_path,
        csv_columns()[5] == "TargetPath"@,
        event.target_path is Some ==> csv_fields(event)[5] == event.target_path->0,
        event.target_path is None ==> csv_fields(event)[5].len() == 0,
{
}

/// In a chronological order no event comes before an earlier one, and of events
/// of one time none comes before one that came first.
pub proof fn law_earlier_events_come_first(
    times: Seq<time::Moment>,
    order: Seq<usize>,
    i: int,
    j: int,
)
    requires
        is_chronological(times, order),
        0 <= i < j < order.len(),
    ensures
        ({
            let a = times[order[i] as int];
            let b = times[order[j] as int];
            &&& order.len() == times.len()
            &&& a.secs <= b.secs
            &&& a.secs == b.secs ==> a.nanos <= b.nanos
            &&& a.secs == b.secs && a.nanos == b.nanos ==> order[i] < order[j]
        }),
{
    assert(goes_before(times, order[i] as int, order[j] as int));
}

} // verus!
