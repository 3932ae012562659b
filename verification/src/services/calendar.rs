//! DankCalendar-backed event service: date windows, event normalization and bucketing,
//! and the refresh state machine.

use std::collections::BTreeMap;
use std::sync::Arc;

use vstd::prelude::*;

use crate::date::{
    add_days, date_le, date_lt, date_of, date_rank, is_valid_ymd, lemma_add_days_order,
    lemma_add_days_valid, lemma_add_days_within_month, lemma_back_from_month_start,
    lemma_date_lt_transitive, lemma_date_rank, lemma_next_day_is_successor, lemma_next_prev,
    prev_day, year_in_range, Date, MAX_YEAR, MIN_YEAR,
};
use crate::text::{
    chars_lt, chars_of, ends_with, lemma_chars_lt_order, push_str, seq_ends_with,
    seq_starts_with, starts_with, str_eq, str_lt, string_of,
};
use crate::path::{file_name, file_name_of};
use crate::time::{instant_lt, parse_event_time, rfc3339_fields, EventTime, ParsedTime, Rfc3339Fields};

verus! {

broadcast use vstd::std_specs::btree::group_btree_axioms, vstd::laws_cmp::group_laws_cmp;

/// Days of the neighbouring months that GtkCalendar's 6x7 grid can show.
pub const GTK_CALENDAR_GRID_PADDING_DAYS: i32 = 14;

/// The most events requested from DankCalendar at once.
pub const EVENT_LIMIT: usize = 5000;

/// Key of a date in the event buckets: `(year, month, day)`, ordered like the dates.
pub type DateKey = (i32, u32, u32);

impl Date {
    /// The key under which this date's events are kept.
    pub fn key(&self) -> (r: DateKey)
        ensures
            r == (self.year, self.month, self.day),
    {
        (self.year, self.month, self.day)
    }
}

/// A calendar event as shown by the widgets.
#[derive(Debug, PartialEq)]
pub struct CalendarEvent {
    pub calendar_name: String,
    pub color: Option<String>,
    pub title: String,
    pub location: String,
    pub start: EventTime,
    pub end: EventTime,
    pub all_day: bool,
}

/// Last local day occupied by an event; end times are exclusive.
pub open spec fn spec_final_day(e: CalendarEvent) -> Date {
    if instant_lt(e.start, e.end) {
        e.end.date_before
    } else {
        e.start.date
    }
}

impl CalendarEvent {
    /// Last local day occupied by this event; calendar end times are exclusive.
    pub fn final_day(&self) -> (r: Date)
        ensures
            r == spec_final_day(*self),
    {
        if self.start.is_before(&self.end) {
            self.end.date_before
        } else {
            self.start.date
        }
    }
}

/// The first day of the month of `date`.
pub open spec fn spec_month_start(date: Date) -> Date {
    Date { year: date.year, month: date.month, day: 1 }
}

/// The first day of the month of `date`.
pub fn month_start(date: Date) -> (r: Date)
    requires
        date.wf(),
    ensures
        r == spec_month_start(date),
        r.wf(),
{
    match Date::from_ymd_opt(date.year, date.month, 1) {
        Some(d) => d,
        None => date,
    }
}

/// What the calendar widgets show: the focused month, loading and error state, and the
/// events of each day.
#[derive(Debug)]
pub struct CalendarSnapshot {
    pub focus_month: Option<Date>,
    pub loading: bool,
    pub error: Option<String>,
    pub backend_available: bool,
    pub events_by_date: BTreeMap<DateKey, Vec<Arc<CalendarEvent>>>,
}

impl Default for CalendarSnapshot {
    fn default() -> (r: Self)
        ensures
            r.focus_month is None,
            !r.loading,
            r.error is None,
            !r.backend_available,
            r.events_by_date@ == Map::<DateKey, Vec<Arc<CalendarEvent>>>::empty(),
    {
        CalendarSnapshot {
            focus_month: None,
            loading: false,
            error: None,
            backend_available: false,
            events_by_date: BTreeMap::new(),
        }
    }
}

impl CalendarSnapshot {
    /// Whether the snapshot's focused month is the month of `date`.
    pub fn matches_focus_month(&self, date: Date) -> (r: bool)
        requires
            date.wf(),
        ensures
            r == (self.focus_month == Some(spec_month_start(date))),
    {
        let start = month_start(date);
        match self.focus_month {
            Some(focus) => focus == start,
            None => false,
        }
    }
}

/// Prepares the snapshot for a refresh of the month of `focus_date`: the events are
/// dropped only when the focused month changes; loading starts and the error clears.
pub fn prepare_refresh_snapshot(snapshot: &mut CalendarSnapshot, focus_date: Date)
    requires
        focus_date.wf(),
    ensures
        final(snapshot).focus_month == Some(spec_month_start(focus_date)),
        final(snapshot).loading,
        final(snapshot).error is None,
        final(snapshot).backend_available == old(snapshot).backend_available,
        final(snapshot).events_by_date@ == (if old(snapshot).focus_month == Some(
            spec_month_start(focus_date),
        ) {
            old(snapshot).events_by_date@
        } else {
            Map::empty()
        }),
{
    let focus_month = month_start(focus_date);
    let same = match snapshot.focus_month {
        Some(current) => current == focus_month,
        None => false,
    };
    if !same {
        snapshot.events_by_date.clear();
    }
    snapshot.focus_month = Some(focus_month);
    snapshot.loading = true;
    snapshot.error = None;
}


/// The first day of the month after the month of `date`.
pub open spec fn spec_next_month_start(date: Date) -> Date {
    if date.month == 12 {
        Date { year: (date.year + 1) as i32, month: 1, day: 1 }
    } else {
        Date { year: date.year, month: (date.month + 1) as u32, day: 1 }
    }
}

/// The days for which events are fetched when the month of `focus_date` is shown:
/// from `GTK_CALENDAR_GRID_PADDING_DAYS` days before the month starts until that many
/// days after the next month starts (exclusive), both at midnight. This covers the
/// days of neighbouring months that the calendar grid shows.
/// Fails with "invalid focus date" when the next month is not representable.
/// A focus date in the first month of `MIN_YEAR` has no representable window start;
/// callers must not ask for it.
pub fn event_fetch_window(focus_date: Date) -> (r: Result<(Date, Date), String>)
    requires
        focus_date.wf(),
        !(focus_date.year == MIN_YEAR && focus_date.month == 1),
    ensures
        (focus_date.year == MAX_YEAR && focus_date.month == 12) <==> r is Err,
        r matches Err(e) ==> e@ == "invalid focus date"@,
        r matches Ok((start, end)) ==> {
            &&& start@ == add_days(spec_month_start(focus_date)@, -14)
            &&& end@ == add_days(spec_next_month_start(focus_date)@, 14)
            &&& start.wf()
            &&& end.wf()
        },
{
    let month_start = month_start(focus_date);
    let next_month = if month_start.month == 12 {
        if month_start.year == MAX_YEAR {
            None
        } else {
            Date::from_ymd_opt(month_start.year + 1, 1, 1)
        }
    } else {
        Date::from_ymd_opt(month_start.year, month_start.month + 1, 1)
    };
    let next_month = match next_month {
        Some(d) => d,
        None => {
            proof { reveal_strlit("invalid focus date"); }
            return Err(string_of("invalid focus date"));
        }
    };
    proof {
        lemma_add_days_valid(month_start@, -14);
        lemma_add_days_valid(next_month@, 14);
        lemma_add_days_order(month_start@, -14);
        lemma_add_days_order(next_month@, 14);
        lemma_back_from_month_start(month_start@, 14);
        lemma_add_days_within_month(next_month@, 14);
    }
    let start = match month_start.checked_add_days(-GTK_CALENDAR_GRID_PADDING_DAYS) {
        Some(d) => d,
        None => {
            return Err(string_of("invalid focus date"));
        }
    };
    let end = match next_month.checked_add_days(GTK_CALENDAR_GRID_PADDING_DAYS) {
        Some(d) => d,
        None => {
            return Err(string_of("invalid focus date"));
        }
    };
    Ok((start, end))
}


/// Another handle to the same event: `Arc::clone`, which std documents as making a new
/// pointer to the same allocation.
#[verifier::external_body]
pub(crate) fn share_event(e: &Arc<CalendarEvent>) -> (r: Arc<CalendarEvent>)
    ensures
        r == *e,
{
    Arc::clone(e)
}

/// Order of events within a day: all-day events first, then by start instant.
pub open spec fn event_order_key(e: CalendarEvent) -> (int, int, int) {
    (if e.all_day { 0 } else { 1 }, e.start.unix_secs as int, e.start.nanos as int)
}

/// Strict lexicographic order of integer triples.
pub open spec fn triple_lt(a: (int, int, int), b: (int, int, int)) -> bool {
    ||| a.0 < b.0
    ||| a.0 == b.0 && a.1 < b.1
    ||| a.0 == b.0 && a.1 == b.1 && a.2 < b.2
}

/// Event `a` is ordered strictly before event `b` within a day.
pub open spec fn ordered_before(a: Arc<CalendarEvent>, b: Arc<CalendarEvent>) -> bool {
    triple_lt(event_order_key(*a), event_order_key(*b))
}

/// Whether `a` is ordered strictly before `b` within a day.
pub fn event_order_lt(a: &CalendarEvent, b: &CalendarEvent) -> (r: bool)
    ensures
        r == triple_lt(event_order_key(*a), event_order_key(*b)),
{
    let ka: u8 = if a.all_day { 0 } else { 1 };
    let kb: u8 = if b.all_day { 0 } else { 1 };
    ka < kb || (ka == kb && (a.start.unix_secs < b.start.unix_secs || (a.start.unix_secs
        == b.start.unix_secs && a.start.nanos < b.start.nanos)))
}

/// Inserts `e` into a day's events after every event not ordered after it: this is how a
/// stable sort by `event_order_key` places the events in the order they arrive.
pub open spec fn insert_in_order(s: Seq<Arc<CalendarEvent>>, e: Arc<CalendarEvent>) -> Seq<
    Arc<CalendarEvent>,
>
    decreases s.len(),
{
    if s.len() == 0 {
        seq![e]
    } else if ordered_before(e, s.last()) {
        insert_in_order(s.drop_last(), e).push(s.last())
    } else {
        s.push(e)
    }
}

/// `insert_in_order` puts `e` at position `p` when every later event is ordered after
/// `e` and the one before `p` is not.
pub proof fn lemma_insert_in_order_at(s: Seq<Arc<CalendarEvent>>, e: Arc<CalendarEvent>, p: int)
    requires
        0 <= p <= s.len(),
        forall|j: int| p <= j < s.len() ==> ordered_before(e, s[j]),
        p == 0 || !ordered_before(e, s[p - 1]),
    ensures
        insert_in_order(s, e) == s.take(p).push(e) + s.skip(p),
    decreases s.len(),
{
    if s.len() == 0 {
        assert(s.take(p).push(e) + s.skip(p) =~= seq![e]);
    } else if p == s.len() {
        assert(s.take(p).push(e) + s.skip(p) =~= s.push(e));
    } else {
        let t = s.drop_last();
        assert(t[p - 1] == s[p - 1] || p == 0);
        lemma_insert_in_order_at(t, e, p);
        assert(t.take(p).push(e) + t.skip(p) + seq![s.last()] =~= s.take(p).push(e) + s.skip(p));
        assert((t.take(p).push(e) + t.skip(p)).push(s.last()) =~= t.take(p).push(e) + t.skip(p)
            + seq![s.last()]);
    }
}

/// Inserting makes the sequence one longer.
pub proof fn lemma_insert_in_order_len(s: Seq<Arc<CalendarEvent>>, e: Arc<CalendarEvent>)
    ensures
        insert_in_order(s, e).len() == s.len() + 1,
    decreases s.len(),
{
    if s.len() > 0 && ordered_before(e, s.last()) {
        lemma_insert_in_order_len(s.drop_last(), e);
    }
}

/// Inserts `e` into a day's events as `insert_in_order` does.
pub fn insert_event_in_order(v: &mut Vec<Arc<CalendarEvent>>, e: Arc<CalendarEvent>)
    ensures
        final(v)@ == insert_in_order(old(v)@, e),
{
    let mut p = v.len();
    loop
        invariant
            p <= v.len(),
            v@ == old(v)@,
            forall|j: int| p <= j < v.len() ==> ordered_before(e, v@[j]),
        ensures
            p <= v.len(),
            v@ == old(v)@,
            forall|j: int| p <= j < v.len() ==> ordered_before(e, v@[j]),
            p == 0 || !ordered_before(e, v@[p - 1]),
        decreases p,
    {
        if p == 0 {
            break;
        }
        if !event_order_lt(&e, &v[p - 1]) {
            break;
        }
        p = p - 1;
    }
    proof { lemma_insert_in_order_at(v@, e, p as int); }
    v.insert(p, e);
    assert(v@ =~= old(v)@.take(p as int).push(e) + old(v)@.skip(p as int));
}

/// An event to be placed on the days from its first to its last day.
pub type BucketItem = (Arc<CalendarEvent>, Date, Date);

/// The civil fields of a bucket key.
pub open spec fn key_view(key: DateKey) -> (int, int, int) {
    (key.0 as int, key.1 as int, key.2 as int)
}

/// First day of an item inside the window: the later of its first day and `first`.
pub open spec fn clip_start(item: BucketItem, first: Date) -> (int, int, int) {
    if date_lt(item.1@, first@) { first@ } else { item.1@ }
}

/// Last day of an item inside the window: the earlier of its last day and `last`.
pub open spec fn clip_end(item: BucketItem, last: Date) -> (int, int, int) {
    if date_lt(last@, item.2@) { last@ } else { item.2@ }
}

/// The item occupies day `k` of the window from `first` to `last`.
pub open spec fn covers(item: BucketItem, first: Date, last: Date, k: (int, int, int)) -> bool {
    &&& is_valid_ymd(k)
    &&& date_le(clip_start(item, first), k)
    &&& date_le(k, clip_end(item, last))
}

/// The events shown on day `k`: the items that occupy it, taken in order and each
/// inserted with `insert_in_order`.
pub open spec fn bucket_of(items: Seq<BucketItem>, first: Date, last: Date, k: (int, int, int)) -> Seq<
    Arc<CalendarEvent>,
>
    decreases items.len(),
{
    if items.len() == 0 {
        seq![]
    } else {
        let rest = bucket_of(items.drop_last(), first, last, k);
        if covers(items.last(), first, last, k) {
            insert_in_order(rest, items.last().0)
        } else {
            rest
        }
    }
}


/// Places each item on every day from `first` to `last` (inclusive) that it occupies:
/// the key of day `k` is present exactly when some item occupies it, and holds the
/// events of `bucket_of`.
pub fn place_in_buckets(items: &Vec<BucketItem>, first: Date, last: Date) -> (r: BTreeMap<
    DateKey,
    Vec<Arc<CalendarEvent>>,
>)
    requires
        first.wf(),
        last.wf(),
        forall|i: int| 0 <= i < items.len() ==> (#[trigger] items@[i]).1.wf() && items@[i].2.wf(),
    ensures
        forall|key: DateKey| #[trigger]
            r@.contains_key(key) <==> bucket_of(items@, first, last, key_view(key)).len() > 0,
        forall|key: DateKey| #[trigger]
            r@.contains_key(key) ==> r@[key]@ == bucket_of(items@, first, last, key_view(key)),
{
    let mut by_date: BTreeMap<DateKey, Vec<Arc<CalendarEvent>>> = BTreeMap::new();
    let mut n: usize = 0;
    while n < items.len()
        invariant
            n <= items.len(),
            first.wf(),
            last.wf(),
            forall|i: int| 0 <= i < items.len() ==> (#[trigger] items@[i]).1.wf() && items@[i].2.wf(),
            forall|key: DateKey| #[trigger]
                by_date@.contains_key(key) <==> bucket_of(items@.take(n as int), first, last, key_view(key)).len() > 0,
            forall|key: DateKey| #[trigger]
                by_date@.contains_key(key) ==> by_date@[key]@ == bucket_of(items@.take(n as int), first, last, key_view(key)),
        decreases items.len() - n,
    {
        let ghost prefix = items@.take(n as int);
        let ghost next = items@.take(n + 1);
        assert(next.drop_last() =~= prefix);
        assert(next.len() == n + 1);
        assert(next.last() == items@[n as int]);
        let item = &items[n];
        let start_day = if item.1.is_before(&first) { first } else { item.1 };
        let end_day = if last.is_before(&item.2) { last } else { item.2 };
        assert(start_day@ == clip_start(*item, first));
        assert(end_day@ == clip_end(*item, last));
        if end_day.is_before(&start_day) {
            assert forall|key: DateKey| #[trigger] bucket_of(next, first, last, key_view(key)) == bucket_of(prefix, first, last, key_view(key)) by {
                if covers(*item, first, last, key_view(key)) {
                    lemma_date_lt_transitive(end_day@, start_day@, key_view(key));
                }
            }
        } else {
            let mut day = start_day;
            loop
                invariant_except_break
                    forall|key: DateKey| #[trigger]
                        by_date@.contains_key(key) <==> (bucket_of(prefix, first, last, key_view(key)).len() > 0
                            || (covers(*item, first, last, key_view(key)) && date_lt(key_view(key), day@))),
                    forall|key: DateKey| #[trigger]
                        by_date@.contains_key(key) ==> by_date@[key]@ == (if covers(*item, first, last, key_view(key))
                            && date_lt(key_view(key), day@) {
                            bucket_of(next, first, last, key_view(key))
                        } else {
                            bucket_of(prefix, first, last, key_view(key))
                        }),
                invariant
                    day.wf(),
                    end_day.wf(),
                    date_le(start_day@, day@),
                    date_le(day@, end_day@),
                    start_day@ == clip_start(*item, first),
                    end_day@ == clip_end(*item, last),
                    next.len() > 0,
                    next.drop_last() == prefix,
                    next.last() == *item,
                ensures
                    forall|key: DateKey| #[trigger]
                        by_date@.contains_key(key) <==> bucket_of(next, first, last, key_view(key)).len() > 0,
                    forall|key: DateKey| #[trigger]
                        by_date@.contains_key(key) ==> by_date@[key]@ == bucket_of(next, first, last, key_view(key)),
                decreases date_rank(end_day@) - date_rank(day@),
            {
                let key = day.key();
                assert(key_view(key) == day@);
                assert(covers(*item, first, last, day@));
                let ghost before = bucket_of(prefix, first, last, day@);
                let removed = by_date.remove(&key);
                let mut bucket = match removed {
                    Some(b) => b,
                    None => {
                        assert(before.len() == 0);
                        let v: Vec<Arc<CalendarEvent>> = Vec::new();
                        assert(v@ =~= before);
                        v
                    },
                };
                assert(bucket@ == before);
                insert_event_in_order(&mut bucket, share_event(&item.0));
                proof { lemma_insert_in_order_len(before, item.0); }
                assert(bucket@ == bucket_of(next, first, last, day@));
                by_date.insert(key, bucket);
                if day == end_day {
                    assert forall|key: DateKey| #[trigger] by_date@.contains_key(key) <==> bucket_of(next, first, last, key_view(key)).len() > 0 by {
                        if covers(*item, first, last, key_view(key)) {
                            lemma_insert_in_order_len(bucket_of(prefix, first, last, key_view(key)), item.0);
                        }
                    }
                    assert forall|key: DateKey| #[trigger] by_date@.contains_key(key) implies by_date@[key]@ == bucket_of(next, first, last, key_view(key)) by {
                        if key_view(key) != day@ && covers(*item, first, last, key_view(key)) {
                            lemma_insert_in_order_len(bucket_of(prefix, first, last, key_view(key)), item.0);
                        }
                    }
                    break;
                }
                proof {
                    lemma_next_day_is_successor(day@, end_day@);
                    lemma_next_prev(day@);
                }
                let following = match day.succ_opt() {
                    Some(d) => d,
                    None => {
                        break;
                    },
                };
                proof {
                    lemma_date_rank(day@, following@);
                    assert forall|k: (int, int, int)| is_valid_ymd(k) implies (date_lt(k, following@) <==> (date_lt(k, day@) || k == day@)) by {
                        if date_lt(day@, k) {
                            lemma_next_day_is_successor(day@, k);
                        }
                    }
                    assert forall|key: DateKey| #[trigger] by_date@.contains_key(key) <==> (bucket_of(prefix, first, last, key_view(key)).len() > 0
                            || (covers(*item, first, last, key_view(key)) && date_lt(key_view(key), following@))) by {
                        if key_view(key) == day@ {
                            assert(key == (day.year, day.month, day.day));
                        }
                    }
                    assert forall|key: DateKey| #[trigger] by_date@.contains_key(key) implies by_date@[key]@ == (if covers(*item, first, last, key_view(key))
                            && date_lt(key_view(key), following@) {
                            bucket_of(next, first, last, key_view(key))
                        } else {
                            bucket_of(prefix, first, last, key_view(key))
                        }) by {
                        if key_view(key) == day@ {
                            assert(key == (day.year, day.month, day.day));
                        }
                    }
                }
                day = following;
            }
        }
        n = n + 1;
    }
    assert(items@.take(items.len() as int) =~= items@);
    by_date
}


/// A calendar as DankCalendar lists it.
#[derive(Debug)]
pub struct DankCalendar {
    pub id: String,
    pub name: String,
    pub color: Option<String>,
    pub hidden: bool,
}

/// An event as DankCalendar lists it; times are RFC 3339 text.
#[derive(Debug)]
pub struct DankEvent {
    pub calendar_id: String,
    pub summary: String,
    pub location: String,
    pub start: String,
    pub end: String,
    pub all_day: bool,
    pub status: String,
}

/// The calendar with identifier `id`; when several share it, the last one listed (as
/// when the list is collected into a map keyed by identifier).
pub open spec fn calendar_lookup(calendars: Seq<DankCalendar>, id: Seq<char>) -> Option<DankCalendar>
    decreases calendars.len(),
{
    if calendars.len() == 0 {
        None
    } else if calendars.last().id@ == id {
        Some(calendars.last())
    } else {
        calendar_lookup(calendars.drop_last(), id)
    }
}

/// The calendar with identifier `id`, as `calendar_lookup` gives it.
pub fn find_calendar<'a>(calendars: &'a Vec<DankCalendar>, id: &String) -> (r: Option<&'a DankCalendar>)
    ensures
        match r {
            Some(c) => calendar_lookup(calendars@, id@) == Some(*c),
            None => calendar_lookup(calendars@, id@) is None,
        },
{
    let mut i = calendars.len();
    assert(calendars@.take(i as int) =~= calendars@);
    while i > 0
        invariant
            i <= calendars.len(),
            calendar_lookup(calendars@, id@) == calendar_lookup(calendars@.take(i as int), id@),
        decreases i,
    {
        let ghost t = calendars@.take(i as int);
        assert(t.drop_last() =~= calendars@.take(i - 1));
        if calendars[i - 1].id == *id {
            return Some(&calendars[i - 1]);
        }
        i = i - 1;
    }
    assert(calendars@.take(0) =~= Seq::<DankCalendar>::empty());
    None
}

/// What `normalize_event` makes of `event` from `calendar`, given its parsed start and
/// end.
pub open spec fn normalized_from(
    event: DankEvent,
    calendar: Option<DankCalendar>,
    e: CalendarEvent,
) -> bool {
    &&& e.calendar_name@ == (match calendar {
        Some(c) => c.name@,
        None => Seq::<char>::empty(),
    })
    &&& e.color == (match calendar {
        Some(c) => c.color,
        None => None,
    })
    &&& e.title@ == (if event.summary@.len() == 0 { "(untitled)"@ } else { event.summary@ })
    &&& e.location@ == event.location@
    &&& e.all_day == event.all_day
    &&& e.start.wf()
    &&& e.end.wf()
    &&& rfc3339_fields(event.start@) matches Some(f) && f.unix_secs == e.start.unix_secs && f.nanos
        == e.start.nanos
    &&& rfc3339_fields(event.end@) matches Some(f) && f.unix_secs == e.end.unix_secs && f.nanos
        == e.end.nanos
}

/// The widget's view of `event` from `calendar`, given its start and end as parsed:
/// calendar name and color from its calendar, "(untitled)" for an empty summary, and
/// start and end in the local time zone.
pub fn normalized_event(
    event: &DankEvent,
    calendar: Option<&DankCalendar>,
    start: ParsedTime,
    end: ParsedTime,
) -> (r: CalendarEvent)
    ensures
        r.calendar_name@ == (match calendar {
            Some(c) => c.name@,
            None => Seq::<char>::empty(),
        }),
        r.color == (match calendar {
            Some(c) => c.color,
            None => None,
        }),
        r.title@ == (if event.summary@.len() == 0 { "(untitled)"@ } else { event.summary@ }),
        r.location@ == event.location@,
        r.start == start.local,
        r.end == end.local,
        r.all_day == event.all_day,
{
    let calendar_name = match calendar {
        Some(c) => c.name.clone(),
        None => String::new(),
    };
    let color = match calendar {
        Some(c) => match &c.color {
            Some(x) => Some(x.clone()),
            None => None,
        },
        None => None,
    };
    let title = if event.summary.as_str().is_empty() {
        proof { reveal_strlit("(untitled)"); }
        string_of("(untitled)")
    } else {
        event.summary.clone()
    };
    CalendarEvent {
        calendar_name,
        color,
        title,
        location: event.location.clone(),
        start: start.local,
        end: end.local,
        all_day: event.all_day,
    }
}

/// The widget's view of a DankCalendar event (see `normalized_event`), its start and
/// end parsed as RFC 3339 and seen in the local time zone. `None` when the start or the
/// end does not parse.
pub fn normalize_event(event: &DankEvent, calendar: Option<&DankCalendar>) -> (r: Option<CalendarEvent>)
    ensures
        r is Some <==> (rfc3339_fields(event.start@) is Some && rfc3339_fields(event.end@) is Some),
        r matches Some(e) ==> normalized_from(*event, match calendar {
            Some(c) => Some(*c),
            None => None,
        }, e),
{
    let start = match parse_event_time(event.start.as_str()) {
        Some(t) => t,
        None => return None,
    };
    let end = match parse_event_time(event.end.as_str()) {
        Some(t) => t,
        None => return None,
    };
    Some(normalized_event(event, calendar, start, end))
}

/// The later of two dates, as `Ord::max` picks it.
pub open spec fn date_max(a: Date, b: Date) -> Date {
    if date_lt(b@, a@) { a } else { b }
}

/// First and last day of an all-day event from its dates as written: the end date is
/// exclusive, and an event never ends before it starts.
pub open spec fn all_day_range(start: Date, end: Date) -> (Date, Date) {
    let last = if date_lt(start@, end@) { date_of(prev_day(end@)) } else { end };
    (start, date_max(last, start))
}

/// The days an event occupies: timed events by their local start and final day, all-day
/// events by the dates written in their timestamps, so that no time zone moves them.
pub open spec fn spec_event_day_range(event: DankEvent, normalized: CalendarEvent) -> Option<(Date, Date)> {
    if !event.all_day {
        Some((normalized.start.date, date_max(spec_final_day(normalized), normalized.start.date)))
    } else {
        match (rfc3339_fields(event.start@), rfc3339_fields(event.end@)) {
            (Some(s), Some(e)) => Some(all_day_range(s.date, e.date)),
            _ => None,
        }
    }
}

/// The later of two dates.
fn later_date(a: Date, b: Date) -> (r: Date)
    ensures
        r == date_max(a, b),
{
    if b.is_before(&a) { a } else { b }
}

/// First and last day of an all-day event whose timestamps are written with the dates
/// `start` and `end` (see `all_day_range`).
pub fn all_day_days(start: Date, end: Date) -> (r: (Date, Date))
    requires
        start.wf(),
        end.wf(),
    ensures
        r == all_day_range(start, end),
        r.0.wf() && r.1.wf() && date_le(r.0@, r.1@),
{
    let mut end_day = end;
    if start.is_before(&end_day) {
        proof { lemma_next_prev(end_day@); }
        end_day = match end_day.pred_opt() {
            Some(d) => d,
            None => start,
        };
    }
    (start, later_date(end_day, start))
}

/// The first and last day that `event` occupies (see `spec_event_day_range`).
pub fn event_day_range(event: &DankEvent, normalized: &CalendarEvent) -> (r: Option<(Date, Date)>)
    requires
        normalized.start.wf(),
        normalized.end.wf(),
    ensures
        r == spec_event_day_range(*event, *normalized),
        r matches Some((a, b)) ==> a.wf() && b.wf() && date_le(a@, b@),
        !event.all_day ==> r == Some((
            normalized.start.date,
            if instant_lt(normalized.start, normalized.end) {
                date_max(normalized.end.date_before, normalized.start.date)
            } else {
                normalized.start.date
            },
        )),
{
    if !event.all_day {
        let start_day = normalized.start.date;
        let end_day = later_date(normalized.final_day(), start_day);
        return Some((start_day, end_day));
    }
    let start_day = match parse_event_time(event.start.as_str()) {
        Some(t) => t.civil_date,
        None => return None,
    };
    let end_day = match parse_event_time(event.end.as_str()) {
        Some(t) => t.civil_date,
        None => return None,
    };
    Some(all_day_days(start_day, end_day))
}

/// A timed event occupies every day from its local start day to the local day one
/// nanosecond before its end (end times are exclusive); an event that does not end
/// after it starts occupies its start day alone.
pub proof fn lemma_timed_event_days(event: DankEvent, e: CalendarEvent)
    requires
        !event.all_day,
    ensures
        spec_event_day_range(event, e) matches Some((first, last)) && first == e.start.date && (
        instant_lt(e.start, e.end) ==> last == date_max(e.end.date_before, e.start.date)) && (
        !instant_lt(e.start, e.end) ==> last == e.start.date),
        instant_lt(e.start, e.end) && date_le(e.start.date@, e.end.date_before@)
            ==> spec_event_day_range(event, e) == Some((e.start.date, e.end.date_before)),
{
}

/// An all-day event occupies the days written in its timestamps, from the start date up
/// to the day before the (exclusive) end date, and at least its start date.
pub proof fn lemma_all_day_event_days(event: DankEvent, e: CalendarEvent, s: Rfc3339Fields, t: Rfc3339Fields)
    requires
        event.all_day,
        rfc3339_fields(event.start@) == Some(s),
        rfc3339_fields(event.end@) == Some(t),
    ensures
        spec_event_day_range(event, e) matches Some((first, last)) && first == s.date && (
        date_lt(s.date@, t.date@) ==> last == date_max(date_of(prev_day(t.date@)), s.date)) && (
        !date_lt(s.date@, t.date@) ==> last == s.date),
{
}

/// Inserting an event adds exactly that event.
pub proof fn lemma_insert_in_order_contents(s: Seq<Arc<CalendarEvent>>, e: Arc<CalendarEvent>)
    ensures
        insert_in_order(s, e).contains(e),
        forall|x: Arc<CalendarEvent>| #[trigger]
            insert_in_order(s, e).contains(x) ==> s.contains(x) || x == e,
        forall|x: Arc<CalendarEvent>| s.contains(x) ==> #[trigger] insert_in_order(s, e).contains(x),
    decreases s.len(),
{
    if s.len() == 0 {
        assert(insert_in_order(s, e)[0] == e);
    } else if ordered_before(e, s.last()) {
        let t = s.drop_last();
        lemma_insert_in_order_contents(t, e);
        let r = insert_in_order(t, e);
        assert(r.push(s.last()) == insert_in_order(s, e));
        assert forall|x: Arc<CalendarEvent>| #[trigger]
            insert_in_order(s, e).contains(x) implies s.contains(x) || x == e by {
            let i = choose|i: int| 0 <= i < r.len() + 1 && r.push(s.last())[i] == x;
            if i < r.len() {
                assert(r.contains(x));
                if t.contains(x) {
                    let j = choose|j: int| 0 <= j < t.len() && t[j] == x;
                    assert(s[j] == x);
                }
            } else {
                assert(s[s.len() - 1] == x);
            }
        }
        assert forall|x: Arc<CalendarEvent>| s.contains(x) implies #[trigger] insert_in_order(s, e).contains(x) by {
            let i = choose|i: int| 0 <= i < s.len() && s[i] == x;
            if i < s.len() - 1 {
                assert(t[i] == x);
                assert(t.contains(x));
                assert(insert_in_order(t, e).contains(x));
                let j = choose|j: int| 0 <= j < r.len() && r[j] == x;
                assert(r.push(s.last())[j] == x);
            } else {
                assert(r.push(s.last())[r.len() as int] == x);
            }
        }
        let j = choose|j: int| 0 <= j < r.len() && r[j] == e;
        assert(r.push(s.last())[j] == e);
    } else {
        assert(s.push(e)[s.len() as int] == e);
        assert forall|x: Arc<CalendarEvent>| #[trigger]
            insert_in_order(s, e).contains(x) implies s.contains(x) || x == e by {
            let i = choose|i: int| 0 <= i < s.len() + 1 && s.push(e)[i] == x;
            if i < s.len() {
                assert(s[i] == x);
            }
        }
        assert forall|x: Arc<CalendarEvent>| s.contains(x) implies #[trigger] insert_in_order(s, e).contains(x) by {
            let i = choose|i: int| 0 <= i < s.len() && s[i] == x;
            assert(s.push(e)[i] == x);
        }
    }
}

/// Every event of day `k` is the event of an item that occupies `k`, and day `k` has
/// events exactly when some item occupies it.
pub proof fn lemma_bucket_of_members(items: Seq<BucketItem>, first: Date, last: Date, k: (int, int, int))
    ensures
        forall|x: Arc<CalendarEvent>| #[trigger] bucket_of(items, first, last, k).contains(x) ==>
            exists|j: int| 0 <= j < items.len() && items[j].0 == x && covers(items[j], first, last, k),
        bucket_of(items, first, last, k).len() > 0 <==> exists|j: int| 0 <= j < items.len() && covers(items[j], first, last, k),
    decreases items.len(),
{
    if items.len() > 0 {
        let t = items.drop_last();
        lemma_bucket_of_members(t, first, last, k);
        let rest = bucket_of(t, first, last, k);
        if covers(items.last(), first, last, k) {
            lemma_insert_in_order_contents(rest, items.last().0);
            lemma_insert_in_order_len(rest, items.last().0);
            assert forall|x: Arc<CalendarEvent>| #[trigger] bucket_of(items, first, last, k).contains(x) implies
                exists|j: int| 0 <= j < items.len() && items[j].0 == x && covers(items[j], first, last, k) by {
                if rest.contains(x) {
                    let j = choose|j: int| 0 <= j < t.len() && t[j].0 == x && covers(t[j], first, last, k);
                    assert(items[j] == t[j]);
                } else {
                    assert(items[items.len() - 1].0 == x);
                }
            }
            assert(covers(items[items.len() - 1], first, last, k));
        } else {
            assert forall|x: Arc<CalendarEvent>| #[trigger] bucket_of(items, first, last, k).contains(x) implies
                exists|j: int| 0 <= j < items.len() && items[j].0 == x && covers(items[j], first, last, k) by {
                let j = choose|j: int| 0 <= j < t.len() && t[j].0 == x && covers(t[j], first, last, k);
                assert(items[j] == t[j]);
            }
            if exists|j: int| 0 <= j < items.len() && covers(items[j], first, last, k) {
                let j = choose|j: int| 0 <= j < items.len() && covers(items[j], first, last, k);
                assert(j < items.len() - 1);
                assert(t[j] == items[j]);
            }
            assert forall|j: int| 0 <= j < t.len() && covers(t[j], first, last, k) implies
                covers(items[j], first, last, k) by {
                assert(items[j] == t[j]);
            }
        }
    }
}

/// Day `k` holds the event of every item that occupies it.
pub proof fn lemma_bucket_of_contains(items: Seq<BucketItem>, first: Date, last: Date, k: (int, int, int), j: int)
    requires
        0 <= j < items.len(),
        covers(items[j], first, last, k),
    ensures
        bucket_of(items, first, last, k).contains(items[j].0),
    decreases items.len(),
{
    let t = items.drop_last();
    let rest = bucket_of(t, first, last, k);
    if j < items.len() - 1 {
        assert(t[j] == items[j]);
        lemma_bucket_of_contains(t, first, last, k, j);
        if covers(items.last(), first, last, k) {
            lemma_insert_in_order_contents(rest, items.last().0);
        }
    } else {
        assert(items[j] == items.last());
        lemma_insert_in_order_contents(rest, items.last().0);
    }
}

/// A day's events are in order: no event is ordered strictly before an earlier one.
pub open spec fn day_sorted(s: Seq<Arc<CalendarEvent>>) -> bool {
    forall|i: int, j: int| 0 <= i < j < s.len() ==> !ordered_before(#[trigger] s[j], #[trigger] s[i])
}

/// Inserting with `insert_in_order` keeps a day's events in order.
pub proof fn lemma_insert_in_order_sorted(s: Seq<Arc<CalendarEvent>>, e: Arc<CalendarEvent>)
    requires
        day_sorted(s),
    ensures
        day_sorted(insert_in_order(s, e)),
    decreases s.len(),
{
    if s.len() == 0 {
    } else if ordered_before(e, s.last()) {
        let t = s.drop_last();
        assert(day_sorted(t)) by {
            assert forall|i: int, j: int| 0 <= i < j < t.len() implies !ordered_before(#[trigger] t[j], #[trigger] t[i]) by {
                assert(t[i] == s[i] && t[j] == s[j]);
            }
        }
        lemma_insert_in_order_sorted(t, e);
        lemma_insert_in_order_contents(t, e);
        lemma_insert_in_order_len(t, e);
        let r = insert_in_order(t, e);
        let l = s.last();
        assert forall|i: int, j: int| 0 <= i < j < r.push(l).len() implies !ordered_before(#[trigger] r.push(l)[j], #[trigger] r.push(l)[i]) by {
            if j == r.len() {
                let x = r[i];
                assert(r.contains(x));
                if t.contains(x) {
                    let k = choose|k: int| 0 <= k < t.len() && t[k] == x;
                    assert(s[k] == x);
                    assert(s[s.len() - 1] == l);
                }
            } else {
                assert(r.push(l)[i] == r[i] && r.push(l)[j] == r[j]);
            }
        }
    } else {
        let l = s.last();
        assert forall|i: int, j: int| 0 <= i < j < s.push(e).len() implies !ordered_before(#[trigger] s.push(e)[j], #[trigger] s.push(e)[i]) by {
            if j == s.len() {
                assert(s[s.len() - 1] == l);
                if i < s.len() - 1 {
                    assert(!ordered_before(s[s.len() - 1], s[i]));
                }
            } else {
                assert(s.push(e)[i] == s[i] && s.push(e)[j] == s[j]);
            }
        }
    }
}

/// Every day's events are in order: all-day events first, then by start instant.
pub proof fn lemma_bucket_of_sorted(items: Seq<BucketItem>, first: Date, last: Date, k: (int, int, int))
    ensures
        day_sorted(bucket_of(items, first, last, k)),
    decreases items.len(),
{
    if items.len() > 0 {
        lemma_bucket_of_sorted(items.drop_last(), first, last, k);
        if covers(items.last(), first, last, k) {
            lemma_insert_in_order_sorted(bucket_of(items.drop_last(), first, last, k), items.last().0);
        }
    }
}

/// DankCalendar keeps an event unless it is cancelled or its calendar is hidden.
pub open spec fn event_kept(event: DankEvent, calendars: Seq<DankCalendar>) -> bool {
    &&& event.status@ != "cancelled"@
    &&& !(calendar_lookup(calendars, event.calendar_id@) matches Some(c) && c.hidden)
}

/// The items that `bucket_events` places: `items`, with `sources` naming the event each
/// comes from, hold one item for each kept event whose times parse, in the order of
/// `events`; each is that event normalized with the days it occupies.
pub open spec fn bucket_items(
    events: Seq<DankEvent>,
    calendars: Seq<DankCalendar>,
    items: Seq<BucketItem>,
    sources: Seq<int>,
) -> bool {
    &&& items.len() == sources.len()
    &&& forall|j: int| 0 <= j < items.len() ==> {
        &&& 0 <= #[trigger] sources[j] < events.len()
        &&& event_kept(events[sources[j]], calendars)
        &&& normalized_from(events[sources[j]], calendar_lookup(calendars, events[sources[j]].calendar_id@), *items[j].0)
        &&& spec_event_day_range(events[sources[j]], *items[j].0) == Some((items[j].1, items[j].2))
    }
    &&& forall|j1: int, j2: int| #![trigger sources[j1], sources[j2]] 0 <= j1 < j2 < items.len() ==> sources[j1] < sources[j2]
    &&& forall|i: int| #![trigger events[i]] 0 <= i < events.len() && event_kept(events[i], calendars)
        && rfc3339_fields(events[i].start@) is Some && rfc3339_fields(events[i].end@) is Some
        ==> exists|j: int| 0 <= j < items.len() && sources[j] == i
}

/// The buckets `r` of `bucket_events` for `events` of `calendars` in the window from
/// `window_start` to `window_end` (exclusive): empty when the window has no last day;
/// every key a day of the window, with its events in order; every event of a day
/// normalized from a kept event that occupies the day; and, when the window has a last
/// day, every kept event whose times parse on every day of the window that it occupies,
/// and each day's events exactly as `bucket_of` places the items of `bucket_items`.
pub open spec fn bucketed(
    r: Map<DateKey, Vec<Arc<CalendarEvent>>>,
    events: Seq<DankEvent>,
    calendars: Seq<DankCalendar>,
    window_start: Date,
    window_end: Date,
) -> bool {
    &&& !year_in_range(prev_day(window_end@).0) ==> r == Map::<DateKey, Vec<Arc<CalendarEvent>>>::empty()
    &&& forall|key: DateKey| #[trigger] r.contains_key(key) ==> {
        &&& is_valid_ymd(key_view(key))
        &&& date_le(window_start@, key_view(key))
        &&& date_lt(key_view(key), window_end@)
        &&& r[key].len() > 0
        &&& day_sorted(r[key]@)
    }
    &&& forall|key: DateKey, j: int| #![trigger r[key]@[j]] r.contains_key(key) && 0 <= j < r[key].len() ==>
        exists|i: int| #![trigger events[i]] 0 <= i < events.len() && {
            &&& event_kept(events[i], calendars)
            &&& normalized_from(events[i], calendar_lookup(calendars, events[i].calendar_id@), *r[key]@[j])
            &&& spec_event_day_range(events[i], *r[key]@[j]) matches Some((a, b))
            &&& date_le(a@, key_view(key)) && date_le(key_view(key), b@)
        }
    &&& year_in_range(prev_day(window_end@).0) ==> forall|i: int| #![trigger events[i]] 0 <= i
        < events.len() && event_kept(events[i], calendars) && rfc3339_fields(events[i].start@) is Some
        && rfc3339_fields(events[i].end@) is Some ==> exists|e: Arc<CalendarEvent>| {
            &&& normalized_from(events[i], calendar_lookup(calendars, events[i].calendar_id@), *e)
            &&& spec_event_day_range(events[i], *e) matches Some((a, b))
            &&& forall|key: DateKey| #![trigger r.contains_key(key)] {
                &&& is_valid_ymd(key_view(key))
                &&& date_le(window_start@, key_view(key))
                &&& date_lt(key_view(key), window_end@)
                &&& date_le(a@, key_view(key))
                &&& date_le(key_view(key), b@)
            } ==> r.contains_key(key) && r[key]@.contains(e)
        }
    &&& year_in_range(prev_day(window_end@).0) ==> exists|items: Seq<BucketItem>, sources: Seq<int>| {
        &&& #[trigger] bucket_items(events, calendars, items, sources)
        &&& forall|key: DateKey| #[trigger] r.contains_key(key) <==> bucket_of(
            items,
            window_start,
            date_of(prev_day(window_end@)),
            key_view(key),
        ).len() > 0
        &&& forall|key: DateKey| #[trigger] r.contains_key(key) ==> r[key]@ == bucket_of(
            items,
            window_start,
            date_of(prev_day(window_end@)),
            key_view(key),
        )
    }
}

/// Groups the events by the days of the window from `window_start` to `window_end`
/// (exclusive) that they occupy, each day's events all-day first and then by start.
/// Cancelled events, events of hidden calendars and events whose times do not parse are
/// left out. An event that occupies no day of the window occupies no bucket.
#[verifier::spinoff_prover]
pub fn bucket_events(
    events: Vec<DankEvent>,
    calendars: &Vec<DankCalendar>,
    window_start: Date,
    window_end: Date,
) -> (r: BTreeMap<DateKey, Vec<Arc<CalendarEvent>>>)
    requires
        window_start.wf(),
        window_end.wf(),
    ensures
        bucketed(r@, events@, calendars@, window_start, window_end),
{
    proof { lemma_next_prev(window_end@); }
    let last_window_day = match window_end.pred_opt() {
        Some(d) => d,
        None => return BTreeMap::new(),
    };
    let mut items: Vec<BucketItem> = Vec::new();
    let ghost mut sources: Seq<int> = Seq::empty();
    let mut n: usize = 0;
    while n < events.len()
        invariant
            n <= events.len(),
            sources.len() == items.len(),
            forall|j: int| 0 <= j < items.len() ==> {
                &&& (#[trigger] items@[j]).1.wf()
                &&& items@[j].2.wf()
                &&& 0 <= sources[j] < n
                &&& event_kept(events@[sources[j]], calendars@)
                &&& normalized_from(events@[sources[j]], calendar_lookup(calendars@, events@[sources[j]].calendar_id@), *items@[j].0)
                &&& spec_event_day_range(events@[sources[j]], *items@[j].0) == Some((items@[j].1, items@[j].2))
            },
            forall|j1: int, j2: int| #![trigger sources[j1], sources[j2]] 0 <= j1 < j2 < items.len() ==> sources[j1] < sources[j2],
            forall|i: int| #![trigger events@[i]] 0 <= i < n && event_kept(events@[i], calendars@)
                && rfc3339_fields(events@[i].start@) is Some && rfc3339_fields(events@[i].end@) is Some
                ==> exists|j: int| 0 <= j < items.len() && sources[j] == i,
        decreases events.len() - n,
    {
        let event = &events[n];
        proof { reveal_strlit("cancelled"); }
        if str_eq(event.status.as_str(), "cancelled") {
            n = n + 1;
            continue;
        }
        let calendar = find_calendar(calendars, &event.calendar_id);
        let hidden = match calendar {
            Some(c) => c.hidden,
            None => false,
        };
        if hidden {
            n = n + 1;
            continue;
        }
        let normalized = match normalize_event(event, calendar) {
            Some(e) => e,
            None => {
                n = n + 1;
                continue;
            },
        };
        let (start_day, end_day) = match event_day_range(event, &normalized) {
            Some(range) => range,
            None => {
                n = n + 1;
                continue;
            },
        };
        let ghost old_items = items@;
        items.push((Arc::new(normalized), start_day, end_day));
        proof {
            let ghost old_sources = sources;
            sources = sources.push(n as int);
            assert(sources[old_items.len() as int] == n);
            assert forall|i: int| #![trigger events@[i]] 0 <= i < n + 1 && event_kept(events@[i], calendars@)
                && rfc3339_fields(events@[i].start@) is Some && rfc3339_fields(events@[i].end@) is Some
                implies exists|j: int| 0 <= j < items.len() && sources[j] == i by {
                if i < n {
                    let j = choose|j: int| 0 <= j < old_items.len() && old_sources[j] == i;
                    assert(sources[j] == old_sources[j]);
                } else {
                    assert(sources[old_items.len() as int] == i);
                }
            }
            assert forall|j1: int, j2: int| #![trigger sources[j1], sources[j2]] 0 <= j1 < j2 < items.len() implies sources[j1] < sources[j2] by {
                if j2 < old_items.len() {
                    assert(sources[j1] == old_sources[j1] && sources[j2] == old_sources[j2]);
                } else {
                    assert(old_items[j1] == items@[j1]);
                    assert(sources[j1] == old_sources[j1]);
                }
            }
            assert forall|j: int| 0 <= j < items.len() implies {
                &&& (#[trigger] items@[j]).1.wf()
                &&& items@[j].2.wf()
                &&& 0 <= sources[j] < n + 1
                &&& event_kept(events@[sources[j]], calendars@)
                &&& normalized_from(events@[sources[j]], calendar_lookup(calendars@, events@[sources[j]].calendar_id@), *items@[j].0)
                &&& spec_event_day_range(events@[sources[j]], *items@[j].0) == Some((items@[j].1, items@[j].2))
            } by {
                if j < old_items.len() {
                    assert(items@[j] == old_items[j]);
                }
            }
        }
        n = n + 1;
    }
    let r = place_in_buckets(&items, window_start, last_window_day);
    proof {
        assert(date_of(prev_day(window_end@)) == last_window_day);
        assert(bucket_items(events@, calendars@, items@, sources));
        assert(forall|key: DateKey| #[trigger] r@.contains_key(key) <==> bucket_of(
            items@,
            window_start,
            date_of(prev_day(window_end@)),
            key_view(key),
        ).len() > 0);
        assert(forall|key: DateKey| #[trigger] r@.contains_key(key) ==> r@[key]@ == bucket_of(
            items@,
            window_start,
            date_of(prev_day(window_end@)),
            key_view(key),
        ));
        assert forall|key: DateKey| #[trigger] r@.contains_key(key) implies {
            &&& is_valid_ymd(key_view(key))
            &&& date_le(window_start@, key_view(key))
            &&& date_lt(key_view(key), window_end@)
            &&& r@[key].len() > 0
            &&& day_sorted(r@[key]@)
        } by {
            lemma_bucket_of_sorted(items@, window_start, last_window_day, key_view(key));
            lemma_bucket_of_members(items@, window_start, last_window_day, key_view(key));
            let j = choose|j: int| 0 <= j < items@.len() && covers(items@[j], window_start, last_window_day, key_view(key));
            if date_lt(key_view(key), last_window_day@) {
                lemma_date_lt_transitive(key_view(key), last_window_day@, window_end@);
            }
        }
        assert forall|key: DateKey, j: int| #![trigger r@[key]@[j]] r@.contains_key(key) && 0 <= j < r@[key].len() implies
            exists|i: int| #![trigger events@[i]] 0 <= i < events.len() && {
                &&& event_kept(events@[i], calendars@)
                &&& normalized_from(events@[i], calendar_lookup(calendars@, events@[i].calendar_id@), *r@[key]@[j])
                &&& spec_event_day_range(events@[i], *r@[key]@[j]) matches Some((a, b))
                &&& date_le(a@, key_view(key)) && date_le(key_view(key), b@)
            } by {
            lemma_bucket_of_members(items@, window_start, last_window_day, key_view(key));
            let x = r@[key]@[j];
            assert(bucket_of(items@, window_start, last_window_day, key_view(key)).contains(x));
            let m = choose|m: int| 0 <= m < items@.len() && items@[m].0 == x && covers(items@[m], window_start, last_window_day, key_view(key));
            let i = sources[m];
            assert(items@[m].0 == x);
            assert(event_kept(events@[i], calendars@));
        }
        assert forall|i: int| #![trigger events@[i]] 0 <= i < events.len() && event_kept(events@[i], calendars@)
            && rfc3339_fields(events@[i].start@) is Some && rfc3339_fields(events@[i].end@) is Some implies
            exists|e: Arc<CalendarEvent>| {
                &&& normalized_from(events@[i], calendar_lookup(calendars@, events@[i].calendar_id@), *e)
                &&& spec_event_day_range(events@[i], *e) matches Some((a, b))
                &&& forall|key: DateKey| #![trigger r@.contains_key(key)] {
                    &&& is_valid_ymd(key_view(key))
                    &&& date_le(window_start@, key_view(key))
                    &&& date_lt(key_view(key), window_end@)
                    &&& date_le(a@, key_view(key))
                    &&& date_le(key_view(key), b@)
                } ==> r@.contains_key(key) && r@[key]@.contains(e)
            } by {
            let j = choose|j: int| 0 <= j < items.len() && sources[j] == i;
            let item = items@[j];
            let e = item.0;
            assert forall|key: DateKey| #![trigger r@.contains_key(key)] {
                &&& is_valid_ymd(key_view(key))
                &&& date_le(window_start@, key_view(key))
                &&& date_lt(key_view(key), window_end@)
                &&& date_le(item.1@, key_view(key))
                &&& date_le(key_view(key), item.2@)
            } implies r@.contains_key(key) && r@[key]@.contains(e) by {
                let k = key_view(key);
                if date_lt(last_window_day@, k) {
                    lemma_next_day_is_successor(last_window_day@, k);
                }
                assert(covers(item, window_start, last_window_day, k));
                lemma_bucket_of_contains(items@, window_start, last_window_day, k, j);
            }
        }
    }
    r
}


/// The snapshots hold the same values.
pub open spec fn same_snapshot(a: CalendarSnapshot, b: CalendarSnapshot) -> bool {
    &&& a.focus_month == b.focus_month
    &&& a.loading == b.loading
    &&& a.error == b.error
    &&& a.backend_available == b.backend_available
    &&& a.events_by_date@ == b.events_by_date@
}

/// A copy of the snapshot.
pub fn copy_snapshot(s: &CalendarSnapshot) -> (r: CalendarSnapshot)
    ensures
        same_snapshot(r, *s),
{
    CalendarSnapshot {
        focus_month: s.focus_month,
        loading: s.loading,
        error: match &s.error {
            Some(e) => Some(e.clone()),
            None => None,
        },
        backend_available: s.backend_available,
        events_by_date: s.events_by_date.clone(),
    }
}

/// Why a refresh brought no events.
#[derive(Debug)]
pub enum CalendarError {
    /// DankCalendar could not be reached; it is treated as absent.
    Unavailable(String),
    /// DankCalendar was reached but fetching failed.
    Fetch(String),
}

/// The message shown when fetching fails.
pub open spec fn fetch_error_message() -> Seq<char> {
    "Error fetching calendar events. Check logs for details."@
}

/// The message shown when fetching fails.
pub fn fetch_error_text() -> (r: String)
    ensures
        r@ == fetch_error_message(),
{
    proof { reveal_strlit("Error fetching calendar events. Check logs for details."); }
    string_of("Error fetching calendar events. Check logs for details.")
}

/// A request to fetch the events around `focus_date`, tagged with the refresh
/// generation that asked for it.
#[derive(Clone, Copy, Debug, PartialEq, Eq, Structural)]
pub struct RefreshRequest {
    pub generation: u64,
    pub focus_date: Date,
}

/// The generation after `g`, wrapping around.
pub open spec fn next_generation(g: u64) -> u64 {
    if g == u64::MAX { 0 } else { (g + 1) as u64 }
}

/// The state of the calendar service: the current snapshot, the latest refresh
/// generation, whether a fetch worker is running, and the refresh waiting for it.
/// Callers run the fetches and notify listeners; this type decides.
#[derive(Debug)]
pub struct CalendarService {
    pub snapshot: CalendarSnapshot,
    pub generation: u64,
    pub worker_active: bool,
    pub pending_refresh: Option<RefreshRequest>,
}

/// What a refresh asks of its caller: start a worker for `start` when present, then
/// notify listeners of `notify`.
#[derive(Debug)]
pub struct RefreshEffects {
    pub start: Option<RefreshRequest>,
    pub notify: CalendarSnapshot,
}

impl CalendarService {
    /// At most one worker runs: a waiting refresh exists only while a worker runs, and it
    /// is always the latest one asked for.
    pub open spec fn wf(self) -> bool {
        &&& !self.worker_active ==> self.pending_refresh is None
        &&& self.pending_is_latest()
    }

    /// The waiting refresh, if any, is the latest one asked for.
    pub open spec fn pending_is_latest(self) -> bool {
        self.pending_refresh matches Some(r) ==> r.generation == self.generation
            && r.focus_date.wf()
    }

    /// An idle service with an empty snapshot.
    pub fn new() -> (r: Self)
        ensures
            r.wf(),
            r.generation == 0,
            !r.worker_active,
            r.pending_refresh is None,
            r.snapshot.focus_month is None,
            !r.snapshot.loading,
            r.snapshot.error is None,
            !r.snapshot.backend_available,
            r.snapshot.events_by_date@ == Map::<DateKey, Vec<Arc<CalendarEvent>>>::empty(),
    {
        CalendarService {
            snapshot: CalendarSnapshot::default(),
            generation: 0,
            worker_active: false,
            pending_refresh: None,
        }
    }

    /// A copy of the current snapshot.
    pub fn snapshot(&self) -> (r: CalendarSnapshot)
        ensures
            same_snapshot(r, self.snapshot),
    {
        copy_snapshot(&self.snapshot)
    }

    /// Starts the waiting refresh when no worker runs: marks a worker as running and
    /// hands back the request it is to fetch.
    pub fn start_pending_refresh(&mut self) -> (r: Option<RefreshRequest>)
        requires
            old(self).pending_is_latest(),
        ensures
            final(self).wf(),
            final(self).generation == old(self).generation,
            same_snapshot(final(self).snapshot, old(self).snapshot),
            old(self).worker_active ==> r is None && final(self).worker_active
                && final(self).pending_refresh == old(self).pending_refresh,
            !old(self).worker_active ==> r == old(self).pending_refresh
                && final(self).worker_active == (r is Some)
                && final(self).pending_refresh is None,
    {
        if self.worker_active {
            return None;
        }
        let request = self.pending_refresh.take();
        match request {
            Some(req) => {
                self.worker_active = true;
                Some(req)
            },
            None => None,
        }
    }

    /// Refreshes the month of `focus_date`: a new generation, the snapshot prepared for
    /// loading, and the request queued in place of any older waiting one; it starts at
    /// once when no worker runs. The caller starts the worker, then notifies listeners.
    pub fn refresh(&mut self, focus_date: Date) -> (r: RefreshEffects)
        requires
            old(self).wf(),
            focus_date.wf(),
        ensures
            final(self).wf(),
            final(self).generation == next_generation(old(self).generation),
            final(self).worker_active,
            final(self).snapshot.focus_month == Some(spec_month_start(focus_date)),
            final(self).snapshot.loading,
            final(self).snapshot.error is None,
            final(self).snapshot.backend_available == old(self).snapshot.backend_available,
            final(self).snapshot.events_by_date@ == (if old(self).snapshot.focus_month == Some(
                spec_month_start(focus_date),
            ) {
                old(self).snapshot.events_by_date@
            } else {
                Map::empty()
            }),
            same_snapshot(r.notify, final(self).snapshot),
            old(self).worker_active ==> r.start is None && final(self).pending_refresh == Some(
                RefreshRequest { generation: final(self).generation, focus_date },
            ),
            !old(self).worker_active ==> r.start == Some(
                RefreshRequest { generation: final(self).generation, focus_date },
            ) && final(self).pending_refresh is None,
    {
        let generation = if self.generation == u64::MAX { 0 } else { self.generation + 1 };
        self.generation = generation;
        prepare_refresh_snapshot(&mut self.snapshot, focus_date);
        let notify = copy_snapshot(&self.snapshot);
        self.pending_refresh = Some(RefreshRequest { generation, focus_date });
        let start = self.start_pending_refresh();
        RefreshEffects { start, notify }
    }

    /// Refreshes only when no worker runs and DankCalendar is not known to be available.
    pub fn ensure_discovery(&mut self, focus_date: Date) -> (r: Option<RefreshEffects>)
        requires
            old(self).wf(),
            focus_date.wf(),
        ensures
            final(self).wf(),
            (old(self).worker_active || old(self).snapshot.backend_available) <==> r is None,
            r is None ==> final(self).generation == old(self).generation
                && final(self).worker_active == old(self).worker_active
                && final(self).pending_refresh == old(self).pending_refresh
                && same_snapshot(final(self).snapshot, old(self).snapshot),
            r matches Some(e) ==> e.start == Some(
                RefreshRequest { generation: next_generation(old(self).generation), focus_date },
            ) && final(self).generation == next_generation(old(self).generation)
                && final(self).worker_active && final(self).pending_refresh is None
                && final(self).snapshot.focus_month == Some(spec_month_start(focus_date))
                && final(self).snapshot.loading && same_snapshot(e.notify, final(self).snapshot),
    {
        if self.worker_active || self.snapshot.backend_available {
            return None;
        }
        Some(self.refresh(focus_date))
    }

    /// Replaces the snapshot; the caller notifies listeners of the returned copy.
    pub fn set_snapshot(&mut self, snapshot: CalendarSnapshot) -> (r: CalendarSnapshot)
        requires
            old(self).wf(),
        ensures
            final(self).wf(),
            final(self).snapshot == snapshot,
            same_snapshot(r, snapshot),
            final(self).generation == old(self).generation,
            final(self).worker_active == old(self).worker_active,
            final(self).pending_refresh == old(self).pending_refresh,
    {
        let notify = copy_snapshot(&snapshot);
        self.snapshot = snapshot;
        notify
    }

    /// Applies what the worker of refresh `generation` brought. A result of an older
    /// generation is dropped. Fetched events replace the snapshot (loading done). When
    /// DankCalendar is absent, the events and the error clear and the backend is marked
    /// unavailable. When fetching failed, the events stay, the backend is marked
    /// available, and the fetch error message is shown. Returns the snapshot to notify
    /// listeners of, if any.
    pub fn apply_refresh_result(
        &mut self,
        generation: u64,
        result: Result<CalendarSnapshot, CalendarError>,
    ) -> (r: Option<CalendarSnapshot>)
        requires
            old(self).wf(),
        ensures
            final(self).wf(),
            final(self).generation == old(self).generation,
            final(self).worker_active == old(self).worker_active,
            final(self).pending_refresh == old(self).pending_refresh,
            generation != old(self).generation ==> r is None && same_snapshot(
                final(self).snapshot,
                old(self).snapshot,
            ),
            generation == old(self).generation ==> (r matches Some(n) && same_snapshot(n, final(self).snapshot)),
            generation == old(self).generation ==> match result {
                Ok(s) => {
                    &&& final(self).snapshot.focus_month == s.focus_month
                    &&& !final(self).snapshot.loading
                    &&& final(self).snapshot.error == s.error
                    &&& final(self).snapshot.backend_available == s.backend_available
                    &&& final(self).snapshot.events_by_date@ == s.events_by_date@
                },
                Err(CalendarError::Unavailable(_)) => {
                    &&& final(self).snapshot.focus_month == old(self).snapshot.focus_month
                    &&& !final(self).snapshot.loading
                    &&& final(self).snapshot.error is None
                    &&& !final(self).snapshot.backend_available
                    &&& final(self).snapshot.events_by_date@ == Map::<DateKey, Vec<Arc<CalendarEvent>>>::empty()
                },
                Err(CalendarError::Fetch(_)) => {
                    &&& final(self).snapshot.focus_month == old(self).snapshot.focus_month
                    &&& !final(self).snapshot.loading
                    &&& final(self).snapshot.error matches Some(e) && e@ == fetch_error_message()
                    &&& final(self).snapshot.backend_available
                    &&& final(self).snapshot.events_by_date@ == old(self).snapshot.events_by_date@
                },
            },
    {
        if generation != self.generation {
            return None;
        }
        match result {
            Ok(mut snapshot) => {
                snapshot.loading = false;
                Some(self.set_snapshot(snapshot))
            },
            Err(CalendarError::Unavailable(_)) => {
                let mut snapshot = copy_snapshot(&self.snapshot);
                snapshot.loading = false;
                snapshot.error = None;
                snapshot.backend_available = false;
                snapshot.events_by_date.clear();
                Some(self.set_snapshot(snapshot))
            },
            Err(CalendarError::Fetch(_)) => {
                let mut snapshot = copy_snapshot(&self.snapshot);
                snapshot.loading = false;
                snapshot.backend_available = true;
                snapshot.error = Some(fetch_error_text());
                Some(self.set_snapshot(snapshot))
            },
        }
    }

    /// The worker of refresh `generation` has finished with `result`: the result is
    /// applied (see `apply_refresh_result`), then the waiting refresh, if any, starts.
    /// Returns the snapshot to notify listeners of, if any, and the request the caller
    /// starts a new worker for, if any.
    pub fn complete_refresh(
        &mut self,
        generation: u64,
        result: Result<CalendarSnapshot, CalendarError>,
    ) -> (r: (Option<CalendarSnapshot>, Option<RefreshRequest>))
        requires
            old(self).wf(),
        ensures
            final(self).wf(),
            final(self).generation == old(self).generation,
            r.1 == old(self).pending_refresh,
            final(self).worker_active == (r.1 is Some),
            final(self).pending_refresh is None,
            generation != old(self).generation ==> r.0 is None && same_snapshot(
                final(self).snapshot,
                old(self).snapshot,
            ),
            generation == old(self).generation ==> (r.0 matches Some(n) && same_snapshot(n, final(self).snapshot)),
            generation == old(self).generation ==> match result {
                Ok(s) => {
                    &&& final(self).snapshot.focus_month == s.focus_month
                    &&& !final(self).snapshot.loading
                    &&& final(self).snapshot.error == s.error
                    &&& final(self).snapshot.backend_available == s.backend_available
                    &&& final(self).snapshot.events_by_date@ == s.events_by_date@
                },
                Err(CalendarError::Unavailable(_)) => {
                    &&& final(self).snapshot.focus_month == old(self).snapshot.focus_month
                    &&& !final(self).snapshot.loading
                    &&& final(self).snapshot.error is None
                    &&& !final(self).snapshot.backend_available
                    &&& final(self).snapshot.events_by_date@ == Map::<DateKey, Vec<Arc<CalendarEvent>>>::empty()
                },
                Err(CalendarError::Fetch(_)) => {
                    &&& final(self).snapshot.focus_month == old(self).snapshot.focus_month
                    &&& !final(self).snapshot.loading
                    &&& final(self).snapshot.error matches Some(e) && e@ == fetch_error_message()
                    &&& final(self).snapshot.backend_available
                    &&& final(self).snapshot.events_by_date@ == old(self).snapshot.events_by_date@
                },
            },
    {
        let notify = self.apply_refresh_result(generation, result);
        let next = self.worker_finished();
        (notify, next)
    }

    /// The running worker has finished: starts the waiting refresh, if any.
    pub fn worker_finished(&mut self) -> (r: Option<RefreshRequest>)
        requires
            old(self).wf(),
        ensures
            final(self).wf(),
            r == old(self).pending_refresh,
            final(self).worker_active == (r is Some),
            final(self).pending_refresh is None,
            final(self).generation == old(self).generation,
            same_snapshot(final(self).snapshot, old(self).snapshot),
    {
        self.worker_active = false;
        self.start_pending_refresh()
    }
}


/// The steps of fetching the events of a month.
#[derive(Clone, Copy, Debug, PartialEq, Eq, Structural)]
pub enum FetchStage {
    /// Finding and connecting to the DankCalendar socket.
    Connect,
    /// Listing the calendars.
    Calendars,
    /// Computing the fetch window.
    Window,
    /// Listing the events.
    Events,
}

/// The error of a fetch that failed at `stage` with `message`: DankCalendar counts as
/// unavailable when it cannot be connected to; any later failure is a fetch error.
pub fn fetch_failure(stage: FetchStage, message: String) -> (r: CalendarError)
    ensures
        stage == FetchStage::Connect ==> r == CalendarError::Unavailable(message),
        stage != FetchStage::Connect ==> r == CalendarError::Fetch(message),
{
    match stage {
        FetchStage::Connect => CalendarError::Unavailable(message),
        _ => CalendarError::Fetch(message),
    }
}

/// The snapshot of a successful fetch for the month of `focus_date`: the events of the
/// fetch window grouped by day as `bucket_events` groups them (see `bucketed`), loading
/// done, no error, and the backend available.
pub fn fetched_snapshot(
    focus_date: Date,
    window: (Date, Date),
    events: Vec<DankEvent>,
    calendars: &Vec<DankCalendar>,
) -> (r: CalendarSnapshot)
    requires
        focus_date.wf(),
        window.0.wf(),
        window.1.wf(),
    ensures
        r.focus_month == Some(spec_month_start(focus_date)),
        !r.loading,
        r.error is None,
        r.backend_available,
        bucketed(r.events_by_date@, events@, calendars@, window.0, window.1),
{
    CalendarSnapshot {
        focus_month: Some(month_start(focus_date)),
        loading: false,
        error: None,
        backend_available: true,
        events_by_date: bucket_events(events, calendars, window.0, window.1),
    }
}

/// One reply line from DankCalendar, as read from the socket.
#[derive(Debug)]
pub struct DankResponse<V> {
    pub id: Option<i64>,
    pub result: Option<V>,
    pub error: Option<String>,
}

/// What the reader saw while waiting for a reply.
#[derive(Debug)]
pub enum ResponseLine<V> {
    /// The socket reached end of file.
    Closed,
    /// A line that is not a reply; holds the parser's message.
    Unparsable(String),
    /// A reply.
    Reply(DankResponse<V>),
}

/// What to do after a line: keep reading, or finish the request with a result
/// (`None` standing for a reply without a result, that is JSON `null`).
#[derive(Debug)]
pub enum ResponseStep<V> {
    KeepReading,
    Finish(Result<Option<V>, String>),
}

/// Decides on a line read while waiting for the reply to request `id`: replies to other
/// requests are skipped; end of file fails with "DankCalendar socket closed"; a line that
/// does not parse fails with "parse DankCalendar response: " and the parser's message;
/// the reply to `id` fails with its error, if it has one, or gives its result.
pub fn handle_response_line<V>(id: i64, line: ResponseLine<V>) -> (r: ResponseStep<V>)
    ensures
        match line {
            ResponseLine::Closed => r matches ResponseStep::Finish(Err(e)) && e@
                == "DankCalendar socket closed"@,
            ResponseLine::Unparsable(m) => r matches ResponseStep::Finish(Err(e)) && e@
                == "parse DankCalendar response: "@ + m@,
            ResponseLine::Reply(resp) => if resp.id != Some(id) {
                r is KeepReading
            } else {
                match resp.error {
                    Some(err) => r matches ResponseStep::Finish(Err(e)) && e == err,
                    None => r matches ResponseStep::Finish(Ok(v)) && v == resp.result,
                }
            },
        },
{
    match line {
        ResponseLine::Closed => {
            proof { reveal_strlit("DankCalendar socket closed"); }
            ResponseStep::Finish(Err(string_of("DankCalendar socket closed")))
        },
        ResponseLine::Unparsable(message) => {
            proof { reveal_strlit("parse DankCalendar response: "); }
            let mut text = string_of("parse DankCalendar response: ");
            push_str(&mut text, message.as_str());
            ResponseStep::Finish(Err(text))
        },
        ResponseLine::Reply(response) => {
            let matches = match response.id {
                Some(got) => got == id,
                None => false,
            };
            if !matches {
                return ResponseStep::KeepReading;
            }
            match response.error {
                Some(error) => ResponseStep::Finish(Err(error)),
                None => ResponseStep::Finish(Ok(response.result)),
            }
        },
    }
}

/// Request identifiers of one DankCalendar connection; the first is 1.
#[derive(Debug)]
pub struct RequestIds {
    pub next_id: i64,
}

impl RequestIds {
    /// Identifiers of a new connection.
    pub fn new() -> (r: Self)
        ensures
            r.next_id == 1,
    {
        RequestIds { next_id: 1 }
    }

    /// The identifier for the next request; each request gets the next number.
    pub fn take(&mut self) -> (r: i64)
        requires
            old(self).next_id < i64::MAX,
        ensures
            r == old(self).next_id,
            final(self).next_id == old(self).next_id + 1,
    {
        let id = self.next_id;
        self.next_id = self.next_id + 1;
        id
    }
}

/// Checks the capabilities line read on connecting: reading nothing (end of file)
/// fails with "DankCalendar socket closed before capabilities".
pub fn check_capabilities(bytes_read: usize) -> (r: Result<(), String>)
    ensures
        (bytes_read == 0) <==> r is Err,
        r matches Err(e) ==> e@ == "DankCalendar socket closed before capabilities"@,
{
    if bytes_read == 0 {
        proof { reveal_strlit("DankCalendar socket closed before capabilities"); }
        return Err(string_of("DankCalendar socket closed before capabilities"));
    }
    Ok(())
}

/// Where to look for the DankCalendar socket.
#[derive(Clone, Copy, Debug, PartialEq, Eq, Structural)]
pub enum DiscoveryStep {
    /// The socket named by `DANKCAL_SOCKET`.
    ExplicitSocket,
    /// The Flatpak directory `app/com.danklinux.dankcalendar` in the runtime directory.
    FlatpakDir,
    /// The runtime directory (`XDG_RUNTIME_DIR`).
    RuntimeDir,
    /// The fallback directory (`/tmp`).
    FallbackDir,
}

/// The order in which the socket is looked for: the explicit socket, when one is
/// named; then, when there is a runtime directory, its Flatpak directory and the
/// runtime directory itself; then the fallback directory. The first that connects wins.
pub fn discovery_plan(has_explicit: bool, has_runtime_dir: bool) -> (r: Vec<DiscoveryStep>)
    ensures
        r@ == (if has_explicit { seq![DiscoveryStep::ExplicitSocket] } else { Seq::empty() }) + (
        if has_runtime_dir {
            seq![DiscoveryStep::FlatpakDir, DiscoveryStep::RuntimeDir]
        } else {
            Seq::empty()
        }) + seq![DiscoveryStep::FallbackDir],
{
    let mut plan: Vec<DiscoveryStep> = Vec::new();
    if has_explicit {
        plan.push(DiscoveryStep::ExplicitSocket);
    }
    if has_runtime_dir {
        plan.push(DiscoveryStep::FlatpakDir);
        plan.push(DiscoveryStep::RuntimeDir);
    }
    plan.push(DiscoveryStep::FallbackDir);
    assert(plan@ =~= (if has_explicit { seq![DiscoveryStep::ExplicitSocket] } else { Seq::empty() }) + (
        if has_runtime_dir {
            seq![DiscoveryStep::FlatpakDir, DiscoveryStep::RuntimeDir]
        } else {
            Seq::empty()
        }) + seq![DiscoveryStep::FallbackDir]);
    plan
}

/// ASCII decimal digits.
pub open spec fn is_ascii_digit(c: char) -> bool {
    '0' <= c && c <= '9'
}

/// A DankCalendar socket is named `dankcal-<id>.sock` with a non-empty decimal `<id>`.
pub open spec fn spec_is_socket_name(name: Seq<char>) -> bool {
    let prefix = "dankcal-"@;
    let suffix = ".sock"@;
    &&& seq_starts_with(name, prefix)
    &&& seq_ends_with(name.skip(prefix.len() as int), suffix)
    &&& name.len() > prefix.len() + suffix.len()
    &&& forall|i: int| prefix.len() <= i < name.len() - suffix.len() ==> is_ascii_digit(#[trigger] name[i])
}

/// The path names a DankCalendar socket: its final component is `dankcal-<id>.sock`.
pub open spec fn spec_is_socket_path(path: Seq<char>) -> bool {
    match file_name_of(path) {
        Some(name) => spec_is_socket_name(name),
        None => false,
    }
}

/// Whether `path` names a DankCalendar socket: its file name is `dankcal-<id>.sock`
/// with a non-empty `<id>` of ASCII digits.
pub fn is_dankcalendar_socket_name(path: &str) -> (r: bool)
    ensures
        r == spec_is_socket_path(path@),
{
    match file_name(path) {
        Some(name) => is_socket_file_name(name.as_str()),
        None => false,
    }
}

/// Whether the file name `name` is that of a DankCalendar socket (see
/// `spec_is_socket_name`).
fn is_socket_file_name(name: &str) -> (r: bool)
    ensures
        r == spec_is_socket_name(name@),
{
    proof {
        reveal_strlit("dankcal-");
        reveal_strlit(".sock");
    }
    let chars = chars_of(name);
    let prefix = chars_of("dankcal-");
    let suffix = chars_of(".sock");
    if !starts_with(&chars, &prefix) {
        return false;
    }
    let mut rest: Vec<char> = Vec::new();
    let mut i: usize = prefix.len();
    while i < chars.len()
        invariant
            prefix.len() <= i <= chars.len(),
            prefix@.len() == 8,
            rest@ == chars@.subrange(8, i as int),
        decreases chars.len() - i,
    {
        rest.push(chars[i]);
        i = i + 1;
        assert(rest@ =~= chars@.subrange(8, i as int));
    }
    assert(rest@ =~= chars@.skip(8));
    if !ends_with(&rest, &suffix) {
        return false;
    }
    if rest.len() <= suffix.len() {
        return false;
    }
    let mut j: usize = 0;
    while j < rest.len() - suffix.len()
        invariant
            rest@ == chars@.skip(8),
            chars@ == name@,
            chars@.len() == 8 + rest@.len(),
            suffix@.len() == 5,
            rest.len() > 5,
            j <= rest.len() - 5,
            forall|k: int| 8 <= k < 8 + j ==> is_ascii_digit(#[trigger] chars@[k]),
        decreases rest.len() - j,
    {
        let c = rest[j];
        assert(chars@[8 + j] == rest@[j as int]);
        if !('0' <= c && c <= '9') {
            proof {
                reveal_strlit("dankcal-");
                reveal_strlit(".sock");
            }
            assert(!is_ascii_digit(name@[8 + j]));
            return false;
        }
        j = j + 1;
    }
    true
}

/// Inserts the socket name `n` among names in string order, after every name that does
/// not come after it.
pub open spec fn insert_name(s: Seq<String>, n: String) -> Seq<String>
    decreases s.len(),
{
    if s.len() == 0 {
        seq![n]
    } else if chars_lt(n@, s.last()@) {
        insert_name(s.drop_last(), n).push(s.last())
    } else {
        s.push(n)
    }
}

/// The sockets of a directory that discovery tries, in the order it tries them: the
/// entries named like a DankCalendar socket that are sockets of the current user
/// (the flag of each entry), sorted by name.
pub open spec fn spec_socket_candidates(entries: Seq<(String, bool)>) -> Seq<String>
    decreases entries.len(),
{
    if entries.len() == 0 {
        Seq::empty()
    } else {
        let rest = spec_socket_candidates(entries.drop_last());
        let e = entries.last();
        if spec_is_socket_path(e.0@) && e.1 {
            insert_name(rest, e.0)
        } else {
            rest
        }
    }
}

/// No name comes before one listed earlier.
pub open spec fn names_in_order(s: Seq<String>) -> bool {
    forall|i: int, j: int| #![trigger s[i], s[j]] 0 <= i < j < s.len() ==> !chars_lt(s[j]@, s[i]@)
}

proof fn lemma_insert_name_at(s: Seq<String>, n: String, p: int)
    requires
        0 <= p <= s.len(),
        forall|j: int| p <= j < s.len() ==> chars_lt(n@, (#[trigger] s[j])@),
        p == 0 || !chars_lt(n@, s[p - 1]@),
    ensures
        insert_name(s, n) == s.take(p).push(n) + s.skip(p),
    decreases s.len(),
{
    if s.len() == 0 {
        assert(s.take(p).push(n) + s.skip(p) =~= seq![n]);
    } else if p == s.len() {
        assert(s.take(p).push(n) + s.skip(p) =~= s.push(n));
    } else {
        let t = s.drop_last();
        assert(p == 0 || t[p - 1] == s[p - 1]);
        assert forall|j: int| p <= j < t.len() implies chars_lt(n@, (#[trigger] t[j])@) by {
            assert(t[j] == s[j]);
        }
        lemma_insert_name_at(t, n, p);
        assert(s[s.len() - 1] == s.last());
        assert((t.take(p).push(n) + t.skip(p)).push(s.last()) =~= s.take(p).push(n) + s.skip(p));
    }
}

proof fn lemma_insert_name_multiset(s: Seq<String>, n: String)
    ensures
        insert_name(s, n).to_multiset() == s.to_multiset().insert(n),
    decreases s.len(),
{
    broadcast use vstd::seq_lib::group_to_multiset_ensures, vstd::multiset::group_multiset_axioms;

    if s.len() > 0 && chars_lt(n@, s.last()@) {
        let t = s.drop_last();
        lemma_insert_name_multiset(t, n);
        assert(t.push(s.last()) =~= s);
        assert(insert_name(s, n).to_multiset() =~= s.to_multiset().insert(n));
    }
}

proof fn lemma_insert_name_sorted(s: Seq<String>, n: String)
    requires
        names_in_order(s),
    ensures
        names_in_order(insert_name(s, n)),
    decreases s.len(),
{
    broadcast use vstd::seq_lib::group_to_multiset_ensures, vstd::multiset::group_multiset_axioms;

    if s.len() == 0 {
    } else if chars_lt(n@, s.last()@) {
        let t = s.drop_last();
        let l = s.last();
        assert(names_in_order(t)) by {
            assert forall|i: int, j: int| 0 <= i < j < t.len() implies !chars_lt(
                (#[trigger] t[j])@,
                (#[trigger] t[i])@,
            ) by {
                assert(t[i] == s[i] && t[j] == s[j]);
            }
        }
        lemma_insert_name_sorted(t, n);
        lemma_insert_name_multiset(t, n);
        let r = insert_name(t, n);
        assert(s[s.len() - 1] == l);
        assert forall|i: int, j: int| 0 <= i < j < r.push(l).len() implies !chars_lt(
            (#[trigger] r.push(l)[j])@,
            (#[trigger] r.push(l)[i])@,
        ) by {
            if j == r.len() {
                let x = r[i];
                assert(r.to_multiset().count(x) > 0);
                if x == n {
                    lemma_chars_lt_order(n@, l@, l@);
                } else {
                    assert(t.to_multiset().count(x) > 0);
                    assert(t.contains(x));
                    let k = choose|k: int| 0 <= k < t.len() && t[k] == x;
                    assert(s[k] == x);
                }
            } else {
                assert(r.push(l)[i] == r[i] && r.push(l)[j] == r[j]);
            }
        }
    } else {
        let l = s.last();
        assert(s[s.len() - 1] == l);
        assert forall|i: int, j: int| 0 <= i < j < s.push(n).len() implies !chars_lt(
            (#[trigger] s.push(n)[j])@,
            (#[trigger] s.push(n)[i])@,
        ) by {
            if j == s.len() {
                if i < s.len() - 1 {
                    assert(!chars_lt(s[s.len() - 1]@, s[i]@));
                    lemma_chars_lt_order(n@, l@, s[i]@);
                }
            } else {
                assert(s.push(n)[i] == s[i] && s.push(n)[j] == s[j]);
            }
        }
    }
}

/// The candidates are in string order, each a socket name of a current user's socket
/// among the entries, and every such entry is a candidate.
pub proof fn lemma_socket_candidates(entries: Seq<(String, bool)>)
    ensures
        names_in_order(spec_socket_candidates(entries)),
        forall|n: String| #[trigger] spec_socket_candidates(entries).contains(n) <==> exists|i: int|
            0 <= i < entries.len() && entries[i].0 == n && entries[i].1 && spec_is_socket_path(n@),
    decreases entries.len(),
{
    broadcast use vstd::seq_lib::group_to_multiset_ensures, vstd::multiset::group_multiset_axioms;

    if entries.len() > 0 {
        let t = entries.drop_last();
        lemma_socket_candidates(t);
        let rest = spec_socket_candidates(t);
        let e = entries.last();
        assert(entries[entries.len() - 1] == e);
        let r = spec_socket_candidates(entries);
        if spec_is_socket_path(e.0@) && e.1 {
            lemma_insert_name_sorted(rest, e.0);
            lemma_insert_name_multiset(rest, e.0);
            assert forall|n: String| #[trigger] r.contains(n) <==> exists|i: int|
                0 <= i < entries.len() && entries[i].0 == n && entries[i].1 && spec_is_socket_path(n@) by {
                if r.contains(n) {
                    assert(r.to_multiset().count(n) > 0);
                    if n != e.0 {
                        assert(rest.to_multiset().count(n) > 0);
                        assert(rest.contains(n));
                        let i = choose|i: int| 0 <= i < t.len() && t[i].0 == n && t[i].1 && spec_is_socket_path(n@);
                        assert(entries[i] == t[i]);
                    }
                }
                if exists|i: int| 0 <= i < entries.len() && entries[i].0 == n && entries[i].1 && spec_is_socket_path(n@) {
                    let i = choose|i: int| 0 <= i < entries.len() && entries[i].0 == n && entries[i].1 && spec_is_socket_path(n@);
                    if i < t.len() {
                        assert(t[i] == entries[i]);
                        assert(rest.contains(n));
                        assert(rest.to_multiset().count(n) > 0);
                    }
                    assert(r.to_multiset().count(n) > 0);
                }
            }
        } else {
            assert forall|n: String| #[trigger] r.contains(n) <==> exists|i: int|
                0 <= i < entries.len() && entries[i].0 == n && entries[i].1 && spec_is_socket_path(n@) by {
                if r.contains(n) {
                    let i = choose|i: int| 0 <= i < t.len() && t[i].0 == n && t[i].1 && spec_is_socket_path(n@);
                    assert(entries[i] == t[i]);
                }
                if exists|i: int| 0 <= i < entries.len() && entries[i].0 == n && entries[i].1 && spec_is_socket_path(n@) {
                    let i = choose|i: int| 0 <= i < entries.len() && entries[i].0 == n && entries[i].1 && spec_is_socket_path(n@);
                    assert(i < t.len());
                    assert(t[i] == entries[i]);
                }
            }
        }
    }
}

/// The sockets of a directory that discovery tries, in order (see
/// `spec_socket_candidates`). Each entry is a file name and whether it is a socket
/// owned by the current user.
pub fn socket_candidates(entries: Vec<(String, bool)>) -> (r: Vec<String>)
    ensures
        r@ == spec_socket_candidates(entries@),
{
    let ghost all = entries@;
    assert(all.len() == entries.len());
    let mut rest = entries;
    let mut names: Vec<String> = Vec::new();
    let mut k: usize = 0;
    assert(all.skip(0) =~= all);
    while rest.len() > 0
        invariant
            all.len() <= usize::MAX,
            k + rest@.len() == all.len(),
            rest@ == all.skip(k as int),
            names@ == spec_socket_candidates(all.take(k as int)),
        decreases rest.len(),
    {
        let ghost before = all.take(k as int);
        assert(all.take(k + 1).drop_last() =~= before);
        assert(all.take(k + 1).last() == all[k as int]);
        let (name, own) = rest.remove(0);
        assert(all[k as int] == (name, own));
        if own && is_dankcalendar_socket_name(name.as_str()) {
            let mut p = names.len();
            loop
                invariant
                    p <= names.len(),
                    names@ == spec_socket_candidates(before),
                    forall|j: int| p <= j < names.len() ==> chars_lt(name@, (#[trigger] names@[j])@),
                ensures
                    p <= names.len(),
                    names@ == spec_socket_candidates(before),
                    forall|j: int| p <= j < names.len() ==> chars_lt(name@, (#[trigger] names@[j])@),
                    p == 0 || !chars_lt(name@, names@[p - 1]@),
                decreases p,
            {
                if p == 0 {
                    break;
                }
                if !str_lt(name.as_str(), names[p - 1].as_str()) {
                    break;
                }
                p = p - 1;
            }
            proof { lemma_insert_name_at(names@, name, p as int); }
            names.insert(p, name);
            assert(names@ =~= spec_socket_candidates(before).take(p as int).push(all[k as int].0)
                + spec_socket_candidates(before).skip(p as int));
        }
        k = k + 1;
        assert(rest@ =~= all.skip(k as int));
    }
    assert(all.take(k as int) =~= all);
    names
}

} // verus!
