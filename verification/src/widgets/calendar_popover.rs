//! Decisions of the clock's calendar popover: month navigation, the visible day grid,
//! event marks and dots, and the event list.

use std::sync::Arc;

use vstd::prelude::*;
use vstd::std_specs::iter::IteratorSpec;

use crate::date::{
    add_days, date_le, date_lt, is_valid_ymd, lemma_add_days_add, lemma_add_days_order,
    lemma_add_days_between, lemma_add_days_succ, lemma_add_days_valid, lemma_next_prev,
    month_length, next_day, prev_day, year_in_range, Date, MAX_YEAR, MIN_YEAR,
};

use crate::services::calendar::{
    month_start, spec_final_day, spec_month_start, spec_next_month_start, CalendarEvent,
    CalendarSnapshot, DateKey, GTK_CALENDAR_GRID_PADDING_DAYS,
};
use crate::text::{digit_char, push_str, push_two_digits, string_of, two_digits};
use crate::time::instant_lt;

verus! {

broadcast use vstd::std_specs::btree::group_btree_axioms, vstd::laws_cmp::group_laws_cmp;

/// Month `delta` months after the month of `(y, m)`, as a month count `12 * year + month0`.
pub open spec fn shifted_month_count(y: int, m: int, delta: int) -> int {
    y * 12 + (m - 1) + delta
}

/// `date` moved by `delta` months, keeping its day when the target month has it and
/// otherwise taking the target month's last day; the date itself when the target month
/// is out of range.
pub open spec fn spec_add_months(date: Date, delta: int) -> Date {
    let t = shifted_month_count(date.year as int, date.month as int, delta);
    let y = t / 12;
    let m = t % 12 + 1;
    if year_in_range(y) {
        let d = if date.day <= month_length(y, m) { date.day as int } else { month_length(y, m) };
        Date { year: y as i32, month: m as u32, day: d as u32 }
    } else {
        date
    }
}

/// Moves `date` by `delta` months, clamping the day to the target month (January 31 plus
/// one month is February 28 or 29). Returns `date` unchanged when the target month is
/// out of range.
pub fn add_months(date: Date, delta: i32) -> (r: Date)
    requires
        date.wf(),
        i32::MIN <= shifted_month_count(date.year as int, date.month as int, delta as int) <= i32::MAX,
    ensures
        r == spec_add_months(date, delta as int),
        r.wf(),
{
    let total: i32 = date.year * 12 + (date.month - 1) as i32 + delta;
    let shifted: u64 = (total as i64 + 12 * 200_000_000) as u64;
    let year_shifted: u64 = shifted / 12;
    let month0: u64 = shifted % 12;
    proof {
        let t = total as int;
        vstd::arithmetic::div_mod::lemma_fundamental_div_mod(t, 12);
        vstd::arithmetic::div_mod::lemma_div_multiples_vanish_fancy(t / 12 + 200_000_000, t % 12, 12);
        vstd::arithmetic::div_mod::lemma_mod_multiples_vanish(200_000_000, t, 12);
        assert(shifted as int == 12 * (t / 12 + 200_000_000) + t % 12);
        assert(year_shifted as int == t / 12 + 200_000_000);
        assert(month0 as int == t % 12);
    }
    let year: i64 = year_shifted as i64 - 200_000_000;
    if year < MIN_YEAR as i64 || year > MAX_YEAR as i64 {
        return date;
    }
    let year = year as i32;
    let month = month0 as u32 + 1;
    let mut day = date.day;
    while day >= 1
        invariant
            1 <= month <= 12,
            year_in_range(year as int),
            year as int == shifted_month_count(date.year as int, date.month as int, delta as int) / 12,
            month as int == shifted_month_count(date.year as int, date.month as int, delta as int) % 12 + 1,
            date.wf(),
            day <= date.day,
            day == date.day || day as int >= month_length(year as int, month as int),
        decreases day,
    {
        match Date::from_ymd_opt(year, month, day) {
            Some(r) => {
                return r;
            },
            None => {},
        }
        day = day - 1;
    }
    date
}


/// Moving by no month keeps the date.
pub proof fn lemma_add_months_zero(date: Date)
    requires
        date.wf(),
    ensures
        spec_add_months(date, 0) == date,
{
    let t = shifted_month_count(date.year as int, date.month as int, 0);
    vstd::arithmetic::div_mod::lemma_fundamental_div_mod_converse(t, 12, date.year as int, date.month - 1);
}

/// Moving by `delta` months and back returns to the month of `date`; when the month
/// reached has the day of `date`, the day is kept both ways and `date` itself comes
/// back.
pub proof fn lemma_add_months_round_trip(date: Date, delta: int)
    requires
        date.wf(),
        year_in_range(shifted_month_count(date.year as int, date.month as int, delta) / 12),
    ensures
        spec_add_months(spec_add_months(date, delta), -delta).year == date.year,
        spec_add_months(spec_add_months(date, delta), -delta).month == date.month,
        spec_add_months(date, delta).day == date.day ==> spec_add_months(
            spec_add_months(date, delta),
            -delta,
        ) == date,
{
    let t = shifted_month_count(date.year as int, date.month as int, delta);
    let y = t / 12;
    let m = t % 12 + 1;
    vstd::arithmetic::div_mod::lemma_fundamental_div_mod(t, 12);
    let there = spec_add_months(date, delta);
    assert(there.year == y && there.month == m);
    let back = shifted_month_count(there.year as int, there.month as int, -delta);
    assert(back == date.year * 12 + (date.month - 1));
    vstd::arithmetic::div_mod::lemma_fundamental_div_mod_converse(back, 12, date.year as int, date.month - 1);
}

/// Number of day cells in GtkCalendar's grid.
pub const GTK_CALENDAR_DAY_COUNT: usize = 42;

/// The first day of the month of `date`.
pub open spec fn first_of_month(date: Date) -> Date {
    Date { year: date.year, month: date.month, day: 1 }
}

/// The length of the shown month as the grid computes it: the day before the first of
/// the next month (in the last representable month that is the day before the first of
/// the month itself, the next month not existing).
pub open spec fn grid_month_days(visible_month: Date) -> int {
    prev_day(spec_add_months(first_of_month(visible_month), 1)@).2
}

/// The grid's cells show consecutive days: `leading_days` days of the previous month,
/// the month of `visible_month`, and `trailing_days` days of the next month.
pub open spec fn grid_structure_ok(
    visible_month: Date,
    leading_days: usize,
    trailing_days: usize,
    day_count: usize,
) -> bool {
    &&& day_count == GTK_CALENDAR_DAY_COUNT
    &&& leading_days <= 7
    &&& leading_days + grid_month_days(visible_month) + trailing_days == day_count
}

/// The dates of the grid cells, from the first cell, when the calendar's grid has the
/// expected structure and all its days are representable; `None` otherwise, so that no
/// dot lands on a wrong date. Cell `i` shows the day `i - leading_days` days after the
/// first of the month.
pub fn visible_grid_dates(
    visible_month: Date,
    leading_days: usize,
    trailing_days: usize,
    day_count: usize,
) -> (r: Option<Vec<Date>>)
    requires
        visible_month.wf(),
        (day_count == GTK_CALENDAR_DAY_COUNT && leading_days <= 7) ==> leading_days + grid_month_days(
            visible_month,
        ) + trailing_days <= usize::MAX,
    ensures
        r is Some <==> {
            &&& grid_structure_ok(visible_month, leading_days, trailing_days, day_count)
            &&& year_in_range(add_days(first_of_month(visible_month)@, -(leading_days as int)).0)
            &&& year_in_range(add_days(first_of_month(visible_month)@, 41 - leading_days).0)
        },
        r matches Some(v) ==> {
            &&& v@.len() == GTK_CALENDAR_DAY_COUNT
            &&& forall|i: int| 0 <= i < v@.len() ==> (#[trigger] v@[i])@ == add_days(
                first_of_month(visible_month)@,
                i - leading_days,
            )
        },
{
    if day_count != GTK_CALENDAR_DAY_COUNT || leading_days > 7 {
        return None;
    }
    let month_start = match Date::from_ymd_opt(visible_month.year, visible_month.month, 1) {
        Some(d) => d,
        None => return None,
    };
    let next_month = add_months(month_start, 1);
    proof { lemma_next_prev(next_month@); }
    let days_in_month = match next_month.pred_opt() {
        Some(d) => d.day as usize,
        None => {
            proof {
                crate::date::lemma_month_length_bounds(month_start.year as int, month_start.month as int);
            }
            return None;
        },
    };
    if leading_days + days_in_month + trailing_days != day_count {
        return None;
    }
    let first_date = match month_start.checked_add_days(-(leading_days as i32)) {
        Some(d) => d,
        None => return None,
    };
    let ghost ms = month_start@;
    proof {
        lemma_add_days_valid(ms, -(leading_days as int));
    }
    let mut dates: Vec<Date> = Vec::new();
    let mut offset: usize = 0;
    while offset < day_count
        invariant
            day_count == 42,
            leading_days <= 7,
            offset <= day_count,
            is_valid_ymd(ms),
            first_date@ == add_days(ms, -(leading_days as int)),
            first_date.wf(),
            year_in_range(add_days(ms, -(leading_days as int)).0),
            dates@.len() == offset,
            forall|i: int| 0 <= i < offset ==> (#[trigger] dates@[i])@ == add_days(ms, i - leading_days),
            offset > 0 ==> year_in_range(add_days(ms, offset - 1 - leading_days).0),
            grid_structure_ok(visible_month, leading_days, trailing_days, day_count),
            ms == first_of_month(visible_month)@,
        decreases day_count - offset,
    {
        proof { lemma_add_days_add(ms, -(leading_days as int), offset as int); }
        match first_date.checked_add_days(offset as i32) {
            Some(d) => {
                dates.push(d);
            },
            None => {
                proof {
                    if year_in_range(add_days(ms, 41 - leading_days).0) {
                        lemma_add_days_between(ms, -(leading_days as int), offset - leading_days, 41 - leading_days);
                    }
                }
                return None;
            },
        }
        offset = offset + 1;
    }
    proof {
        assert(year_in_range(add_days(ms, 41 - leading_days).0));
    }
    Some(dates)
}

/// The grid's dates run day after day, and the cell after the leading days shows the
/// first of the month.
pub proof fn lemma_grid_dates_contiguous(visible_month: Date, leading_days: usize, v: Seq<Date>)
    requires
        visible_month.wf(),
        leading_days <= 7,
        v.len() == GTK_CALENDAR_DAY_COUNT,
        forall|i: int| 0 <= i < v.len() ==> (#[trigger] v[i])@ == add_days(
            first_of_month(visible_month)@,
            i - leading_days,
        ),
    ensures
        v[leading_days as int]@ == first_of_month(visible_month)@,
        forall|i: int| 0 <= i < v.len() - 1 ==> (#[trigger] v[i + 1])@ == next_day(v[i]@),
{
    assert(v[leading_days as int]@ == add_days(first_of_month(visible_month)@, 0));
    assert forall|i: int| 0 <= i < v.len() - 1 implies (#[trigger] v[i + 1])@ == next_day(v[i]@) by {
        lemma_add_days_succ(first_of_month(visible_month)@, i - leading_days);
        assert(v[i]@ == add_days(first_of_month(visible_month)@, i - leading_days));
    }
}


/// The events fetched for a month cover every day its calendar grid shows: each cell's
/// date (see `visible_grid_dates`) lies in the fetch window of `event_fetch_window`,
/// from `GTK_CALENDAR_GRID_PADDING_DAYS` days before the month starts until that many
/// days after the next month starts, exclusive.
pub proof fn lemma_fetch_window_covers_grid(visible_month: Date, leading_days: int, i: int)
    requires
        visible_month.wf(),
        0 <= leading_days <= 7,
        0 <= i < GTK_CALENDAR_DAY_COUNT,
    ensures
        date_le(
            add_days(spec_month_start(visible_month)@, -GTK_CALENDAR_GRID_PADDING_DAYS),
            add_days(first_of_month(visible_month)@, i - leading_days),
        ),
        date_lt(
            add_days(first_of_month(visible_month)@, i - leading_days),
            add_days(spec_next_month_start(visible_month)@, GTK_CALENDAR_GRID_PADDING_DAYS as int),
        ),
{
    let ms = first_of_month(visible_month)@;
    let x = i - leading_days;
    let len = month_length(ms.0, ms.1);
    crate::date::lemma_month_length_bounds(ms.0, ms.1);
    lemma_add_days_valid(ms, -14);
    lemma_add_days_add(ms, -14, x + 14);
    lemma_add_days_order(add_days(ms, -14), x + 14);
    crate::date::lemma_add_days_within_month(ms, len - 1);
    lemma_add_days_succ(ms, len - 1);
    assert(add_days(ms, len) == spec_next_month_start(visible_month)@);
    lemma_add_days_add(ms, len, 14);
    lemma_add_days_valid(ms, x);
    lemma_add_days_add(ms, x, len + 14 - x);
    lemma_add_days_order(add_days(ms, x), len + 14 - x);
}

/// The time part of an event's detail line on the selected `date`.
pub open spec fn detail_time(e: CalendarEvent, date: Date) -> Seq<char> {
    if e.all_day {
        "All day"@
    } else if date == e.start.date {
        two_digits(e.start.hour as int) + ":"@ + two_digits(e.start.minute as int)
    } else if date != spec_final_day(e) {
        "Ongoing"@
    } else if e.end.spec_is_midnight() {
        "Until midnight"@
    } else {
        "Until "@ + two_digits(e.end.hour as int) + ":"@ + two_digits(e.end.minute as int)
    }
}

/// An event's detail line on the selected `date`: the time part, then the calendar name
/// and the location where present, separated by " · ".
pub open spec fn spec_event_detail_text(e: CalendarEvent, date: Date) -> Seq<char> {
    let time = detail_time(e, date);
    let sep = " \u{b7} "@;
    if e.calendar_name@.len() > 0 && e.location@.len() > 0 {
        time + sep + e.calendar_name@ + sep + e.location@
    } else if e.calendar_name@.len() > 0 {
        time + sep + e.calendar_name@
    } else if e.location@.len() > 0 {
        time + sep + e.location@
    } else {
        time
    }
}

/// The detail line begins with its time part.
proof fn lemma_detail_begins_with_time(e: CalendarEvent, date: Date)
    ensures
        spec_event_detail_text(e, date).len() >= detail_time(e, date).len(),
        spec_event_detail_text(e, date).take(detail_time(e, date).len() as int) == detail_time(e, date),
{
    let time = detail_time(e, date);
    let text = spec_event_detail_text(e, date);
    assert(text.take(time.len() as int) =~= time);
}

/// After its time part, the detail line holds " · " and the calendar name when the event
/// has one, then " · " and the location when it has one, and nothing else.
pub proof fn lemma_detail_after_time(e: CalendarEvent, date: Date)
    ensures
        spec_event_detail_text(e, date).len() >= detail_time(e, date).len(),
        spec_event_detail_text(e, date).skip(detail_time(e, date).len() as int)
            == (if e.calendar_name@.len() > 0 { " \u{b7} "@ + e.calendar_name@ } else { Seq::<char>::empty() })
            + (if e.location@.len() > 0 { " \u{b7} "@ + e.location@ } else { Seq::<char>::empty() }),
{
    let time = detail_time(e, date);
    let text = spec_event_detail_text(e, date);
    let sep = " \u{b7} "@;
    let c = if e.calendar_name@.len() > 0 { sep + e.calendar_name@ } else { Seq::<char>::empty() };
    let l = if e.location@.len() > 0 { sep + e.location@ } else { Seq::<char>::empty() };
    assert(text =~= time + (c + l));
    assert(text.skip(time.len() as int) =~= c + l);
}

/// What the detail line of a timed event begins with. On its start day: the local
/// 24-hour start time as `HH:MM`. On a later day before its final day (the local day
/// one nanosecond before its exclusive end): "Ongoing". On its final day, when that is
/// not its start day: "Until midnight" when it ends exactly at local midnight, otherwise
/// "Until HH:MM" with the local end time. An all-day event's line begins with "All day".
pub proof fn lemma_detail_time_shown(e: CalendarEvent, date: Date)
    requires
        e.start.wf(),
        e.end.wf(),
    ensures
        !e.all_day && date == e.start.date ==> {
            let text = spec_event_detail_text(e, date);
            &&& text.len() >= 5
            &&& text.take(5) == seq![
                digit_char((e.start.hour / 10) as int),
                digit_char((e.start.hour % 10) as int),
                ':',
                digit_char((e.start.minute / 10) as int),
                digit_char((e.start.minute % 10) as int),
            ]
        },
        !e.all_day && date != e.start.date && instant_lt(e.start, e.end) && date != e.end.date_before
            ==> spec_event_detail_text(e, date).take(7) == "Ongoing"@,
        !e.all_day && date != e.start.date && !instant_lt(e.start, e.end)
            ==> spec_event_detail_text(e, date).take(7) == "Ongoing"@,
        !e.all_day && date != e.start.date && instant_lt(e.start, e.end) && date == e.end.date_before
            && e.end.hour == 0 && e.end.minute == 0 && e.end.second == 0 && e.end.nanos == 0
            ==> spec_event_detail_text(e, date).take(14) == "Until midnight"@,
        !e.all_day && date != e.start.date && instant_lt(e.start, e.end) && date == e.end.date_before
            && !(e.end.hour == 0 && e.end.minute == 0 && e.end.second == 0 && e.end.nanos == 0) ==> {
            let text = spec_event_detail_text(e, date);
            &&& text.len() >= 11
            &&& text.take(11) == "Until "@ + seq![
                digit_char((e.end.hour / 10) as int),
                digit_char((e.end.hour % 10) as int),
                ':',
                digit_char((e.end.minute / 10) as int),
                digit_char((e.end.minute % 10) as int),
            ]
        },
        e.all_day ==> spec_event_detail_text(e, date).take(7) == "All day"@,
{
    reveal_strlit(":");
    reveal_strlit("All day");
    reveal_strlit("Ongoing");
    reveal_strlit("Until midnight");
    reveal_strlit("Until ");
    lemma_detail_begins_with_time(e, date);
    let time = detail_time(e, date);
    if !e.all_day && date == e.start.date {
        assert(time =~= seq![
            digit_char((e.start.hour / 10) as int),
            digit_char((e.start.hour % 10) as int),
            ':',
            digit_char((e.start.minute / 10) as int),
            digit_char((e.start.minute % 10) as int),
        ]);
    }
    if !e.all_day && date != e.start.date && instant_lt(e.start, e.end) && date == e.end.date_before
        && !e.end.spec_is_midnight() {
        assert(time =~= "Until "@ + seq![
            digit_char((e.end.hour / 10) as int),
            digit_char((e.end.hour % 10) as int),
            ':',
            digit_char((e.end.minute / 10) as int),
            digit_char((e.end.minute % 10) as int),
        ]);
    }
}

/// Appends `HH:MM`.
fn push_clock(s: &mut String, hour: u32, minute: u32)
    requires
        hour < 100,
        minute < 100,
    ensures
        final(s)@ == old(s)@ + two_digits(hour as int) + ":"@ + two_digits(minute as int),
{
    push_two_digits(s, hour);
    proof { reveal_strlit(":"); }
    push_str(s, ":");
    push_two_digits(s, minute);
}

/// The detail line of `event` in the list for `date`: "All day" for all-day events;
/// for timed events its start time on its first day, "Ongoing" on days in between, and
/// on its final day "Until midnight" or "Until HH:MM"; then the calendar name and the
/// location, where present.
pub fn event_detail_text(event: &CalendarEvent, date: Date) -> (r: String)
    requires
        event.start.wf(),
        event.end.wf(),
    ensures
        r@ == spec_event_detail_text(*event, date),
{
    proof {
        reveal_strlit("All day");
        reveal_strlit("Ongoing");
        reveal_strlit("Until midnight");
        reveal_strlit("Until ");
        reveal_strlit(" \u{b7} ");
    }
    let mut text = if event.all_day {
        string_of("All day")
    } else if date == event.start.date {
        let mut t = String::new();
        push_clock(&mut t, event.start.hour, event.start.minute);
        t
    } else if date != event.final_day() {
        string_of("Ongoing")
    } else if event.end.is_midnight() {
        string_of("Until midnight")
    } else {
        let mut t = string_of("Until ");
        push_clock(&mut t, event.end.hour, event.end.minute);
        t
    };
    assert(text@ == detail_time(*event, date));
    let has_calendar = !event.calendar_name.as_str().is_empty();
    let has_location = !event.location.as_str().is_empty();
    if has_calendar {
        push_str(&mut text, " \u{b7} ");
        push_str(&mut text, event.calendar_name.as_str());
    }
    if has_location {
        push_str(&mut text, " \u{b7} ");
        push_str(&mut text, event.location.as_str());
    }
    text
}


/// The days of the shown month to mark as having events: none when the snapshot has an
/// error, otherwise every day of that month with a bucket, each once.
pub fn marked_days(visible_month: Date, snapshot: &CalendarSnapshot) -> (r: Vec<u32>)
    ensures
        snapshot.error is Some ==> r@.len() == 0,
        snapshot.error is None ==> forall|d: u32|
            r@.contains(d) <==> #[trigger] snapshot.events_by_date@.contains_key(
                (visible_month.year, visible_month.month, d),
            ),
        r@.no_duplicates(),
{
    let mut days: Vec<u32> = Vec::new();
    if snapshot.error.is_some() {
        return days;
    }
    let ghost keys = snapshot.events_by_date.keys().remaining().unref();
    for key in it: snapshot.events_by_date.keys()
        invariant
            it.seq().unref() == keys,
            keys.to_set() == snapshot.events_by_date@.dom(),
            keys.no_duplicates(),
            forall|d: u32| days@.contains(d) <==> exists|i: int| 0 <= i < it.index() && #[trigger] keys[i] == (
                visible_month.year,
                visible_month.month,
                d,
            ),
            days@.no_duplicates(),
    {
        let ghost idx = it.index();
        let ghost old_days = days@;
        let k: DateKey = *key;
        assert(k == keys[idx as int]);
        let pushed = k.0 == visible_month.year && k.1 == visible_month.month;
        if pushed {
            assert(!days@.contains(k.2)) by {
                if days@.contains(k.2) {
                    let i = choose|i: int| 0 <= i < idx && keys[i] == (visible_month.year, visible_month.month, k.2);
                    assert(keys[i] == keys[idx as int]);
                }
            }
            days.push(k.2);
        }
        assert forall|d: u32| days@.contains(d) <==> exists|i: int| 0 <= i < idx + 1 && #[trigger] keys[i] == (
            visible_month.year,
            visible_month.month,
            d,
        ) by {
            if days@.contains(d) {
                if old_days.contains(d) {
                    let i = choose|i: int| 0 <= i < idx && #[trigger] keys[i] == (visible_month.year, visible_month.month, d);
                    assert(0 <= i < idx + 1);
                } else {
                    let j = choose|j: int| 0 <= j < days@.len() && days@[j] == d;
                    assert(pushed && j == old_days.len());
                    assert(keys[idx as int] == (visible_month.year, visible_month.month, d));
                }
            }
            if exists|i: int| 0 <= i < idx + 1 && #[trigger] keys[i] == (visible_month.year, visible_month.month, d) {
                let i = choose|i: int| 0 <= i < idx + 1 && #[trigger] keys[i] == (visible_month.year, visible_month.month, d);
                if i < idx {
                    assert(old_days.contains(d));
                    let j = choose|j: int| 0 <= j < old_days.len() && old_days[j] == d;
                    assert(days@[j] == d);
                } else {
                    assert(days@[days@.len() - 1] == d);
                }
            }
        }
    }
    assert forall|d: u32| days@.contains(d) <==> #[trigger] snapshot.events_by_date@.contains_key(
        (visible_month.year, visible_month.month, d),
    ) by {
        let k = (visible_month.year, visible_month.month, d);
        if snapshot.events_by_date@.contains_key(k) {
            assert(keys.to_set().contains(k));
        }
    }
    days
}


/// What the event list shows for the selected day.
#[derive(Debug)]
pub enum EventListContent<'a> {
    /// A line of text instead of events.
    Message(String),
    /// The day's events, in order.
    Events(&'a Vec<Arc<CalendarEvent>>),
}

/// What the event list shows for `date`: the snapshot's error when it has one; else the
/// day's events when there are any; else "Loading events..." while loading and
/// "No events" otherwise.
pub fn event_list_content<'a>(snapshot: &'a CalendarSnapshot, date: Date) -> (r: EventListContent<'a>)
    ensures
        match snapshot.error {
            Some(e) => r matches EventListContent::Message(m) && m@ == e@,
            None => {
                let key = (date.year, date.month, date.day);
                if snapshot.events_by_date@.contains_key(key) && snapshot.events_by_date@[key].len() > 0 {
                    r matches EventListContent::Events(v) && *v == snapshot.events_by_date@[key]
                } else if snapshot.loading {
                    r matches EventListContent::Message(m) && m@ == "Loading events..."@
                } else {
                    r matches EventListContent::Message(m) && m@ == "No events"@
                }
            },
        },
{
    match &snapshot.error {
        Some(e) => {
            return EventListContent::Message(e.clone());
        },
        None => {},
    }
    let key = (date.year, date.month, date.day);
    match snapshot.events_by_date.get(&key) {
        Some(events) => {
            if events.len() > 0 {
                return EventListContent::Events(events);
            }
        },
        None => {},
    }
    proof {
        reveal_strlit("Loading events...");
        reveal_strlit("No events");
    }
    if snapshot.loading {
        EventListContent::Message(string_of("Loading events..."))
    } else {
        EventListContent::Message(string_of("No events"))
    }
}

/// At most this many dots are drawn under a day.
pub const MAX_EVENT_DOTS: usize = 3;

/// The dot colors of a day from its events' parsed colors, in event order: events
/// without a parsable color are skipped, each color appears once, and at most
/// `MAX_EVENT_DOTS` colors are kept.
pub open spec fn spec_dot_colors(parsed: Seq<Option<u128>>) -> Seq<u128>
    decreases parsed.len(),
{
    if parsed.len() == 0 {
        Seq::empty()
    } else {
        let before = spec_dot_colors(parsed.drop_last());
        if before.len() >= MAX_EVENT_DOTS {
            before
        } else {
            match parsed.last() {
                None => before,
                Some(c) => if before.contains(c) { before } else { before.push(c) },
            }
        }
    }
}

/// Never more than `MAX_EVENT_DOTS` dot colors.
pub proof fn lemma_dot_colors_bounded(parsed: Seq<Option<u128>>)
    ensures
        spec_dot_colors(parsed).len() <= MAX_EVENT_DOTS,
    decreases parsed.len(),
{
    if parsed.len() > 0 {
        lemma_dot_colors_bounded(parsed.drop_last());
    }
}

/// Each dot color appears once, and is the parsed color of one of the day's events.
pub proof fn lemma_dot_colors_distinct(parsed: Seq<Option<u128>>)
    ensures
        spec_dot_colors(parsed).no_duplicates(),
        forall|c: u128| #[trigger] spec_dot_colors(parsed).contains(c) ==> parsed.contains(Some(c)),
    decreases parsed.len(),
{
    if parsed.len() > 0 {
        let t = parsed.drop_last();
        lemma_dot_colors_distinct(t);
        let before = spec_dot_colors(t);
        assert forall|x: Option<u128>| t.contains(x) implies parsed.contains(x) by {
            let k = choose|k: int| 0 <= k < t.len() && t[k] == x;
            assert(parsed[k] == x);
        }
        assert(parsed[parsed.len() - 1] == parsed.last());
        assert forall|c: u128| #[trigger] spec_dot_colors(parsed).contains(c) implies parsed.contains(Some(c)) by {
            if !before.contains(c) {
                let k = choose|k: int| 0 <= k < spec_dot_colors(parsed).len() && spec_dot_colors(parsed)[k] == c;
                assert(k == before.len());
            }
        }
    }
}

/// Once a day has `MAX_EVENT_DOTS` dot colors, later events change nothing.
proof fn lemma_dot_colors_full(parsed: Seq<Option<u128>>, n: int)
    requires
        0 <= n <= parsed.len(),
        spec_dot_colors(parsed.take(n)).len() >= MAX_EVENT_DOTS,
    ensures
        spec_dot_colors(parsed) == spec_dot_colors(parsed.take(n)),
    decreases parsed.len() - n,
{
    if n < parsed.len() {
        assert(parsed.take(n + 1).drop_last() =~= parsed.take(n));
        lemma_dot_colors_full(parsed, n + 1);
    } else {
        assert(parsed.take(n) =~= parsed);
    }
}

/// The dot colors of a day (see `spec_dot_colors`). Colors are given as keys that are
/// equal exactly when the colors are.
pub fn dot_colors(parsed: &Vec<Option<u128>>) -> (r: Vec<u128>)
    ensures
        r@ == spec_dot_colors(parsed@),
{
    let mut colors: Vec<u128> = Vec::new();
    let mut i: usize = 0;
    while i < parsed.len()
        invariant
            i <= parsed.len(),
            colors@ == spec_dot_colors(parsed@.take(i as int)),
            colors@.len() < MAX_EVENT_DOTS,
        decreases parsed.len() - i,
    {
        assert(parsed@.take(i + 1).drop_last() =~= parsed@.take(i as int));
        match parsed[i] {
            None => {},
            Some(c) => {
                let mut seen = false;
                let mut j: usize = 0;
                while j < colors.len()
                    invariant
                        j <= colors.len(),
                        seen == exists|k: int| 0 <= k < j && colors@[k] == c,
                    decreases colors.len() - j,
                {
                    if colors[j] == c {
                        seen = true;
                    }
                    j = j + 1;
                }
                if !seen {
                    colors.push(c);
                }
            },
        }
        i = i + 1;
        if colors.len() == MAX_EVENT_DOTS {
            proof { lemma_dot_colors_full(parsed@, i as int); }
            return colors;
        }
    }
    assert(parsed@.take(parsed.len() as int) =~= parsed@);
    colors
}

/// The dots of each day with events: none at all when the snapshot shows an error;
/// otherwise one entry per day, in the order given, with `dot_colors` of the day's
/// parsed event colors (empty when no event has a color).
pub fn dots_by_day(has_error: bool, days: &Vec<(DateKey, Vec<Option<u128>>)>) -> (r: Vec<(DateKey, Vec<u128>)>)
    ensures
        has_error ==> r@.len() == 0,
        !has_error ==> r@.len() == days@.len(),
        !has_error ==> forall|i: int| 0 <= i < r@.len() ==> (#[trigger] r@[i]).0 == days@[i].0
            && r@[i].1@ == spec_dot_colors(days@[i].1@),
{
    let mut out: Vec<(DateKey, Vec<u128>)> = Vec::new();
    if has_error {
        return out;
    }
    let mut i: usize = 0;
    while i < days.len()
        invariant
            i <= days.len(),
            out@.len() == i,
            forall|k: int| 0 <= k < i ==> (#[trigger] out@[k]).0 == days@[k].0 && out@[k].1@
                == spec_dot_colors(days@[k].1@),
        decreases days.len() - i,
    {
        out.push((days[i].0, dot_colors(&days[i].1)));
        i = i + 1;
    }
    out
}

/// Number of leading cells marked as belonging to another month.
pub fn leading_count(flags: &Vec<bool>) -> (r: usize)
    ensures
        r <= flags.len(),
        forall|i: int| 0 <= i < r ==> flags@[i],
        r < flags.len() ==> !flags@[r as int],
{
    let mut n: usize = 0;
    while n < flags.len() && flags[n]
        invariant
            n <= flags.len(),
            forall|i: int| 0 <= i < n ==> flags@[i],
        decreases flags.len() - n,
    {
        n = n + 1;
    }
    n
}

/// Number of trailing cells marked as belonging to another month.
pub fn trailing_count(flags: &Vec<bool>) -> (r: usize)
    ensures
        r <= flags.len(),
        forall|i: int| flags.len() - r <= i < flags.len() ==> flags@[i],
        r < flags.len() ==> !flags@[flags.len() - 1 - r],
{
    let mut n: usize = 0;
    while n < flags.len() && flags[flags.len() - 1 - n]
        invariant
            n <= flags.len(),
            forall|i: int| flags.len() - n <= i < flags.len() ==> flags@[i],
        decreases flags.len() - n,
    {
        n = n + 1;
    }
    n
}

/// The date GtkCalendar has selected, from its year, zero-based month and day; `None`
/// when they do not form a date.
pub fn calendar_selected_date(year: i32, month0: i32, day: i32) -> (r: Option<Date>)
    requires
        month0 < i32::MAX,
    ensures
        r == (if 0 <= month0 && 0 <= day && is_valid_ymd((year as int, month0 + 1, day as int))
            && year_in_range(year as int) {
            Some(Date { year, month: (month0 + 1) as u32, day: day as u32 })
        } else {
            None
        }),
{
    if month0 < 0 || day < 0 {
        return None;
    }
    Date::from_ymd_opt(year, (month0 + 1) as u32, day as u32)
}


/// English name of month `m` (1-based).
pub open spec fn month_name(m: int) -> Seq<char> {
    if m == 1 { "January"@ } else if m == 2 { "February"@ } else if m == 3 { "March"@ }
    else if m == 4 { "April"@ } else if m == 5 { "May"@ } else if m == 6 { "June"@ }
    else if m == 7 { "July"@ } else if m == 8 { "August"@ } else if m == 9 { "September"@ }
    else if m == 10 { "October"@ } else if m == 11 { "November"@ } else { "December"@ }
}

/// English name of weekday `w`, counted from Monday (0) to Sunday (6).
pub open spec fn weekday_name(w: int) -> Seq<char> {
    if w == 0 { "Monday"@ } else if w == 1 { "Tuesday"@ } else if w == 2 { "Wednesday"@ }
    else if w == 3 { "Thursday"@ } else if w == 4 { "Friday"@ } else if w == 5 { "Saturday"@ }
    else { "Sunday"@ }
}

/// Days from 1970-01-01 to the civil date `d` of the proleptic Gregorian calendar.
pub open spec fn days_from_civil(d: (int, int, int)) -> int {
    let y = if d.1 <= 2 { d.0 - 1 } else { d.0 };
    let era = y / 400;
    let yoe = y - era * 400;
    let mp = (d.1 + 9) % 12;
    let doy = (153 * mp + 2) / 5 + d.2 - 1;
    let doe = yoe * 365 + yoe / 4 - yoe / 100 + doy;
    era * 146097 + doe - 719468
}

/// The weekday of `d`, counted from Monday (0); 1970-01-01 was a Thursday.
pub open spec fn weekday_of(d: (int, int, int)) -> int {
    (days_from_civil(d) + 3) % 7
}

/// The decimal digits of `n`, without leading zeros.
pub open spec fn decimal(n: nat) -> Seq<char>
    decreases n,
{
    if n < 10 {
        seq![digit_char(n as int)]
    } else {
        decimal(n / 10) + seq![digit_char((n % 10) as int)]
    }
}

/// `s` with zeros in front up to `width` characters.
pub open spec fn zero_padded(s: Seq<char>, width: nat) -> Seq<char>
    decreases width - s.len(),
{
    if s.len() >= width {
        s
    } else {
        zero_padded(seq!['0'] + s, width)
    }
}

/// The year as chrono's `%Y` writes it: four digits, zero-padded, for years 0 to 9999;
/// otherwise with a sign and at least four digits.
pub open spec fn year_text(y: int) -> Seq<char> {
    if 0 <= y <= 9999 {
        zero_padded(decimal(y as nat), 4)
    } else if y < 0 {
        seq!['-'] + zero_padded(decimal((-y) as nat), 4)
    } else {
        seq!['+'] + zero_padded(decimal(y as nat), 4)
    }
}

/// The month heading of `date` (chrono's `%B %Y`): English month name and year.
pub open spec fn month_heading_text(date: (int, int, int)) -> Seq<char> {
    month_name(date.1) + " "@ + year_text(date.0)
}

/// The day heading of `date` (chrono's `%A, %B %-d`): English weekday, month name and
/// day without padding.
pub open spec fn day_heading_text(date: (int, int, int)) -> Seq<char> {
    weekday_name(weekday_of(date)) + ", "@ + month_name(date.1) + " "@ + decimal(date.2 as nat)
}

/// The text chrono's `NaiveDate::format` writes for `date` with one of the two heading
/// patterns.
pub open spec fn formatted_date(date: (int, int, int), pattern: Seq<char>) -> Seq<char> {
    if pattern == "%B %Y"@ {
        month_heading_text(date)
    } else {
        day_heading_text(date)
    }
}

/// Formats `date` with `chrono::NaiveDate::format(pattern)`, whose default locale writes
/// English names. Claimed: with `%B %Y` the text is the month's full name, a space and
/// the year as `%Y` writes it; with `%A, %B %-d` the weekday's full name, a comma and a
/// space, the month's full name, a space and the day without padding (see
/// `formatted_date`). Only these two patterns are used; chrono reports an error for some
/// other patterns, which `to_string` turns into a panic.
#[verifier::external_body]
fn format_date(date: Date, pattern: &str) -> (r: String)
    requires
        date.wf(),
        pattern@ == "%B %Y"@ || pattern@ == "%A, %B %-d"@,
    ensures
        r@ == formatted_date(date@, pattern@),
{
    let d = chrono::NaiveDate::from_ymd_opt(date.year, date.month, date.day);
    d.map(|d| d.format(pattern).to_string()).unwrap_or_default()
}

/// The month heading of `date` (see `month_heading_text`); every day of a month has the
/// heading of the month's first day.
pub fn month_heading(date: Date) -> (r: String)
    requires
        date.wf(),
    ensures
        r@ == month_heading_text(date@),
        r@ == month_heading_text((date.year as int, date.month as int, 1)),
{
    format_date(date, "%B %Y")
}

/// The day heading of `date` (see `day_heading_text`).
pub fn day_heading(date: Date) -> (r: String)
    requires
        date.wf(),
    ensures
        r@ == day_heading_text(date@),
{
    proof {
        reveal_strlit("%A, %B %-d");
        reveal_strlit("%B %Y");
        assert("%A, %B %-d"@.len() != "%B %Y"@.len());
    }
    format_date(date, "%A, %B %-d")
}

/// What the popover shows after a navigation.
#[derive(Debug)]
pub struct CalendarView {
    /// The day the calendar selects.
    pub selected: Date,
    /// The first day of the shown month.
    pub month: Date,
    /// Whether the shown month is the current one, so today is highlighted.
    pub show_today: bool,
    /// The month heading.
    pub header: String,
    /// The heading of the event list, when events are enabled.
    pub events_title: Option<String>,
}

/// How the event display follows a change of the calendar's date.
#[derive(Debug, PartialEq, Eq, Structural)]
pub enum EventsUpdate {
    /// Events are disabled.
    Nothing,
    /// The month changed: refresh the events of the month starting on this date.
    Refresh(Date),
    /// Same month: redraw from the current snapshot.
    Redraw,
}

/// The navigation state of the calendar popover.
#[derive(Debug)]
pub struct CalendarPopoverState {
    pub today: Date,
    pub visible_month: Date,
    pub selected_date: Date,
    pub events_enabled: bool,
}

impl CalendarPopoverState {
    /// The shown month is the month of the selected day.
    pub open spec fn wf(self) -> bool {
        &&& self.today.wf()
        &&& self.selected_date.wf()
        &&& self.visible_month == spec_month_start(self.selected_date)
    }

    /// The view after selecting `date`.
    pub open spec fn view_for(self, date: Date, v: CalendarView) -> bool {
        &&& v.selected == date
        &&& v.month == spec_month_start(date)
        &&& v.show_today == (date.month == self.today.month && date.year == self.today.year)
        &&& v.header@ == month_heading_text(spec_month_start(date)@)
        &&& if self.events_enabled {
            v.events_title matches Some(t) && t@ == day_heading_text(date@)
        } else {
            v.events_title is None
        }
    }

    /// Selects `date`: it becomes the selected day and its month the shown one.
    fn sync(&mut self, date: Date) -> (v: CalendarView)
        requires
            old(self).today.wf(),
            date.wf(),
        ensures
            final(self).wf(),
            final(self).today == old(self).today,
            final(self).events_enabled == old(self).events_enabled,
            final(self).selected_date == date,
            final(self).view_for(date, v),
    {
        let month = month_start(date);
        self.selected_date = date;
        self.visible_month = month;
        let events_title = if self.events_enabled { Some(day_heading(date)) } else { None };
        CalendarView {
            selected: date,
            month,
            show_today: month.month == self.today.month && month.year == self.today.year,
            header: month_heading(month),
            events_title,
        }
    }

    /// The popover as first built: showing today's month with today selected.
    pub fn new(today: Date, events_enabled: bool) -> (r: (Self, CalendarView))
        requires
            today.wf(),
        ensures
            r.0.wf(),
            r.0.today == today,
            r.0.selected_date == today,
            r.0.events_enabled == events_enabled,
            r.0.view_for(today, r.1),
    {
        let mut state = CalendarPopoverState {
            today,
            visible_month: today,
            selected_date: today,
            events_enabled,
        };
        let view = state.sync(today);
        (state, view)
    }

    /// The previous or next month button: moves the selected day by `delta` months
    /// (clamping the day) and asks to refresh that month's events when enabled.
    pub fn change_month(&mut self, delta: i32) -> (r: (CalendarView, Option<Date>))
        requires
            old(self).wf(),
            i32::MIN <= shifted_month_count(
                old(self).selected_date.year as int,
                old(self).selected_date.month as int,
                delta as int,
            ) <= i32::MAX,
        ensures
            final(self).wf(),
            final(self).today == old(self).today,
            final(self).events_enabled == old(self).events_enabled,
            final(self).selected_date == spec_add_months(old(self).selected_date, delta as int),
            final(self).view_for(final(self).selected_date, r.0),
            r.1 == (if old(self).events_enabled { Some(final(self).selected_date) } else { None }),
    {
        let new_date = add_months(self.selected_date, delta);
        let view = self.sync(new_date);
        let refresh = if self.events_enabled { Some(new_date) } else { None };
        (view, refresh)
    }

    /// The today button: selects today and asks to refresh its month when enabled.
    pub fn go_to_today(&mut self) -> (r: (CalendarView, Option<Date>))
        requires
            old(self).wf(),
        ensures
            final(self).wf(),
            final(self).today == old(self).today,
            final(self).events_enabled == old(self).events_enabled,
            final(self).selected_date == old(self).today,
            final(self).view_for(old(self).today, r.0),
            r.1 == (if old(self).events_enabled { Some(old(self).today) } else { None }),
    {
        let today = self.today;
        let view = self.sync(today);
        let refresh = if self.events_enabled { Some(today) } else { None };
        (view, refresh)
    }

    /// The popover opens again on `today`: today is updated and selected, and its month's
    /// events are refreshed when enabled.
    pub fn reopen(&mut self, today: Date) -> (r: (CalendarView, Option<Date>))
        requires
            old(self).wf(),
            today.wf(),
        ensures
            final(self).wf(),
            final(self).today == today,
            final(self).events_enabled == old(self).events_enabled,
            final(self).selected_date == today,
            final(self).view_for(today, r.0),
            r.1 == (if old(self).events_enabled { Some(today) } else { None }),
    {
        self.today = today;
        let view = self.sync(today);
        let refresh = if self.events_enabled { Some(today) } else { None };
        (view, refresh)
    }

    /// The calendar's date changed through the calendar itself (scrolling, clicking a
    /// neighbouring month's day): `date` is selected; with events enabled, a new month
    /// is refreshed and the same month is redrawn.
    pub fn calendar_date_changed(&mut self, date: Date) -> (r: (CalendarView, EventsUpdate))
        requires
            old(self).wf(),
            date.wf(),
        ensures
            final(self).wf(),
            final(self).today == old(self).today,
            final(self).events_enabled == old(self).events_enabled,
            final(self).selected_date == date,
            final(self).view_for(date, r.0),
            r.1 == (if !old(self).events_enabled {
                EventsUpdate::Nothing
            } else if spec_month_start(date) != old(self).visible_month {
                EventsUpdate::Refresh(spec_month_start(date))
            } else {
                EventsUpdate::Redraw
            }),
    {
        let notified_month = month_start(date);
        let month_changed = notified_month != self.visible_month;
        let view = self.sync(date);
        if !self.events_enabled {
            return (view, EventsUpdate::Nothing);
        }
        if month_changed {
            (view, EventsUpdate::Refresh(notified_month))
        } else {
            (view, EventsUpdate::Redraw)
        }
    }

    /// Whether a snapshot belongs to the shown month; others are ignored.
    pub fn shows_snapshot(&self, snapshot: &CalendarSnapshot) -> (r: bool)
        requires
            self.wf(),
        ensures
            r == (snapshot.focus_month == Some(spec_month_start(self.visible_month))),
    {
        snapshot.matches_focus_month(self.visible_month)
    }
}

} // verus!
