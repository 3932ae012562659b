use std::collections::BTreeMap;
use std::sync::Arc;

use chrono::{Datelike, Local, NaiveDateTime, TimeDelta, Timelike};

use vibepanel::date::Date;
use vibepanel::services::calendar::{CalendarEvent, CalendarSnapshot};
use vibepanel::time::EventTime;
use vibepanel::widgets::calendar_popover::{
    add_months, calendar_selected_date, dot_colors, dots_by_day, event_detail_text, event_list_content,
    leading_count, marked_days, trailing_count, visible_grid_dates, CalendarPopoverState,
    EventListContent, EventsUpdate, GTK_CALENDAR_DAY_COUNT,
};
use vibepanel::widgets::css;

fn date(y: i32, m: u32, d: u32) -> Date {
    Date::from_ymd_opt(y, m, d).unwrap()
}

fn to_date(d: chrono::NaiveDate) -> Date {
    Date { year: d.year(), month: d.month(), day: d.day() }
}

fn local_time(text: &str) -> EventTime {
    let t = NaiveDateTime::parse_from_str(text, "%Y-%m-%d %H:%M:%S")
        .unwrap()
        .and_local_timezone(Local)
        .single()
        .unwrap();
    EventTime {
        unix_secs: t.timestamp(),
        nanos: t.timestamp_subsec_nanos(),
        date: to_date(t.date_naive()),
        hour: t.hour(),
        minute: t.minute(),
        second: t.second(),
        date_before: to_date((t - TimeDelta::nanoseconds(1)).date_naive()),
    }
}

fn test_event(start: &str, end: &str, all_day: bool) -> CalendarEvent {
    CalendarEvent {
        calendar_name: String::new(),
        color: None,
        title: "Event".to_string(),
        location: String::new(),
        start: local_time(start),
        end: local_time(end),
        all_day,
    }
}

#[test]
fn colorless_events_use_day_label_foreground_fallback() {
    let day = date(2026, 6, 1);
    let event = test_event("2026-06-01 10:15:00", "2026-06-01 11:15:00", false);
    let snapshot = CalendarSnapshot {
        focus_month: Some(day),
        loading: false,
        error: None,
        backend_available: true,
        events_by_date: BTreeMap::from([((2026, 6, 1), vec![Arc::new(event)])]),
    };

    let events = snapshot.events_by_date.get(&(2026, 6, 1)).expect("events of the day");
    let parsed: Vec<Option<u128>> = events.iter().map(|e| e.color.as_ref().map(|_| 1u128)).collect();
    let colors = dot_colors(&parsed);

    assert!(colors.is_empty());
}

#[test]
fn visible_grid_dates_are_contiguous_from_leading_grid_origin() {
    let visible_month = date(2026, 2, 15);

    for leading_days in 0..=7 {
        let trailing_days = GTK_CALENDAR_DAY_COUNT - leading_days - 28;
        let dates = visible_grid_dates(visible_month, leading_days, trailing_days, GTK_CALENDAR_DAY_COUNT)
            .unwrap();

        assert_eq!(dates.len(), GTK_CALENDAR_DAY_COUNT);
        assert_eq!(dates[leading_days], date(2026, 2, 1));
        assert!(dates.windows(2).all(|days| days[0].succ_opt() == Some(days[1])));
    }
}

#[test]
fn month_shift_preserves_and_clamps_selected_day() {
    let january_31 = date(2026, 1, 31);
    let march_31 = date(2026, 3, 31);
    let june_15 = date(2026, 6, 15);

    assert_eq!(add_months(january_31, 1), date(2026, 2, 28));
    assert_eq!(add_months(march_31, -1), date(2026, 2, 28));
    assert_eq!(add_months(june_15, 1), date(2026, 7, 15));
}

#[test]
fn visible_grid_dates_reject_unexpected_calendar_structure() {
    let visible_month = date(2026, 2, 1);

    assert!(visible_grid_dates(visible_month, 8, 6, GTK_CALENDAR_DAY_COUNT).is_none());
    assert!(visible_grid_dates(visible_month, 0, 14, 41).is_none());
    assert!(visible_grid_dates(visible_month, 0, 13, GTK_CALENDAR_DAY_COUNT).is_none());
}

#[test]
fn timed_event_details_follow_selected_continuation_day() {
    let event = test_event("2026-06-01 10:15:00", "2026-06-04 12:30:00", false);

    assert_eq!(event_detail_text(&event, date(2026, 6, 1)), "10:15");
    assert_eq!(event_detail_text(&event, date(2026, 6, 2)), "Ongoing");
    assert_eq!(event_detail_text(&event, date(2026, 6, 4)), "Until 12:30");
}

#[test]
fn timed_event_details_treat_midnight_end_as_previous_final_day() {
    let event = test_event("2026-06-01 10:15:00", "2026-06-03 00:00:00", false);

    assert_eq!(event_detail_text(&event, date(2026, 6, 2)), "Until midnight");
}

#[test]
fn all_day_event_details_ignore_selected_day() {
    let event = test_event("2026-06-01 00:00:00", "2026-06-04 00:00:00", true);

    assert_eq!(event_detail_text(&event, date(2026, 6, 3)), "All day");
}

#[test]
fn event_details_append_calendar_and_location() {
    let mut event = test_event("2026-06-01 09:05:00", "2026-06-01 10:00:00", false);
    event.calendar_name = "Work".to_string();
    event.location = "Room 4".to_string();
    assert_eq!(event_detail_text(&event, date(2026, 6, 1)), "09:05 \u{b7} Work \u{b7} Room 4");
    event.calendar_name = String::new();
    assert_eq!(event_detail_text(&event, date(2026, 6, 1)), "09:05 \u{b7} Room 4");
}

#[test]
fn month_shift_across_years_and_back() {
    assert_eq!(add_months(date(2026, 12, 15), 1), date(2027, 1, 15));
    assert_eq!(add_months(date(2026, 1, 15), -1), date(2025, 12, 15));
    assert_eq!(add_months(date(2024, 1, 31), 1), date(2024, 2, 29));
    assert_eq!(add_months(date(2026, 5, 20), 0), date(2026, 5, 20));
    assert_eq!(add_months(add_months(date(2026, 5, 20), 25), -25), date(2026, 5, 20));
    assert_eq!(add_months(date(262142, 12, 1), 1), date(262142, 12, 1));
}

#[test]
fn dots_keep_three_distinct_colors_in_event_order() {
    let parsed = vec![None, Some(5u128), Some(5), Some(9), None, Some(2), Some(7)];
    assert_eq!(dot_colors(&parsed), vec![5, 9, 2]);
    assert_eq!(dot_colors(&vec![Some(1u128), Some(1)]), vec![1]);
}

#[test]
fn marks_follow_the_shown_month_unless_an_error_is_shown() {
    let mut snapshot = CalendarSnapshot::default();
    snapshot.events_by_date.insert((2026, 6, 3), Vec::new());
    snapshot.events_by_date.insert((2026, 6, 17), Vec::new());
    snapshot.events_by_date.insert((2026, 7, 1), Vec::new());
    let mut marked = marked_days(date(2026, 6, 1), &snapshot);
    marked.sort();
    assert_eq!(marked, vec![3, 17]);
    snapshot.error = Some("broken".to_string());
    assert!(marked_days(date(2026, 6, 1), &snapshot).is_empty());
}

#[test]
fn event_list_shows_error_events_or_state() {
    let mut snapshot = CalendarSnapshot::default();
    snapshot.loading = true;
    match event_list_content(&snapshot, date(2026, 6, 1)) {
        EventListContent::Message(m) => assert_eq!(m, "Loading events..."),
        _ => panic!("no events yet"),
    }
    snapshot.loading = false;
    match event_list_content(&snapshot, date(2026, 6, 1)) {
        EventListContent::Message(m) => assert_eq!(m, "No events"),
        _ => panic!("no events"),
    }
    let event = test_event("2026-06-01 10:15:00", "2026-06-01 11:15:00", false);
    snapshot.events_by_date.insert((2026, 6, 1), vec![Arc::new(event)]);
    match event_list_content(&snapshot, date(2026, 6, 1)) {
        EventListContent::Events(v) => assert_eq!(v.len(), 1),
        _ => panic!("one event"),
    }
    snapshot.error = Some("Error fetching calendar events. Check logs for details.".to_string());
    match event_list_content(&snapshot, date(2026, 6, 1)) {
        EventListContent::Message(m) => assert_eq!(m, "Error fetching calendar events. Check logs for details."),
        _ => panic!("the error is shown"),
    }
}

#[test]
fn grid_cells_of_other_months_are_counted_from_both_ends() {
    let flags = vec![true, true, false, false, true];
    assert_eq!(leading_count(&flags), 2);
    assert_eq!(trailing_count(&flags), 1);
    assert_eq!(leading_count(&vec![true, true]), 2);
    assert_eq!(trailing_count(&Vec::new()), 0);
}

#[test]
fn selected_date_comes_from_zero_based_month() {
    assert_eq!(calendar_selected_date(2026, 1, 28), Some(date(2026, 2, 28)));
    assert_eq!(calendar_selected_date(2026, 1, 30), None);
    assert_eq!(calendar_selected_date(2026, -1, 3), None);
}

#[test]
fn popover_navigation_keeps_selected_day_and_refreshes_months() {
    let today = date(2026, 1, 31);
    let (mut state, view) = CalendarPopoverState::new(today, true);
    assert_eq!(view.selected, today);
    assert_eq!(view.month, date(2026, 1, 1));
    assert!(view.show_today);
    assert_eq!(view.header, "January 2026");
    assert_eq!(view.events_title.as_deref(), Some("Saturday, January 31"));

    let (view, refresh) = state.change_month(1);
    assert_eq!(view.selected, date(2026, 2, 28));
    assert_eq!(view.events_title.as_deref(), Some("Saturday, February 28"));
    assert_eq!(view.header, "February 2026");
    assert!(state.events_enabled);
    assert!(!view.show_today);
    assert_eq!(refresh, Some(date(2026, 2, 28)));

    let (view, update) = state.calendar_date_changed(date(2026, 2, 3));
    assert_eq!(view.selected, date(2026, 2, 3));
    assert_eq!(update, EventsUpdate::Redraw);
    let (_, update) = state.calendar_date_changed(date(2026, 3, 3));
    assert_eq!(update, EventsUpdate::Refresh(date(2026, 3, 1)));

    let (view, refresh) = state.go_to_today();
    assert_eq!(view.selected, today);
    assert_eq!(refresh, Some(today));

    let mut snapshot = CalendarSnapshot::default();
    snapshot.focus_month = Some(date(2026, 1, 1));
    assert!(state.shows_snapshot(&snapshot));
    snapshot.focus_month = Some(date(2026, 2, 1));
    assert!(!state.shows_snapshot(&snapshot));

    let (plain, view) = CalendarPopoverState::new(today, false);
    assert!(view.events_title.is_none());
    let mut plain = plain;
    let (_, refresh) = plain.change_month(-1);
    assert!(refresh.is_none());
    let (_, update) = plain.calendar_date_changed(date(2026, 5, 5));
    assert_eq!(update, EventsUpdate::Nothing);
}

#[test]
fn style_sheets_are_fixed_text() {
    assert!(css::calendar::css().contains(".calendar-popover-card"));
    assert!(css::calendar::css().starts_with("\n/* ===== CALENDAR ===== */"));
    assert!(css::launcher::css().contains(".launcher-search:focus-within"));
    assert!(css::launcher::css().ends_with("}\n"));
}

#[test]
fn dots_are_listed_per_day_unless_an_error_is_shown() {
    let days = vec![((2026, 6, 1), vec![None, Some(4u128), Some(4)]), ((2026, 6, 2), vec![None])];
    assert_eq!(dots_by_day(false, &days), vec![((2026, 6, 1), vec![4]), ((2026, 6, 2), vec![])]);
    assert!(dots_by_day(true, &days).is_empty());
}
