use std::collections::BTreeMap;
use std::sync::Arc;

use chrono::{Local, TimeZone};

use vibepanel::date::Date;
use vibepanel::time::{EventTime, ParsedTime};
use vibepanel::services::calendar::{
    all_day_days, bucket_events, check_capabilities, normalized_event, discovery_plan, event_fetch_window, fetch_failure,
    fetched_snapshot, find_calendar, handle_response_line, is_dankcalendar_socket_name,
    month_start, normalize_event, prepare_refresh_snapshot, CalendarError, CalendarService,
    CalendarSnapshot, DankCalendar, DankEvent, DankResponse, DiscoveryStep, FetchStage,
    RefreshRequest, RequestIds, ResponseLine, ResponseStep, socket_candidates,
};

fn date(y: i32, m: u32, d: u32) -> Date {
    Date::from_ymd_opt(y, m, d).unwrap()
}

fn key(y: i32, m: u32, d: u32) -> (i32, u32, u32) {
    (y, m, d)
}

fn dank_event(start: &str, end: &str, all_day: bool) -> DankEvent {
    DankEvent {
        calendar_id: "cal".to_string(),
        summary: "event".to_string(),
        location: String::new(),
        start: start.to_string(),
        end: end.to_string(),
        all_day,
        status: String::new(),
    }
}

#[test]
fn buckets_all_day_end_exclusive() {
    let event = dank_event("2026-06-22T00:00:00Z", "2026-06-24T00:00:00Z", true);
    let buckets = bucket_events(vec![event], &Vec::new(), date(2026, 6, 1), date(2026, 7, 1));
    assert!(buckets.contains_key(&key(2026, 6, 22)));
    assert!(buckets.contains_key(&key(2026, 6, 23)));
    assert!(!buckets.contains_key(&key(2026, 6, 24)));
}

#[test]
fn hidden_calendars_are_filtered() {
    let event = dank_event("2026-06-22T12:00:00Z", "2026-06-22T13:00:00Z", false);
    let calendars = vec![DankCalendar {
        id: "cal".to_string(),
        name: "Hidden".to_string(),
        color: None,
        hidden: true,
    }];
    assert!(bucket_events(vec![event], &calendars, date(2026, 6, 1), date(2026, 7, 1)).is_empty());
}

#[test]
fn fetch_window_covers_visible_month_grid_spillover() {
    let (start, end) = event_fetch_window(date(2026, 2, 15)).expect("valid fetch window");

    assert_eq!(start, date(2026, 1, 18));
    assert_eq!(end, date(2026, 3, 15));
}

#[test]
fn timed_event_ending_at_midnight_stays_on_start_day() {
    let start = Local.with_ymd_and_hms(2026, 6, 22, 23, 0, 0).unwrap();
    let end = Local.with_ymd_and_hms(2026, 6, 23, 0, 0, 0).unwrap();
    let event = dank_event(&start.to_rfc3339(), &end.to_rfc3339(), false);
    let buckets = bucket_events(vec![event], &Vec::new(), date(2026, 6, 1), date(2026, 7, 1));
    assert!(buckets.contains_key(&key(2026, 6, 22)));
    assert!(!buckets.contains_key(&key(2026, 6, 23)));
}

#[test]
fn buckets_long_events_only_inside_fetch_window() {
    let event = dank_event("2020-01-01T00:00:00Z", "2030-01-01T00:00:00Z", true);
    let window_start = date(2026, 6, 1);
    let window_end = date(2026, 7, 1);

    let buckets = bucket_events(vec![event], &Vec::new(), window_start, window_end);

    assert_eq!(buckets.len(), 30);
    assert_eq!(buckets.first_key_value().map(|(k, _)| *k), Some(key(2026, 6, 1)));
    assert_eq!(
        buckets.last_key_value().map(|(k, _)| *k),
        window_end.pred_opt().map(|d| key(d.year, d.month, d.day))
    );
}

#[test]
fn refresh_snapshot_clears_events_only_when_focus_month_changes() {
    let june = date(2026, 6, 1);
    let july = date(2026, 7, 1);
    let mut snapshot = CalendarSnapshot {
        focus_month: Some(june),
        loading: false,
        error: Some("old error".to_string()),
        backend_available: true,
        events_by_date: BTreeMap::from([(key(2026, 6, 1), Vec::new())]),
    };

    prepare_refresh_snapshot(&mut snapshot, date(2026, 6, 20));
    assert!(snapshot.events_by_date.contains_key(&key(2026, 6, 1)));
    assert!(snapshot.matches_focus_month(june));
    assert!(snapshot.loading);
    assert!(snapshot.error.is_none());

    prepare_refresh_snapshot(&mut snapshot, date(2026, 7, 20));
    assert!(snapshot.events_by_date.is_empty());
    assert!(snapshot.matches_focus_month(july));
    assert!(!snapshot.matches_focus_month(june));
}

#[test]
fn refresh_results_distinguish_absent_and_fetch_errors() {
    let mut service = CalendarService::new();

    service.apply_refresh_result(
        0,
        Err(CalendarError::Fetch("socket /tmp/dankcal-123.sock closed".to_string())),
    );

    assert_eq!(
        service.snapshot().error.as_deref(),
        Some("Error fetching calendar events. Check logs for details.")
    );
    assert!(service.snapshot().backend_available);
    service.snapshot.events_by_date = BTreeMap::from([(key(2026, 6, 1), Vec::new())]);

    service.apply_refresh_result(
        0,
        Err(CalendarError::Unavailable("DankCalendar socket not found".to_string())),
    );

    assert!(service.snapshot().error.is_none());
    assert!(!service.snapshot().backend_available);
    assert!(service.snapshot().events_by_date.is_empty());
}

#[test]
fn refresh_coalesces_pending_work_to_latest_request() {
    let mut service = CalendarService::new();
    service.worker_active = true;
    let june = date(2026, 6, 1);
    let july = date(2026, 7, 1);
    let august = date(2026, 8, 1);

    service.refresh(june);
    service.refresh(july);
    service.refresh(august);

    let pending = service.pending_refresh.expect("latest request queued");
    assert_eq!(pending.generation, service.generation);
    assert_eq!(pending.focus_date, august);
    assert!(service.snapshot().matches_focus_month(august));
}

#[test]
fn reentrant_refresh_keeps_newest_pending_request() {
    let mut service = CalendarService::new();
    service.worker_active = true;
    let june = date(2026, 6, 1);
    let july = date(2026, 7, 1);

    // A listener notified of the loading snapshot asks for another month.
    let effects = service.refresh(june);
    if effects.notify.loading {
        service.refresh(july);
    }

    let pending = service.pending_refresh.expect("reentrant request queued");
    assert_eq!(pending.generation, service.generation);
    assert_eq!(pending.focus_date, july);
    assert!(service.snapshot().matches_focus_month(july));
}

#[test]
fn client_reports_eof_before_capabilities() {
    let err = check_capabilities(0).expect_err("EOF must fail connection");
    assert!(err.contains("closed before capabilities"));
}

#[test]
fn client_reports_eof_while_waiting_for_response() {
    match handle_response_line::<u32>(1, ResponseLine::Closed) {
        ResponseStep::Finish(Err(e)) => assert!(e.contains("DankCalendar socket closed")),
        _ => panic!("end of file must fail the request"),
    }
}

#[test]
fn client_propagates_matching_response_errors() {
    let line = ResponseLine::<u32>::Reply(DankResponse {
        id: Some(1),
        result: None,
        error: Some("calendar unavailable".to_string()),
    });
    match handle_response_line(1, line) {
        ResponseStep::Finish(Err(e)) => assert_eq!(e, "calendar unavailable"),
        _ => panic!("a matching error must fail the request"),
    }
}

#[test]
fn responses_to_other_requests_are_skipped() {
    let other = ResponseLine::<u32>::Reply(DankResponse { id: Some(2), result: Some(7), error: None });
    assert!(matches!(handle_response_line(1, other), ResponseStep::KeepReading));
    let no_id = ResponseLine::<u32>::Reply(DankResponse { id: None, result: Some(7), error: None });
    assert!(matches!(handle_response_line(1, no_id), ResponseStep::KeepReading));
    let mine = ResponseLine::<u32>::Reply(DankResponse { id: Some(1), result: Some(7), error: None });
    assert!(matches!(handle_response_line(1, mine), ResponseStep::Finish(Ok(Some(7)))));
    let null = ResponseLine::<u32>::Reply(DankResponse { id: Some(1), result: None, error: None });
    assert!(matches!(handle_response_line(1, null), ResponseStep::Finish(Ok(None))));
}

#[test]
fn unparsable_reply_reports_parser_message() {
    match handle_response_line::<u32>(1, ResponseLine::Unparsable("expected value".to_string())) {
        ResponseStep::Finish(Err(e)) => assert_eq!(e, "parse DankCalendar response: expected value"),
        _ => panic!("an unparsable line must fail the request"),
    }
}

#[test]
fn request_ids_count_up_from_one() {
    let mut ids = RequestIds::new();
    assert_eq!(ids.take(), 1);
    assert_eq!(ids.take(), 2);
    assert_eq!(ids.take(), 3);
    assert!(check_capabilities(17).is_ok());
}

#[test]
fn socket_names_need_a_numeric_id() {
    assert!(is_dankcalendar_socket_name("dankcal-123.sock"));
    assert!(is_dankcalendar_socket_name("dankcal-0.sock"));
    assert!(!is_dankcalendar_socket_name("dankcal-.sock"));
    assert!(!is_dankcalendar_socket_name("dankcal-12a.sock"));
    assert!(!is_dankcalendar_socket_name("dankcal-12.socket"));
    assert!(!is_dankcalendar_socket_name("other-12.sock"));
    assert!(!is_dankcalendar_socket_name("dankcal.sock"));
    assert!(is_dankcalendar_socket_name("/run/user/1000/dankcal-7.sock"));
    assert!(is_dankcalendar_socket_name("/tmp/dankcal-7.sock/"));
    assert!(!is_dankcalendar_socket_name("/tmp/dankcal-7.sock/.."));
    assert!(!is_dankcalendar_socket_name("/"));
}

#[test]
fn discovery_tries_explicit_then_runtime_then_fallback() {
    assert_eq!(
        discovery_plan(true, true),
        vec![
            DiscoveryStep::ExplicitSocket,
            DiscoveryStep::FlatpakDir,
            DiscoveryStep::RuntimeDir,
            DiscoveryStep::FallbackDir
        ]
    );
    assert_eq!(discovery_plan(false, false), vec![DiscoveryStep::FallbackDir]);
    assert_eq!(
        discovery_plan(false, true),
        vec![DiscoveryStep::FlatpakDir, DiscoveryStep::RuntimeDir, DiscoveryStep::FallbackDir]
    );
}

#[test]
fn fetch_window_at_year_end_and_range_end() {
    let (start, end) = event_fetch_window(date(2026, 12, 31)).unwrap();
    assert_eq!(start, date(2026, 11, 17));
    assert_eq!(end, date(2027, 1, 15));
    let (start, end) = event_fetch_window(date(2024, 3, 10)).unwrap();
    assert_eq!(start, date(2024, 2, 16));
    assert_eq!(end, date(2024, 4, 15));
    let err = event_fetch_window(date(262142, 12, 1)).unwrap_err();
    assert_eq!(err, "invalid focus date");
}

#[test]
fn cancelled_events_and_unparsable_times_are_left_out() {
    let mut cancelled = dank_event("2026-06-10T09:00:00Z", "2026-06-10T10:00:00Z", false);
    cancelled.status = "cancelled".to_string();
    let broken = dank_event("yesterday", "2026-06-10T10:00:00Z", false);
    let buckets = bucket_events(vec![cancelled, broken], &Vec::new(), date(2026, 6, 1), date(2026, 7, 1));
    assert!(buckets.is_empty());
}

#[test]
fn day_events_put_all_day_first_then_by_start() {
    let late = dank_event("2026-06-10T15:00:00Z", "2026-06-10T16:00:00Z", false);
    let early = dank_event("2026-06-10T12:00:00Z", "2026-06-10T13:00:00Z", false);
    let mut whole = dank_event("2026-06-10T00:00:00Z", "2026-06-11T00:00:00Z", true);
    whole.summary = String::new();
    let buckets = bucket_events(vec![late, early, whole], &Vec::new(), date(2026, 6, 1), date(2026, 7, 1));
    let day = buckets.get(&key(2026, 6, 10)).expect("events on the day");
    assert_eq!(day.len(), 3);
    assert!(day[0].all_day);
    assert_eq!(day[0].title, "(untitled)");
    assert!(day[1].start.unix_secs < day[2].start.unix_secs);
}

#[test]
fn normalized_events_take_calendar_name_and_color() {
    let calendars = vec![
        DankCalendar { id: "cal".to_string(), name: "Old".to_string(), color: None, hidden: false },
        DankCalendar {
            id: "cal".to_string(),
            name: "Work".to_string(),
            color: Some("#ff0000".to_string()),
            hidden: false,
        },
    ];
    let event = dank_event("2026-06-10T09:00:00Z", "2026-06-10T10:00:00Z", false);
    let calendar = find_calendar(&calendars, &event.calendar_id);
    assert_eq!(calendar.map(|c| c.name.as_str()), Some("Work"));
    let normalized = normalize_event(&event, calendar).expect("valid times");
    assert_eq!(normalized.calendar_name, "Work");
    assert_eq!(normalized.color.as_deref(), Some("#ff0000"));
    assert_eq!(normalized.title, "event");
    assert_eq!(normalized.start.unix_secs, 1781082000);
    assert_eq!(normalized.end.unix_secs, 1781085600);
    assert!(normalize_event(&dank_event("2026-06-10", "2026-06-11", true), None).is_none());
}

#[test]
fn stale_results_are_dropped_and_pending_work_starts_after_completion() {
    let mut service = CalendarService::new();
    let start = service.refresh(date(2026, 6, 5)).start;
    assert_eq!(start, Some(RefreshRequest { generation: 1, focus_date: date(2026, 6, 5) }));
    assert!(service.worker_active);
    let queued = service.refresh(date(2026, 7, 5));
    assert!(queued.start.is_none());
    assert!(queued.notify.events_by_date.is_empty());

    let (notify, next) = service.complete_refresh(1, Ok(CalendarSnapshot::default()));
    assert!(notify.is_none());
    assert_eq!(next, Some(RefreshRequest { generation: 2, focus_date: date(2026, 7, 5) }));
    assert!(service.snapshot().loading);

    let fetched = fetched_snapshot(date(2026, 7, 5), (date(2026, 6, 17), date(2026, 8, 15)), Vec::new(), &Vec::new());
    let (notify, next) = service.complete_refresh(2, Ok(fetched));
    let shown = notify.expect("current result is shown");
    assert!(!shown.loading);
    assert!(shown.backend_available);
    assert_eq!(shown.focus_month, Some(date(2026, 7, 1)));
    assert!(next.is_none());
    assert!(!service.worker_active);
}

#[test]
fn discovery_refreshes_only_when_idle_and_unavailable() {
    let mut service = CalendarService::new();
    assert!(service.ensure_discovery(date(2026, 6, 1)).is_some());
    assert!(service.ensure_discovery(date(2026, 6, 1)).is_none());
    service.worker_finished();
    service.snapshot.backend_available = true;
    assert!(service.ensure_discovery(date(2026, 6, 1)).is_none());
}

#[test]
fn connection_failures_mean_unavailable() {
    assert!(matches!(fetch_failure(FetchStage::Connect, "x".to_string()), CalendarError::Unavailable(_)));
    assert!(matches!(fetch_failure(FetchStage::Calendars, "x".to_string()), CalendarError::Fetch(_)));
    assert!(matches!(fetch_failure(FetchStage::Window, "x".to_string()), CalendarError::Fetch(_)));
    assert!(matches!(fetch_failure(FetchStage::Events, "x".to_string()), CalendarError::Fetch(_)));
}

#[test]
fn month_start_and_event_sharing() {
    assert_eq!(month_start(date(2026, 2, 28)), date(2026, 2, 1));
    let event = normalize_event(&dank_event("2026-06-10T09:00:00Z", "2026-06-10T10:00:00Z", false), None)
        .expect("valid times");
    let shared = Arc::new(event);
    let buckets = BTreeMap::from([(key(2026, 6, 10), vec![shared.clone()])]);
    assert_eq!(buckets.len(), 1);
}

#[test]
fn discovery_tries_own_sockets_in_name_order() {
    let entries = vec![
        ("dankcal-20.sock".to_string(), true),
        ("dankcal-3.sock".to_string(), true),
        ("dankcal-1.sock".to_string(), false),
        ("notes.txt".to_string(), true),
        ("dankcal-100.sock".to_string(), true),
    ];
    assert_eq!(
        socket_candidates(entries),
        vec!["dankcal-100.sock".to_string(), "dankcal-20.sock".to_string(), "dankcal-3.sock".to_string()]
    );
    assert!(socket_candidates(Vec::new()).is_empty());
}

#[test]
fn all_day_ranges_end_before_their_end_date() {
    assert_eq!(all_day_days(date(2026, 6, 22), date(2026, 6, 24)), (date(2026, 6, 22), date(2026, 6, 23)));
    assert_eq!(all_day_days(date(2026, 6, 22), date(2026, 6, 22)), (date(2026, 6, 22), date(2026, 6, 22)));
    assert_eq!(all_day_days(date(2026, 6, 22), date(2026, 6, 20)), (date(2026, 6, 22), date(2026, 6, 22)));
    assert_eq!(all_day_days(date(2026, 12, 31), date(2027, 1, 1)), (date(2026, 12, 31), date(2026, 12, 31)));
}

#[test]
fn normalized_events_keep_times_and_name_untitled_ones() {
    let at = |h: u32| EventTime {
        unix_secs: 1_781_082_000 + i64::from(h) * 3600,
        nanos: 0,
        date: date(2026, 6, 10),
        hour: h,
        minute: 0,
        second: 0,
        date_before: date(2026, 6, 10),
    };
    let start = ParsedTime { civil_date: date(2026, 6, 10), local: at(9) };
    let end = ParsedTime { civil_date: date(2026, 6, 10), local: at(10) };
    let mut event = dank_event("ignored", "ignored", false);
    event.summary = String::new();
    event.location = "Hall".to_string();
    let e = normalized_event(&event, None, start, end);
    assert_eq!(e.title, "(untitled)");
    assert_eq!(e.calendar_name, "");
    assert_eq!(e.location, "Hall");
    assert!(e.color.is_none());
    assert_eq!(e.start, at(9));
    assert_eq!(e.end, at(10));
    assert!(!e.all_day);
}
