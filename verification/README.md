# vibepanel widgets, verified

The calendar, app-launcher and wallpaper-picker logic of the vibepanel status bar,
written in Verus with contracts on every function.

- `src/date.rs`, `src/time.rs`, `src/text.rs`: calendar dates, event timestamps (parsed
  with `chrono`), and character-level string helpers.
- `src/services/calendar.rs`: the DankCalendar service: fetch window, event
  normalization and bucketing by day, the refresh state machine, reply handling and
  socket discovery order.
- `src/widgets/`: the calendar popover's navigation, grid, marks, dots and event list;
  the launcher's configuration, app listing, scoring and ranking; the wallpaper
  picker's configuration, monitor choices, row titles and thumbnails; the style
  sheets.
- `tests/`: tests of the library on concrete values.
- `app/`: the GTK widgets, socket and file I/O and process launching around the
  library.
