# crolk

A desktop clock with a stopwatch, a countdown timer and alarms.

- `src/` is the library, verified with Verus: the stopwatch, timer and alarm
  state machines (`stopwatch.rs`, `timer.rs`, `alarm.rs`), the decimal
  rendering of their faces (`text.rs`), the word splitting and integer reading
  the alarm relies on (`scan.rs`), the logic behind the alarm and timer
  controls and the preset file: reading its text through `toml`, the key of
  the next save, the saved line and the deletion (`presets.rs`), and the
  clock readings and the clock face (`clock.rs`).
- `app/` is the GTK application around it: the window, the tray icon, the
  background threads that poll timers and alarms, notifications, the bell,
  and reading and writing the preset file on disk.
- `tests/` exercises the library on concrete values.
