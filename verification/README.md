# tokenbar

The verified core of TokenBar's Linux (GTK4) front end, a monitor of AI-agent
token usage. The library holds everything the lenses compute from the usage
reports; the application around it draws the windows, the 3D graph and the
tray, and does the file and report I/O.

## Layout

- `src/` — the library, checked by Verus:
  - `text` — decimal digits and string building;
  - `format` — thousands separators and the compact one-decimal magnitudes;
  - `binary64` — an exact integer model of the binary64 division and
    one-decimal printing behind the compact format;
  - `calendar`, `grid` — day numbers, weekdays and the week-by-weekday
    placement of the contribution graph;
  - `stats` — active days and streaks;
  - `hourly` — the hour-of-day fold of the hourly report;
  - `ranking`, `rows` — stable descending ranking and the list-lens rows;
  - `cache` — the loader's decisions around the graph cache;
  - `payload`, `tray` — plain records read from the reports, tray commands.
- `tests/` — tests of the library, run against the compiled crate.
- `app/` — the GTK4/libadwaita application (windows, OpenGL renderer,
  camera, tray, report and cache I/O, and the `f64`/`f32` parts).
