# AoE2 Squire

A companion for Age of Empires II: Definitive Edition. While you play it reads the
resource panel off the screen a few times a second and records that telemetry. From
merged observations (the telemetry and the recorded game's events on one game-time
line) it writes an HTML report: idle villager time, time spent housed or with a full
queue, and resources left floating. Building the merged observations is a separate step;
the library holds the timing calibration it uses (`sync.rs`).

## Layout

- `src/` — the library, verified with Verus:
  - `analysis/` — segmentation of a match into ages and states, idle villager time,
    housing time, floating resources with save-up windows, villager-count smoothing;
  - `pixels.rs` — pixel rules of the screen reader (yellow, red anchor, grey filter),
    column projections and split valleys, component statistics, digit-box ordering and
    merging;
  - `pipeline/` — the housing interpolation engine and how recognised characters become
    readings;
  - `capture.rs` — the capture loop's decisions, telemetry rows and console lines;
  - `replay.rs`, `decode.rs`, `extract.rs`, `reference.rs` — the commands of a recorded
    game as decoded, their placement on the map grid, the reference tables, and the event
    list and match summary drawn from them;
  - `sync.rs` — timing calibration between screen telemetry and game time;
  - `report.rs` — chart series of the report; `cli.rs`, `version.rs`, `discovery.rs`.
- `app/` — the program around it: command line, files, screen reading with `image` and
  `imageproc`, replay decoding with `aoe2rec` and the tenth-of-tile grid cells of its
  positions, the HTML report with `minijinja`.
- `tests/` — tests of the library.

The program expects `ui_map.json`, `research/templates/enormous_numbers/`, `data/*.csv`
and `templates/` in its working directory.
