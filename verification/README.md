# rtt_debug_tool

A watch window for embedded targets: the target sends its watched variables
as text lines (`arm.pitch.rpm=1000.5`) over RTT or a UART, the host rebuilds
them as a tree, and the user writes values back (`set arm.pitch.rpm 1100.0`),
which the target answers with `OK ...` or `ERR ...`.

## Layout

- `src/` — the library, verified with Verus:
  - `watch_state` — host side: the variable tree, the line protocol, line
    assembly of received text, write-command encoding;
  - `app_state` — host side: the window's state and decisions (connect,
    pause/resume, edits, status texts);
  - `watch_value` — target side: value kinds, permissions, text codecs of
    booleans and integers;
  - `watch_table` — target side: the table of watched entries (on
    `heapless`), path building, the decision on a host write;
  - `watch_task` — target side: rate configuration, the uplink frame, the
    downlink line buffer and command handling;
  - `derive_plan` — the field plan behind `#[derive(Watch)]`;
  - `link` — laws across both ends of the link;
  - `text` — character helpers.
- `tests/` — tests of the library.
- `app/` — the desktop program (egui window, probe-rs and serial links) and
  the target runtime (global registry, value trait, task loop) around the
  library.
