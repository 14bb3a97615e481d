# wayvol

An accessible GTK4 volume mixer for PipeWire on Wayland, split into a
verified library and a thin program around it.

- `src/` — the library, verified with Verus:
  - `text.rs`: the string operations the parsers are built from (`trim`,
    `lines`, `find`, `parse::<u32>`, decimal formatting), each stated over
    `Seq<char>`;
  - `volume.rs`: volume levels held exactly in millionths, their parsing
    and their rounding to percent;
  - `wpctl.rs`, `wpctl/status.rs`, `wpctl/pactl.rs`: the streams and
    devices of `wpctl status`, `wpctl get-volume` and `wpctl inspect`
    output, port availability from `pactl list`, the arguments of each
    command, and the accessible labels;
  - `monitor.rs`: reading `pw-dump --monitor` output and coalescing change
    events into refreshes;
  - `window.rs`: which devices the dropdowns offer and select, when the
    stream list is rebuilt, and what is announced.
- `app/` — the program: runs `wpctl`, `pactl` and `pw-dump`, the monitor
  thread, and the GTK/libadwaita window, calling the library for every
  decision.
- `tests/` — tests of the library.
