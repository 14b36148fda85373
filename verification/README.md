# raminfo

A RAM inspector: memory usage, DIMM slots, the memory array, temperatures,
top memory consumers and the motherboard, on Linux, macOS and Windows.

The library under `src/` is written in Verus and verified: each function states
what it returns in its contract, over the characters of its input.

- `text` — the `str` operations the parsers rely on (`lines`, `trim`,
  `split_once`, `split_whitespace`, `parse::<u64>()`), as spec functions and
  as executable functions on character spans.
- `parsers` — the text parsers of each platform (`/proc/meminfo`,
  `dmidecode`, `/proc/<pid>/status`, hwmon, `vm_stat`, `ps`,
  `system_profiler`, PowerShell `Key=Value` output) and the ranking of
  processes by resident memory.
- `format` — sizes and voltages printed the way `f64` formatting prints them,
  and the percentage and temperature samples of the interface, all computed
  exactly with integers.
- `tui` — the interface state: the sample histories, the process table
  grouped by name, and the state machine that key presses and refreshes drive.
- `cli` — the command line.

`app/` is the program around the library: running the platform tools,
reading files, JSON output, the coloured report and the terminal interface.
