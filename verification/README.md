# sysmonitor

A process monitor for Linux in two windows: the modern one (`sysmonitor`)
and the classic one (`sysmonitor --lite`). It lists the processes with their
PID, name, state, resident and virtual memory and CPU share, filters them by
name or PID, orders them by any column, and shows the RAM in use.

The logic is a library verified with Verus, under `src/`:

- `text`: Unicode whitespace, trimming, lines and words, prefixes,
  substring search, and the lowercase mapping of `str::to_lowercase`;
- `number`: decimal numbers read as `str::parse` reads unsigned integers,
  and written as `Display` writes them;
- `procinfo`: the process record and the two modes;
- `procfs`: the text of `/proc/meminfo`, `/sys/devices/system/cpu/online`,
  `/proc/stat`, `/proc/<pid>/status`, `/proc/<pid>/stat` and the entries of
  `/proc`, read into values;
- `format`: sizes with one decimal as `{:.1}` prints them, state labels,
  dots and colours, shortened names, the footer's age text;
- `monitor`: the monitor's state, a refresh against the previous CPU
  sample, the search and the ordering of the table.

`app/` holds the window (egui through eframe), the file reading, and the
colour scales that work on floating-point shares.
