# rust_governor

A processor power governor for Windows: every second it averages the CPU
load over the last ten seconds and sets the maximum processor state, the
boost mode, the energy performance preference and the cooling policy of its
own power plan from load tables in `config.txt`, separately for mains power
and battery.

The decision logic is a Verus library under `src/`:

- `text` — trimming, `u32` parsing and UTF-16 as the standard library does them;
- `config` — the `key=value` configuration file, read line by line;
- `policy` — loads and thresholds as places in the order of the reals, the
  stable ordering of the load tables, and the settings a load calls for;
- `state` — the load history and the record of what was written per power source;
- `governor` — one tick: from load and power source to the writes to make;
- `system` — command-line modes, power status and read codes, labels,
  plan names, the instance check and the install confirmation.

`app/` is the program around it: command line, files, the Windows power API,
process listing, the floating-point load average, and the timing loop.
