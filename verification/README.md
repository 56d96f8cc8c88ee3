# PigTop

A menu bar app for macOS that shows which process is using the most network bandwidth, refreshed
once per second.

Per-process byte counters come from the kernel control `com.apple.network.statistics`, the interface
that `nettop` and Activity Monitor use. No root is needed to observe one's own processes.

The logic is a library whose behaviour is stated in contracts and proved with
[Verus](https://github.com/verus-lang/verus). It does no I/O: conversations with the kernel are state
machines that are told what happened on the socket and answer what to do next, and the time is an
argument.

## Layout

- `src/` is the library.
  - `bytes`, `layout`: integers in byte strings, and where the fields of the kernel's structures
    stand by the C layout rules.
  - `control`, `message`: what is asked of the system to open the socket, and the messages that go
    over it.
  - `ntstat`: connecting, subscribing and polling, step by step.
  - `double`: the arithmetic of IEEE 754 double precision, on integers.
  - `rate`, `rates`: rates, and the tracker that makes a ranked list of processes of the kernel's
    counters.
  - `text`, `menubar`, `report`: what is shown.
  - `cadence`: how often to poll and to refresh.
  - `protocol_laws`, `rate_laws`: what holds over several messages, events, polls and snapshots.
- `tests/` runs the library on concrete values.
- `app/` is ordinary Rust around it: the socket, the clock, the status item and the event loop. With
  the argument `ntstat_spike` it prints the top talkers to the terminal instead.

## Conventions

- Byte totals and rates are doubles: each sum, quotient and product is rounded to the nearest, ties
  to even. So are the numbers that are shown.
- Times are nanoseconds of a monotonic clock.
- The title names the process with the highest current rate; the dropdown is in the order of the
  higher of current rate and peak.
- A peak that has gone out of its window of 60 s makes room for the current rate.
- The standard library is trusted in two places: `String::from_utf8_lossy` in `message` and
  `String::push` in `text`.
