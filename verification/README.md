# dnsresolvr

A DNS resolver benchmark with a live terminal display and a command mode. The engine is a
[Verus](https://github.com/verus-lang/verus) library: what it computes and decides is stated in
contracts and proved.

## Layout

- `src/` is the library.
  - `bench`, `pacing`, `rng`: which endpoints are probed, in which order, and how long they are left
    alone in between; ranking of the results.
  - `probe`, `transport`, `wire`: queries, replies and frames. `wire` calls `hickory_proto`.
  - `stats`, `double`, `order`: summaries, binary64 rounding in integers, sorting.
  - `domains`, `resolver`, `config`: what to probe.
  - `state`, `session`, `settings`, `command`, `saving`, `display`: the interactive session as a
    state machine over events, keys and commands, and what it shows.
  - `export`, `table`, `text`, `duration`: comma-separated values, tables, text and time.
- `app/` is the program around it: command line, sockets, files, terminal.
- `tests/` runs the library on concrete values.

## Floating point

Multipliers, jitter, reliability and standard deviations are binary64 values. The library holds them
as integers and rounds them as IEEE 754 does, so that its results are those of floating-point
arithmetic, bit for bit. Floating point itself stands in `app/` alone, which computes the
share of the progress gauge, the mean round trip of a domain, and the decimal numbers of texts and
JSON.

## Trusted items

Everything is proved but the contracts of `hickory_proto`'s encoder and decoder and of its names for
response codes (`wire`), of `Path::extension` (`export`), of slice `swap` (`rng`), and of `String::push` and `String::pop`
(`text`). Each says in its doc comment what is believed of it.
