# zdump_rs

A bounded TZif witness: it reads a compiled time-zone file (TZif v1–v4) and reports what it
means — UT offset, DST flag and abbreviation — at explicit UTC instants, as deterministic JSON
or text rows. It is not a `zdump` replacement.

The library is written in Verus. Each public function carries a contract over a mathematical
model, and Verus proves the code against it.

## Layout

- `src/civil.rs` — proleptic Gregorian day arithmetic and the `YYYY-MM-DDTHH:MM:SSZ` stamp
  (parse and format), with the round-trip laws.
- `src/leap.rs` — leap-second correction lookup and the `:60` rendering of a leap instant.
- `src/posix.rs` — the POSIX TZ footer grammar (`EST5EDT,M3.2.0,M11.1.0` and friends) and its
  evaluation at an instant.
- `src/tzif.rs` — the bounds-checked TZif reader, the explicit-table lookup, footer
  projection beyond the table, and transition listing.
- `src/witness.rs` — witness rows and their JSON / text rendering.
- `src/text.rs` — character-level helpers shared by the above, and the few calls into `std`
  whose behaviour is taken on trust (each documented where it is declared).
- `app/` — the command-line program: argument handling, file reading, zone-name resolution and
  printing.
- `tests/` — concrete scenarios for every module.
