# roundtable

The convener for a daily creative loop: one command runs `the-lunch` →
`vicious-circle` → `conning-tower` in order and stops at the first broken link.

This crate is a Verus library: every function in `src/` carries a contract, and
Verus proves all of them except three small `external_body` wrappers that call
`String::push`, `str::to_lowercase` and `serde_json`, whose contracts are taken
on trust.

- `src/calendar.rs` — "YYYY-MM-DD" parsing and formatting and day arithmetic
  through Julian Day Numbers, with the calendar laws (encode/decode round trips,
  the day after a date, adding and undoing days).
- `src/cadence.rs` — weekdays, the publication cadence and the searches for the
  next session, bind and digest days.
- `src/session.rs` — the session chain as a state machine: the caller performs
  each action it is given and reports back; dates from the clock; default paths.
- `src/tools.rs` — finding the tools through an override variable, `--bin-dir`
  or `PATH`.
- `src/table.rs`, `src/ledger.rs` — what is read from `table.json` and from the
  ledger.
- `src/lib.rs` — the plain table listing, tool lookup, the ledger duplicate
  check and stage planning.
- `src/text.rs`, `src/paths.rs`, `src/json.rs` — characters, decimal numbers,
  lines, paths as text, and one JSON member lookup through `serde_json`.

`app/main.rs` is the command-line program: argument parsing, files, processes
and printing around the library.
