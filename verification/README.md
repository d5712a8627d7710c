# kma_parser

A library that reads university timetables: it tells which specialties a course
title names in its parentheses (by alias, ignoring case and a final period, with a
default specialty when none is named), reads the group a class is held for, strips the
specialty lists from titles, and gathers the rows of a sheet into a schedule by
specialty, class and group. Every function of the library is verified with Verus
against a contract.

Layout:

- `src/text.rs` — character classes, scanning, trimming, and the calls into the
  standard library's Unicode case and letter tables.
- `src/parser.rs` — the grammar of specialty lists such as `екон.+мен.`.
- `src/config.rs` — specialties, aliases, and what a configuration decides about a
  title; the `CourseChecker` trait.
- `src/strmap.rs` — a string-keyed map with distinct keys.
- `src/schedule.rs` — the schedule and how a meeting is added to it.
- `src/table.rs` — gathering the rows of a sheet.
- `src/cli.rs` — the command line as plain values.
- `app/` — the command-line program: reads the spreadsheet and the JSON
  configuration, calls the library, writes the schedule as JSON.
