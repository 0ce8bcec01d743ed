# fixture_next

Finds a team's next (or most recent) fixture in a plain-text fixture list,
with the reading, matching and calendar logic proved correct with Verus.

- `src/calendar.rs`: the proleptic Gregorian calendar as spec functions
  (leap years, month lengths, day numbers since 1970-01-01) and the proofs
  about them, including the correctness of the day-count-to-date algorithm.
- `src/text.rs`: trimming, ASCII case folding, splitting, CSV fields, and
  writing and reading decimal numbers, each against a spec.
- `src/date.rs`: `Date` — validation, `YYYY-MM-DD` reading and writing,
  `from_epoch_day` and `today`.
- `src/fixture.rs`: `Fixture`, `parse_fixtures`, `next_fixture`,
  `last_fixture` and the laws that tie them together.
- `app/main.rs`: the command-line program (arguments, files, printing).
