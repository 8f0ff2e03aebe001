# temporal_ledger

A ledger of facts that hold for some time, and an engine that keeps their history in order: where a
relation allows a holder one value at a time, each value ends where the next one begins.

- A fact is never edited. It is invalidated, and rewritten by one that supersedes it, so that the
  record of an earlier day can be read as it was on that day. Only where a merge is reverted is an
  invalidated fact brought back, and then reads as if it had never left.
- A timeline is the present facts of one holder under one relation. A value that arrives late takes
  its place in the middle of history.
- An end comes only from the world: it is the start of a successor. The date of a document is never
  written as one.
- What cannot be told (a missing time, two values that start together, a successor of low
  confidence) is left to a person, each pair of facts as one question.

## Layout

`src/` is the library, verified with Verus.

| module | what it holds |
| --- | --- |
| `ledger` | the tables, and the changes that may be made to them |
| `rewrite` | closing and correcting a fact |
| `timeline` | reading a timeline, and what is due on it |
| `engine` | tidying a timeline, and placing a fact on it |
| `replay` | merges, late declarations of uniqueness, and reverts |
| `review` | conflicts, and what a person decides |
| `candidates` | relations that look unique, and an estimate of what reconciling them comes to |
| `lock` | the name under which a timeline is locked |
| `calendar` | which date a day has |
| `validity`, `confidence`, `text`, `order`, `errors` | moments, confidence, texts, sorting, errors |
| `outside` | what is taken from `uuid`, `chrono` and `serde_json`; nothing there is proved |
| `laws`, `arrival`, `calls`, `pairing`, `chain`, `tally`, `history`, `audit`, `estimate` | what holds of the library as a whole |
| `identity`, `handover`, `placing`, `rest`, `sure`, `walk` | the proofs behind those |

`app/` puts the library on a PostgreSQL store: it locks, loads, lets the library decide, and makes
the changes that the library wrote down. `tests/` runs the library on examples.
