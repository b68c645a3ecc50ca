# atomic_bomb_engine

A load-test engine whose rules are verified with Verus.

- `src/` is the library: which runs are admitted (`batch`), how requests are made from endpoints and
  extracted values (`request`, `setup`, `template`, `jsonpath`, `net`), what each worker does next
  (`worker`, `think`, `controller`), how responses are judged (`assertion`), and what is counted and
  reported (`tally`, `board`, `error_stats`, `latency`, `quick_run`, `queue`). Every function states
  what it returns or changes; functions named `law_..` state what holds across them, and those of
  `history` what holds of a run as a whole.
- `app/` is the program around it: the HTTP client, the clock, tasks and channels, and the rates,
  which are floating-point numbers.
- `tests/` runs the library on concrete values.

Calls into `handlebars`, `jsonpath_lib`, `serde_json`, `histogram`, `reqwest`'s header types, `url`
and `rand` stand behind small wrappers whose contracts say what is believed of them.
