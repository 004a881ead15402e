# herdr-analytics

Efficiency analytics and realtime guidance for the agents running in
[Herdr](https://herdr.dev) panes, over the history that
[memex](https://github.com/nicosuave/memex) indexes. The logic is a Verus library: every function
under `src/` carries a contract, and Verus proves all of them but those taken on trust, which are
named below.

## Layout

- `src/` – the library.
  - `agents`, `hook`, `turns`: what a status change means, the turns and human-response gaps that
    follow from it, and the statistics and rotation of their logs.
  - `live`, `watch`, `tips`: samples of the fleet, retry loops, budget alerts, and what the daemon
    does in one refresh.
  - `usage`, `projects`, `report`: spend, cache use, model mix, bloating sessions, activity by day
    and hour, and the report they make.
  - `render`, `tui`: the report as text and as the lines of the dashboard, and how the dashboard
    reacts to keys.
  - `since`, `cli`, `config`: the window a command asks for, the commands, and where state is kept.
  - `double`: double-precision arithmetic, order and decimal text on bit patterns, so that sums,
    rates and prices are exact to the last bit.
  - `text`, `textmap`, `order`, `group`, `jsonl`: strings, maps by text, ranking, grouping, logs.
  - `calendar`: the days by number, by date and as text.
  - `json`, `clock`: what `serde_json` and `chrono` are called for.
- `tests/` – the library at work on concrete values.
- `app/` – the `analytics` command around the library: arguments, files, the memex scans, the
  daemon's loop and the terminal.

## What is proved

Contracts say what a function returns, not only that it returns. Laws that relate several functions
are public proof functions, named `lemma_...`, next to what they speak of: that a turn lasts from
the moment work began to the moment it stopped, that a budget alert fires once a day, that a pane
that was notified is left in peace for a quarter of an hour, that a refresh sends each urgent tip
once and nothing else, that the order of the log's records is free, that the daily series stands
oldest first, that every event is counted under one model and its tokens with it, that a log reads
back what was appended to it.

What is taken on trust is marked `#[verifier::external_body]` or `assume_specification`: reading a
JSON document and looking into it, parsing a date, the local time, quoting a text, and
`String::push`.

## Numbers

A `Double` holds the 64 bits of a double-precision number. `f64::to_bits` and `f64::from_bits`
convert at the edge.
