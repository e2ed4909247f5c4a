# reddit_rs

A tool for Pushshift Reddit dumps with a verified core.

* `filter` keeps the lines of `.zst`/`.jsonl` dumps whose `subreddit` field
  names one of the given subreddits (ignoring ASCII case), into one file or
  one file per subreddit, named from an output template with the
  placeholders `{basename}`, `{subreddit}` and `{timestamp}`.
* `process` builds the reply graph of submissions and comments and writes
  every linear branch (a submission followed by a chain of replies down to a
  comment without replies) as one markdown JSON line.

Layout:

* `src/` — the library, verified with Verus: string helpers (`text`), the
  arguments (`cli`), template checking, output naming and line routing
  (`filter`), records and their conversions (`models`), and the reply graph
  with its traversal (`graph`).
* `app/` — the command-line program: argument parsing, file and zstd I/O,
  progress bars, parallelism and JSON (de)serialisation.
* `tests/` — tests of the library.
