# mail_parser (thread names)

Computes the thread name ("base subject") of an e-mail subject line: reply and
forward markers in many languages (`Re:`, `AW:`, `Fwd[2]:`, `回复:`),
mailing-list tags (`[PATCH]`), `[fwd: ...]` blobs and trailing `(fwd)` markers
are removed, along with surrounding whitespace.

Layout of `src/`:

- `text.rs`: the Unicode properties taken from std (`char::is_whitespace`,
  `char::is_alphabetic`, `str::to_lowercase`), named as spec functions, and
  UTF-8 byte lengths of character sequences.
- `parsers/fields/prefixes.rs`: the tables of reply and forward markers.
- `parsers/fields/trailing.rs`: `trim_trailing_fwd`, specified as a
  right-to-left scan (`trim_scan`, `trim_span`), with its laws: a direct
  statement of what is kept (`lemma_trim_kept_text`), idempotence, leading
  whitespace, appended `(fwd)` groups, text without parentheses.
- `parsers/fields/thread.rs`: `thread_name`, specified as a left-to-right scan
  (`scan`, `thread_name_span`), with its laws: a leading marker and colon, a
  run of markers, a leading `[tag]`, a `[fwd: ...]` blob, leading whitespace,
  subjects without separators, and that the result is kept whole by
  `trim_trailing_fwd`.

Both public functions return a slice of their input; their contracts give the
exact span, and that the result neither starts nor ends with whitespace.
