# spm_ocr

Train a SentencePiece tokenizer for messy multilingual OCR corpora, and check the corpus and the
trained model against each other.

The library under `src/` is written in Verus: each function states what it computes in its
`requires`/`ensures` contract, and the laws that span several functions are proof functions
named `law_*`. The program under `app/` is ordinary Rust around it: the command line, files,
threads, processes, and the floating-point arithmetic of the quota smoothing.

## Layout

- `src/corpus/` — what a corpus looks like: the encoding axes (`axis`), canonicalization
  (`canonical`, `rewrite`), the scan counts and their merge (`scan`), why chunked scanning
  counts the whole (`chunks`), the corpus-level findings
  (`balance`), the files a scan reads (`source`); `src/corpus.rs` sniffs files and archives.
- `src/model/` — the trained artifact, decoded from a `.model` file's bytes, and the checks on it.
- `src/crosscheck.rs` — what the corpus demands of the model.
- `src/train.rs` — bucket counting, exact per-chunk quotas, and the seeded sampler.
- `src/training.rs` — what the `train` command decides: preflight handling, trainer arguments,
  the training report.
- `src/config.rs` — preset expansion, with dangerous SentencePiece settings put back to their
  safe values; `src/repair.rs` and `src/chunk.rs` — line repair, and cutting an over-long line
  into pieces that fit; `src/balance.rs`, `src/trainer.rs` — bucketing and rebalancing, and the
  trainer request.
- `src/report.rs`, `src/render.rs`, `src/format.rs` — findings, their ranking and their text;
  `src/binary64.rs` — the rounding of a 64-bit float worked out in integers, so a share prints
  exactly the digits its floating-point arithmetic would.

## Laws

Among them: merging scan counts is commutative and associative, so a parallel scan reports the
same totals in any completion order; line-aligned chunks never split a line, and two blocks
scanned apart and merged count what the whole file counts when both decode or neither does;
every line lands in exactly one bucket; spreading a quota over chunks hands out exactly the
quota; the sampler takes exactly each chunk's quota; a run's own settings win over its presets,
except that no dangerous SentencePiece setting survives expansion; every repaired line is
written or skipped, never both, and what is written for it is its canonical text, in pieces
that each fit the length limit; canonicalizing with the default axes is idempotent, since
composition runs after every other axis a run applies, and rewriting a buffer's output again
writes it unchanged and counts no line as changed; every default axis changes nothing on a
second pass, and an axis fires exactly when it changes the line; a skipped check never fails a
run.
