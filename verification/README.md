# graph-r

An embedded, persistent knowledge graph: a durable memory of documents, the
links between them and how fresh they are, with local lookups that answer
inside a token budget. Written in Verus: the library states what it does in
contracts and proves it.

## Layout

- `src/`: the library, verified.
  - `model`: what a store means. A base generation and the ops committed since
    are one mathematical graph; every read is a function of it. `readback` says
    what a read gives back of a write.
  - `format`: the two files. `format::base` is the immutable, checksummed,
    sectioned snapshot; `format::wal` the op log.
  - `overlay`, `snapshot`, `traverse`, `path`, `schedule`: reading one
    generation and what was committed on top of it.
  - `writer`, `enrich`, `ttl`, `store`: staging, committing, adaptive
    freshness, opening and recovery.
  - `compact`, `lexicon`, `render`, `rank`, `compaction`: folding everything
    into the next base, byte for byte, and the proof that no answer changes.
  - `tokens`, `matching`, `spread`, `query`: lookups.
  - `bridge`: documents and outcomes of a crawl.
- `app/`: files, locks and threads around the library, floating-point scoring,
  and the optional `bridge` and `python` front ends.
- `tests/`: the library from outside.

## Floating point

Scores and ranks are floating-point numbers, computed in `app/`. The library
takes the bits of non-negative numbers, which order as the numbers do, and
makes every decision between them.

## What is trusted

`xxh3_64` of `xxhash-rust` and, of std, UTF-8 validation, sorting integer rows,
the character classes and lowercase mapping, and appending a character to a
`String`. Each stands behind one small function whose doc comment says what is
claimed of it.
