# fgbo

FlatGeobuf Overviews: an extension of FlatGeobuf (`.fgb`) for tile serving at
every zoom. The library decides what an FGBO file holds and how it is read;
its code is verified with [Verus](https://github.com/verus-lang/verus).

An FGBO file is a plain fgb, a four-byte sentinel, an importance sidecar,
overview levels and segments (each a complete fgb), a directory and a footer
of 32 bytes.

## Layout

- `src/` — the verified library
  - `format`, `le`: footer and directory
  - `importance`, `simplify`, `geometry`, `clip`: vertex importance, filtering,
    clipping
  - `sparse`, `fgb`, `decoder`, `tile`: reading through a cache of fetched
    ranges, sections and their records, the read protocol, what a tile shows
  - `encoder`: what goes into which section, and where the sections lie
  - `http`, `cli`, `text`, `bench`, `synth`: range requests, texts that users
    write and see, sampling, synthetic data
  - `outside`: calls into other crates, with what is claimed of them
- `app/` — the `fgbo` program: files, HTTP, index search, MVT, and all
  floating-point arithmetic
- `tests/` — tests of the library

Coordinates are bit patterns of double-precision numbers in the library, which
compares them but leaves arithmetic on them to functions that its callers hand
in.
