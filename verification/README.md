# Duckomp

A family of lossless compressors and of experiments with offsets and seeds.

The library, under `src/`, is executable Rust whose behaviour is stated in `requires` and `ensures`
clauses and proved by [Verus](https://github.com/verus-lang/verus). It never reads or writes files:
it takes bytes and numbers and gives bytes and numbers back. The program under `app/` reads the
files, measures entropy, talks to the graphics processor and prints.

## The archive format

- `archive` makes archives, `container` writes and reads their headers and unpacks them,
  `folder` orders and lists the files of a folder, `paths` keeps extracted files inside the target
  folder.
- `stages` runs the dictionary stages in memory; `chunked` decides them for data that is kept in
  chunks outside memory.
- `sampling`, `windows`, `crossref` and `candidates` choose the strings of a dictionary; `dict`
  codes with it.
- `chunk` chooses the coders for a chunk: `egap`, `egap_codes`, `kraft` and `segments` (prefix
  codes), `lz77` and `lz77_model` (back-references), `deentropy` (byte transforms).
- `bits`, `bytes`, `sort`, `rounding` and `memory` are what these are built on.

The central law is that an archive, made in memory or chunk by chunk, unpacks to what it was made of:
`archive::lemma_archive_holds`. For a folder, `archive::lemma_folder_restored` says that every file
comes back under its path.

## Numbers and seeds

- `natural` wraps `num_bigint`; `fitting` and `solver` write a number as a short sum of
  `coefficient * base ^ exponent` terms, and `reading` says what a written sum means; `offsets` and `report` fold a list of numbers into one.
- `pond` lists every list of offsets in a range.
- `lcg` plans the search for the seed of a linear congruential generator.

## Repeated strings

- `repeats` plans the passes over a file that find a repeated byte string; `scanning` samples a file
  and searches it piece by piece, `substrings` holds what is made of the hits, `tally` counts.
- `spans` parts its offsets into runs for polynomials; `coefficients` and `shorthand` abbreviate the
  equations and `decoding` reads them back; `display` and `text` format.

## Measurements

Entropy, logarithms and polynomial fits are floating point. The library takes their outcome, as a
band or as an integer score, through a function argument, and its contracts hold whatever that
function returns.
