# Chronoscope

A triage collector for incident response. It reads forensic artifacts of a
Windows host and puts what they say on one timeline.

The library (`src/`) is verified with Verus: its functions state what they
return for every input, and no input makes one panic. The exception is what
rests on the system clock: of a reading only that it is a timestamp is stated,
and reading the clock panics where it stands before 1970. The clock is read
only for events that have no other time. The program (`app/`) walks
directories, reads files and writes the timeline.

| Module | What it holds |
| --- | --- |
| `timeline` | the event model, timestamps and FILETIMEs, chronological order, CSV records |
| `artifacts/reader` | bounds-checked little-endian reading, at an offset and in sequence |
| `artifacts/lnk` | shortcuts (MS-SHLLINK) |
| `artifacts/evtx` | event logs: chunks, records, BinXML, template instances |
| `artifacts/mft` | the Master File Table: FILE records, update sequence, timestomp detection |
| `artifacts/prefetch` | prefetch files, compressed or not |
| `artifacts/xpress` | Xpress Huffman decompression |
| `artifacts/collect` | which parser a file goes to |
| `text` | numbers, UTF-16 and UTF-8 in text |

The proof functions whose names start with `law_` state what holds of several
functions together, for instance that a truncated table or log gives the first
of the events that the whole one gives.

What is believed without proof is small and stands in three places: calls of
chrono in `timeline/time.rs`, calls of serde_json in `timeline/json.rs`, and
three functions of std in `text.rs`.

## Usage

```
chronoscope collect ./triage-export --out timeline.jsonl
chronoscope collect ./triage-export --out timeline.csv --format csv
chronoscope parse-lnk suspicious.lnk
chronoscope parse-prefetch CMD.EXE-12345678.pf
```
