# dbprimkit

Building blocks for databases, verified with Verus:

- `ringbuffer`: a bounded ring buffer, first in, first out.
- `appender`: appending to rotations, with names, numbers and a limit on their number.
- `wal`: a write-ahead log. Entries get consecutive log sequence numbers (LSNs), are laid out in
  checksummed records and blocks, and can be replayed from any LSN that is still needed.

The library in `src/` computes on plain values. Files, threads and clocks are in `app/`, which
performs what the state machines of the library ask for and hands the outcome back.

## The log

| Module | What it holds |
| --- | --- |
| `wal::config` | the configuration and how its sizes are put right |
| `wal::disk` | records, block headers and manifest entries as bytes |
| `wal::names` | the names of the data rotations |
| `wal::control` | what the writer and its flushing thread share |
| `wal::flush` | what the flushing thread writes, and when |
| `wal::task` | the rounds of the flushing thread |
| `wal::reader` | the search for the first block of a replay, and the iterator |
| `wal::restore` | what is found out when a log is opened |
| `wal::instance` | the log as its users see it |
| `wal::layout` | how records lie in blocks, and that they are read back |
| `wal::replay` | that a log that holds certain entries is replayed as these |
| `wal::writing` | what the flushing thread does to the files, step by step |
| `wal::written` | that what was taken is held, published, read back and found again |
| `wal::written::sessions` | that this goes on over any number of sessions, wherever each of them stops |

What is trusted about other crates and about the standard library is in `outside`.
