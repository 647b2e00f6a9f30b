# eventstore

An embedded, append-only event store, with its logic proved correct.

- `src/record.rs`: the record format (a `u32` length, a CRC-32C over the length field
  and the payload, then the payload) and the paranoid read of one record, in typed
  steps that cannot be taken out of order.
- `src/log.rs`: the log as a sequence of records, the scan from offset 0, recovery at
  open (a last record that fails verification is a torn write and is cut off; a failing
  record with bytes after it refuses the file), and appends. Laws: a read gives back what an append wrote, appends
  never change earlier reads, a torn write never happened, recovery keeps every record
  that verified.
- `src/event.rs`: the event frame (stream id, version, data) and its round trips.
- `src/store.rs`: the per-stream index rebuilt at open, with contiguous versions, and
  reading a stream. Laws: the index lists each stream's events in log order with versions
  0, 1, 2, ..., and each listed offset reads back as that event.
- `src/error.rs`, `src/text.rs`: errors and their messages.
- `app/`: the file side (open, read, write, sync, truncate) and a small command line.

The library works on bytes: what the file holds is handed in as a byte slice, and what
must be written comes back as bytes.
