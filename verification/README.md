# airdatable

A client for the Airtable REST API, and a routine that mirrors a collection of
application objects into an Airtable table.

- `src/` is the verified library. `airtable` plans the requests
  (endpoints, methods, URLs built with the `url` crate, classification of
  responses), pages through listings (`airtable::listing`) and writes records
  in batches of ten (`airtable::batching`). `sync` decides, for each object,
  whether its mirror record is updated, skipped or created, and reports the
  outcome.
- `app/` is the async transport around it: `reqwest` requests behind a
  `governor` rate limiter, `serde` (de)serialization, and the error types with
  `thiserror` messages.
- `tests/` exercises the library, including two rounds of a sync against an
  in-memory table.
