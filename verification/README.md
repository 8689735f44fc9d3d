# sigmut

Building blocks of a reactive state management runtime, each proved against
its contract.

- `runtime`: dirty levels and their join (`dirty`), the dependency tables a
  source keeps of its dependants and the record of the sources a computation
  reads with the update and check of a computation and of a scan
  (`bindings`), the scheduling tables with queues by kind and wake-ups
  (`scheduler`), the order in which a flush runs them (`flush`), and the
  hand-over of a context to callbacks (`context_channel`).
- `change_feed`: a latest value with the changes recorded since each reader's
  previous read; readers advance independently, and changes are released once
  no reader needs them: when an edit is finished, a reader is read or
  released, or `compact` is called.
- `collections`: a keyed store that reuses freed keys (`slots`), stable sorting
  by a total order (`sorting`), an observable vector (`vec`) and an observable
  map with store-chosen keys (`slab_map`), whose recorded changes rebuild a
  reader's copy and report the values they remove or replace.
- `reactive`: the phases of the reactive context (notifications and bindings
  exclude each other), small state holders of scans, and the step of a scan
  that drops repeated values (`dedup_load`).

`app/` holds what runs around the library: the thread-local scheduling tables
with wakers that reach them from other threads, the flush loop that runs
actions, reactions, discards and deferred unbinds in the library's flush
order, and serde support for `StateVec`.
