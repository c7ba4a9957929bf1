# Breadth-first search by many workers

A library of level-synchronous breadth-first searches whose work is spread over
workers, written in Rust and proved with Verus. Whatever way the workers talk,
their tables together end up as the distances from the source: `shortest_distances`
in `src/model.rs` says what that means, and the proof functions beside each
strategy show it.

## The library (`src/`)

- `model`: walks, distances, and one synchronous level over a table.
- `graph`: neighbor lists in one array (`csr`, and how they lie in it: `layout`) or
  one by one (`adjacency`), grids and the distances in them, edge lists (`.el`) and
  the binary format of the GAP benchmark suite (`.sg`).
- `partition`, `worker`, `lockstep`, `session`: how nodes are dealt out, what one
  worker does at a level, what all workers have together, and a worker's way
  through its trials.
- `strategies`: one all-to-all exchange per level (`all_to_all`,
  `all_to_all_numa`, `exchange`), a frontier that is reduced and broadcast
  (`broadcast_reduce`, `frontier_reduce`, `broadcast`), single nodes with flushes
  (`signals`), two delegates with thread pools (`delegates`), and one table with a
  thread pool (`shared_table`). Each is also there as a whole search in which the
  workers take turns in one thread (`turns`, `in_process`, `delegate_runs`), and what
  such searches leave is in `outcome`.
- `message`, `words`, `raw_bytes`: what travels between workers, byte for byte.
- `sequential`, `validator`, `sources`: the search that results are held against,
  the comparison, and the seeded choice of sources.
- `moments`, `timestamps`: which moments a run writes down, in which order, and how
  many levels there are.
- `numa`, `parallel`, `groups`, `params`, `text`: placement of memory and threads,
  the thread pool, groups of workers, parameters and results, and text.

What the library takes on trust from `bytes`, `rand`, `rayon` and the standard
library is marked `external_body` or `assume_specification`, each with a comment
that says what is claimed.

## The program (`app/`)

`app/` does the input and output: arguments, files, threads, channels and system
calls. Workers of a burst run in one process and talk over channels. Its commands
are `burst`, `signals`, `frontiers`, `threads`, `rayon`, `rayon-numa`, `validate`
and four programs that watch where memory goes (`numa-affinity`, `numa-local`,
`numa-communicated`, `numa-comm-async`).

## Tests (`tests/`)

Each strategy is run on small graphs and compared with the sequential search; the
formats, messages, plans and edge cases have tests of their own.
