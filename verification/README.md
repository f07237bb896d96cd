# fswatch

File system watching, verified with Verus.

`src/` is the library. It opens no file and starts no thread: it holds the tables, the comparisons
and the loops of the watchers as functions from plain values to plain values.

- `kqueue`: the watcher on a kernel event queue. `internal` keeps the tables and says what follows
  from an event, `watcher` is its loop as a state machine, `laws` states what holds of them together.
- `watcher`: the watcher that looks again and again. `Watcher` compares two scans, `Poller` is its
  loop, `laws` states what holds of them together.
- `native`: two smaller back ends.
- `normal`: the normal form of a path, and the laws of it.
- `path`, `stat`, `event`, `report`: paths and sets of paths, what the file system says of a path,
  what a client hears, and what a pass over a hash table reports.

`app/` gives the library its threads, its channels and the system calls. It carries out the actions
that the state machines answer with, and hands back what came of them.
