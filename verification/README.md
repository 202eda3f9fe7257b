# kiss-cache

Pruning and publishing for a self-hosted Nix binary cache: a flat directory of `*.narinfo` and
`nar/*` files behind a web server, builders that push to it, and a pruner that deletes everything
that cannot be reached from a garbage collection root.

The decisions are a library, `src/`, written in Verus: every function carries a contract, and the
contracts are proved. What touches the world, such as the file system, the clock, curl and the
terminal, is a thin program around it in `app/`.

## The library

| Module | What it decides |
| --- | --- |
| `store_hash` | which paths and names carry a store hash |
| `binary_cache` | what a narinfo says, and where it is |
| `closure_cache` | the file that remembers narinfos between runs |
| `dep_scan` | the closure of a set of hashes |
| `gcroots` | which store paths are roots: links, marker files, and their names |
| `prune` | what a run keeps, and what it deletes |
| `lock` | the pruner's side of the lock protocol |
| `writer` | the writer's side of it, and how a lock is kept fresh |
| `protocol` | why the two sides exclude each other |
| `with_lock`, `publish` | a publish under a lock: arguments, requests, and their order |
| `cli` | the command line |
| `progress` | progress lines and byte counts |
| `path`, `text`, `byte_set` | Unix paths, text, and sets of byte strings |

Paths are byte strings. Times are integers: nanoseconds for ages and clocks, seconds for
intervals. Where the outside world has to act in between, a function takes what came of the last
action and returns the next one; the caller carries it out.

## What is proved

Each function's `ensures` says what it returns. Beyond that, public proof functions state what
holds of the library as a whole, among them:

- A scan meets exactly the hashes that can be reached from its roots, each once.
- A run deletes exactly those files that nothing which can be reached accounts for; a dry run
  deletes nothing.
- An entry of a roots directory adds exactly the hashes that it names, and a whole search for roots
  leaves out nothing that it meets.
- Loading the closure cache gives back what was saved; from a file that was cut short it gives the
  entries before the cut, or nothing.
- While a pruner holds its lock, nobody else holds one.
- A publish runs its command only under the lock, writes the marker only after the command
  succeeded, and gives the lock back.
- A local marker, and the closure cache, hold their old contents or all of the new ones.
- What a publish writes into its marker is found again as a root.

What is taken on trust are the contracts of a few functions of `rustc-hash`, `lexopt` and the
standard library; each stands next to the call it describes.

## Not pruned

`log/`, `realisations/` and `debuginfo/` are left alone: their keys do not map back to a store
hash. So is every other file of the cache directory that is neither a narinfo nor a file listing.
