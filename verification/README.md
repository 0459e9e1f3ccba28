# lave_core

The business logic of Lave Station, a desktop application for a Docker daemon, written
in Verus: executable Rust whose behaviour is stated in contracts and proved.

## Layout

- `src/` is the verified library.
  - `engine/` holds what the daemon reports, as plain data; `engine/convert.rs` makes it
    from what comes over the wire, and `engine/error.rs` puts failures into words.
  - `endpoint.rs` decides which daemon to talk to; `activity.rs` is the state machine
    that keeps the connection, and `indicator.rs` shows it.
  - `model/` is what the window shows: the sidebar (`tree.rs`), the tables (`table.rs`),
    the pages (`detail.rs`), the actions on offer (`action.rs`), relations between images
    and containers (`relations.rs`), memory samples (`metrics.rs`), logs (`logs.rs`), an
    image's reconstructed Dockerfile (`dockerfile.rs`), a container's files
    (`fs_tree.rs`), and the arrangement of groups and tabs (`layout.rs`, `tabs.rs`).
  - `settings.rs` holds the view preferences, `cli.rs` the command line's options.
  - `text.rs`, `lists.rs`, `ordered.rs`, `arrange.rs` and `binary64.rs` are what the rest
    is built on: texts, lists, a map in the order of its keys, a stable sort, and exact
    binary floating point on integers.
- `tests/` runs the library.
- `app/` is the unverified rest: the `bollard` client and a test double behind one
  asynchronous trait, `clap`'s parser, and the process's environment and files.

## Conventions

Every type has a view that contracts speak of, reached with `deep_view()` or `@`. Each
function's result is stated as a spec function of the views of its arguments. Proof
functions named `law_...` state what holds over several functions; those named `lemma_...`
are steps towards them.

Floating point is held as its bits (`u64`), offsets from UTC as seconds, and paths as text.
