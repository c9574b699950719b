# moose_rack_core

The rules of a home game library, proved with Verus: who may ask the service for
what, which way a save travels and when it is a conflict, how the stars on a
handheld and the lists on a server are brought to agree, and how a handheld's own
files are changed so that the change can be taken back.

The library in `src/` does no I/O. It is told what was found (`disk`, `es`,
`save_store`, ...) and answers with what is to be said, written or asked next; long
runs are state machines (`flows`, `jobs`, `favcarry`) that a program drives one step
at a time.

## Layout

| | |
|---|---|
| `src/auth.rs`, `src/service.rs`, `src/web.rs` | credentials, sessions, the door of the service, uploads, the commands of the interface |
| `src/library.rs`, `src/collections.rs` | what the service answers about games, platforms, firmware and curated lists |
| `src/saves.rs`, `src/save_store.rs`, `src/legacy.rs` | negotiating saves, listing what is stored, moving what is stored under old ids |
| `src/blocks.rs`, `src/patch.rs`, `src/knulli.rs` | marked blocks in config files, and patches made of reversible steps |
| `src/gamelist.rs`, `src/eslist.rs`, `src/xml.rs` | EmulationStation's gamelists, collections and settings, edited as text |
| `src/favmap.rs`, `src/favsync.rs`, `src/favrun.rs`, `src/favcarry.rs` | stars and lists: what is on the card, what moves, and carrying it out |
| `src/es.rs`, `src/esctl.rs`, `src/procs.rs` | keeping EmulationStation out of the way |
| `src/model.rs`, `src/rows.rs`, `src/sync.rs`, `src/worker.rs`, `src/jobs.rs` | the handheld's panel and its jobs |
| `src/desktop.rs`, `src/flows.rs` | the runs behind the desktop window |
| `src/*_laws.rs` | what holds across functions |
| `src/text.rs`, `src/lines.rs`, `src/number.rs`, `src/order.rs`, `src/paths.rs`, `src/path_set.rs`, `src/table.rs` | text, numbers, paths and maps the rest is stated over |
| `src/crypto.rs` | what is taken from other crates: hashes, encodings, key derivation, randomness |
| `tests/` | the rules on concrete values |
| `app/` | the programs around the library: the HTTP service, the panel's jobs, the desktop window |

`app/rack.rs` and `app/window.rs` call the backend crate `moose_rack` and the Tauri
toolkit.
