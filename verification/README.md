# GTNH Daily Updater

The rules of a desktop updater for GregTech: New Horizons daily builds on Prism
Launcher, written in Rust and proved with Verus. An update makes a brand-new
instance and leaves the old one untouched: configs are merged three ways against
the version they came from, mods that were dropped or added are put to the user,
and everything else just moves.

## Layout

`src/` is the library. Every function in it has a contract, and what holds of
several of them together stands at the end of its module as a public proof
function whose name starts with `law_`.

| module | what it does |
| --- | --- |
| `text`, `textmap`, `order` | texts, maps from texts and stable sorting, with their definitions on sequences |
| `util`, `state`, `ini` | sizes, paths, dates, what an instance is on, `instance.cfg` |
| `merge`, `editor` | three-way merge results as conflicts, and editing them |
| `mods`, `plan`, `snapshot` | what happens to every mod and every file, and where originals come from |
| `renaming` | that a plan does not depend on what the folder of configs is called |
| `apply` | the steps that put a plan into the staged instance and move it into place |
| `github`, `httpzip`, `pack` | finding a build, reading a remote zip by ranges, re-rooting a pack |
| `prism`, `groups` | instances, launch settings, `instgroups.json` |
| `worker`, `wizard`, `cli`, `run` | the order of work, the screens, the command line |

`app/` is the program around the library: files, network, threads and windows. It
asks the library what to do next, does it, and reports back.

`tests/` runs the library on concrete values.

## What is taken on trust

The library calls a few functions of other crates and of the standard library.
What it relies on is stated at each of them: `diffy`'s merge in `merge`,
`crc32fast::hash` in `plan`, `serde_json`'s reading and writing in `groups`, and
UTF-8 decoding, lower-casing and `String::push` in `text`.
