# waverunner

The rules of a dock, launcher and clipboard box for Wayland desktops, as a Verus
library, and the ordinary Rust around them.

`src/` is the library. Verus proves its functions against their contracts, save
for those that only call outside code, which are named below; of a fresh
`Searcher` there is nothing to state. Nothing in the library reads a file, a clock
or the environment. Moments come in as milliseconds, files as text or bytes,
windows and pointers as plain values, and what is to be done outside goes out as
a value.

| module | what it holds |
| --- | --- |
| `applier` | the declarative package list, installing, removing, batches, the wait for a rebuild |
| `apps`, `index` | the entries of the launcher, icons and their caches, `.desktop` files |
| `search`, `order` | fuzzy ranking over `nucleo-matcher`, stable sorting |
| `content`, `scene` | the grid of a section, hit tests, what a frame draws |
| `dragging`, `boxes` | drags, gaps, drops, boxes of applications |
| `clipboard`, `clip_state`, `clip_view`, `clip_source` | classifying, keeping, showing and serving clips |
| `dict`, `emoji` | the dictionary panel and the emoji picker |
| `deck`, `deck_audio`, `deck_thumbs` | the row of window tiles |
| `focus_cycle` | walking the windows, restoring a workspace's focus |
| `battery` | the alarm ladder and the sleep that guards a session |
| `files`, `paths` | listings and navigation |
| `config`, `animation`, `client`, `action_track` | settings, timelines, the command line, answered offers |
| `text`, `json` | characters, lines and words; reading and writing JSON |

Functions named `law_…` state what holds across several functions.

The functions marked `#[verifier::external_body]`, and the one
`assume_specification`, are what is believed of outside code, without proof. Each
names the function it calls and says what is claimed of it.

`app/` draws, reads, runs and listens: pixels, springs and scores are floating
point and stay there. `tests/` runs the library with its outside crates.
