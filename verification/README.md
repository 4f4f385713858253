# Zond engine: the model

The vocabulary a network scan is written in, as a verified Verus library: the
addresses it is aimed at and the ones it must not touch, the order it asks in, and
what it establishes about every host.

- `src/` is the library. Every public function carries a contract over mathematical
  views (`Seq`, `Set`, `Map`) of the types, and Verus proves it. What holds of the
  library as a whole stands beside the types it is about, as public proof functions
  named `lemma_...`.
- `tests/` runs the compiled library on concrete values.
- `app/` is ordinary Rust around it: the clocks of the machine it runs on, std's
  address types, formatting and error traits, and the lookups target expressions need.

The library reads no clock and opens no socket. Whoever reports a finding says when it
was made, and the answers a target expression needs (what `lan` stands for, which
interface `%en0` is, what a host name resolves to) arrive as tables.

| Module | What it is about |
|---|---|
| `model::ip` | addresses, ranges, sets, and the positions of what a set holds |
| `model::parse` | how addresses and targets are written |
| `model::exclusion` | what a scan must not touch, in either spelling of an address |
| `model::order` | a keyed rearrangement of the positions a scan asks about |
| `model::host` | what a scan establishes about one host, and how two records merge |
| `model::finding` | what a detection claims, and what a second account of it changes |
| `model::capture`, `model::mac`, `model::time` | what packets, cards and clocks say |
| `model::port`, `model::target` | what a scan asks each address about |
| `ordered`, `index`, `text` | collections and text, with the contracts the rest needs |

Four functions of the standard library and one lookup of `mac_oui` are trusted rather
than proved; each stands behind a contract that says what is claimed of it.
