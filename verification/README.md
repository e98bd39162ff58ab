# repsetarr

Set algebra for movie and show lists, with its logic proved by Verus.

Repsetarr reads lists from elsewhere (MDBList, a Radarr or Sonarr library,
a JSON feed), combines them with union, difference, intersection and
symmetric difference, and serves the result in the shapes Radarr, Sonarr and
Kometa consume. Items from different sources are the same item when they
share any external id, transitively.

## Layout

- `src/` is the library, every function of it verified:
  - `text`, `doc`: strings and the loosely typed documents that YAML and JSON
    parse into;
  - `config/`: loading `config.yml`, `${VAR}` interpolation, validation and
    compilation into a runtime with each list's dependencies resolved;
  - `expr/`, `filter/`: the list-formula language and the filter language,
    their lexers, parsers and evaluation;
  - `identity`, `chains`: the interner that groups items sharing an id;
  - `lists`, `collection`, `api`: evaluating lists and rendering them;
  - `sources/`, `enrich`, `refresh`, `cache`, `meta`, `clock`: the decisions
    around fetching, enriching and caching, as state machines and pure steps.
- `tests/` runs the library on concrete inputs.
- `app/` is the program around it: argument handling, the HTTP server, file
  and network I/O, and the loop that performs what the library decides.

Calls into outside crates (YAML and JSON parsing, regular expressions,
date and duration parsing, `IndexSet`, the clock and the random shuffle) go
through small trusted wrappers whose contracts say what those crates
document; everything built on them is verified against those contracts.
