# novaenv

A manager for local development runtimes (Java, Node.js, Go, Maven,
Python, with a Rust adapter) and services (Redis, MySQL, a vision helper),
written as a library verified with Verus and a thin command-line program
around it.

## Layout

- `src/` — the verified library.
  - `text`, `order`, `sorting`: characters and strings, version orders,
    stable sorting.
  - `models`: the data handed to and from callers.
  - `platform`: paths (`PathBuf::join`, components, `starts_with`) and the
    managed block of `~/.zshrc`.
  - `activation`: switching the default version (`~/.zshrc` block or a
    PowerShell script).
  - `installer`: the managed directory, release lists grouped by major
    version, download addresses, install and uninstall decisions.
  - `feeds`: the JSON release pages of Adoptium, nodejs.org and go.dev,
    parsed with serde_json and read into release lists.
  - `progress`: when a download reports its progress.
  - `cache`: the release lists kept in memory for five minutes.
  - `runtimes`: the adapters, the places each runtime is looked for, the
    scan of candidate directories and the overview.
  - `services`: Redis, MySQL, launchd agents, the vision helper, log tails.
- `app/` — the program: file system, processes, network, archives and
  its own JSON input and output; it hands the library plain values and
  acts on its answers.
- `tests/` — tests of the library on concrete values.

Contracts are stated over the views of the data; the laws (orders,
grouping, read-back of written configuration, idempotent and repeated
switching, caching of release lists, escaping) are public proof functions
next to the functions they relate.
