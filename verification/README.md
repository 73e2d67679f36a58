# casier

A command-line client for the casier secrets service, split in two:

- `src/` is the verified library. Every function there carries a contract that
  Verus proves: the `.env` parser, the sorted string map and key set the
  environments are held in, the comparison and diff of environments, the
  sign-in callback parser and its HTTP reply, server URL normalization, the
  project/environment resolution, the offline cache's contents and its UTC
  timestamp (a proved civil-calendar conversion), and the decisions the
  commands take (which server to use, when `run` may fall back to the cache,
  which exit code to pass on, how values are masked).
- `app/` is the program around it: argument parsing, the HTTP client, the OS
  keychain, files, the terminal and the browser. It hands the library plain
  values and acts on what comes back.

Layout of `src/`:

| module | what it holds |
|---|---|
| `text` | character-level specs and helpers: trimming, splitting, decimal and hex text |
| `order` | the byte-wise key order that sorted maps use |
| `strmap` | `StringMap` and `KeySet`, sorted and duplicate-free, viewed as a `Map` and a `Set` |
| `envfile` | the `.env` format, last assignment wins |
| `loopback` | the sign-in callback request and the reply page |
| `api` | the server's records and the routes the client calls |
| `cache` | what the offline cache holds and when it was written |
| `config` | server URL normalization and project/environment resolution |
| `auth` | the token taken from the environment |
| `commands` | the decisions behind each subcommand |

The tests under `tests/` exercise the library on concrete values.
