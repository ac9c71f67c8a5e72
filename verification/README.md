# xioioi

The core of a small programming-contest judge, written in Verus: what the server
computes is proved against contracts; `app/` holds the HTTP server, the SQLite
database and the embedded web assets around it.

| Path | What |
|---|---|
| `src/text.rs` | characters, searching, replacing, trimming, numbers, code-point order and sorting |
| `src/auth.rs` | the session cookie, token hashing, fresh tokens, password checks |
| `src/db.rs` | problem rows, search options, where problem files lie |
| `src/pkg.rs` | problem packages: the folder prefix, tests, examples and groups, statement rendering and code highlighting |
| `src/frontend.rs` | escaping, percent-encoding, limits, problem rows, examples, templates and pages |
| `app/` | `main`, routes, database queries, embedded templates and static files |
| `tests/` | tests on concrete values |

A package is a zip archive:

```
config.toml    title, time_limit (ms), memory_limit (KiB)
DOC.md         statement (Markdown)
in/_00.in      example, shown under the statement
out/_00.out
in/a00.in      test 00 of group a
out/a00.out
```

optionally all inside one top folder. A problem id is `<zip name>#<first 7 hex
digits of its sha1sum>`; its page is `/p/<name>/<hash>`.
