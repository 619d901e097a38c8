# xml_proc

Reads the `CREATE TABLE` statements of a SQL dump, works out each table's
columns and their primary and foreign keys, and writes a small XML mapping
document.

- `src/` is the verified library (Verus):
  - `text` — character helpers: byte order of keys, substring search,
    `trim_end`-style statement ends, splitting at a character;
  - `scanner` — cuts a dump into the statements that mention a word;
  - `pattern` — regular expressions of the `regex` crate;
  - `sql` — tables, columns and keys read from the statements;
  - `xml_generator` — XML elements and their documents;
  - `mapping` — the mapping document the program writes;
  - `systemtrayerror` — the program's error type.
- `app/main.rs` is the program: it reads `keb3.sql`, prints the tables and
  writes `sample.xml`.
- `tests/` holds the tests.
