# dedup

A command-line tool that indexes files across folders in an SQLite database
and reports duplicate files, checked with Verus.

- `src/` is the verified library: reading sizes such as `10MB`, file
  identities and the mount table that tells devices and network shares
  apart, what the fast and full hashes read and how they are computed
  (BLAKE3 and MD5 through the `blake3` and `md5` crates), the search for
  duplicates among the indexed files and its cutting into groups, the rows
  stored in the index and its statistics, the CSV and JSON exports, and the
  folder selection.
- `app/` is the program around it: command line, file system walking and
  reading, `/proc/self/mounts`, SQLite, dialogs, progress bars, and writing
  the exports.
- `tests/` runs the library on concrete values.

Usage:

```bash
dedup index /path/to/folder --fast-hash --full-hash
dedup update /path/to/folder --fast-hash --full-hash
dedup dup --by full --min-size 10MB
dedup export --by full --csv duplicates.csv --json duplicates.json
dedup stats
```
