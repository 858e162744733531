# spydir

Watches a directory tree. Each run records every regular file (its MD5
digest, its modification time as `yymmddHHMMSS` in local time, and its path
relative to the watched directory) and every empty directory, in a text file
under `.spydir/`, and reports what was added and removed since the previous
record.

- `src/` is the verified library: the record's line format and its reading
  back (`item`, `result::last`), the comparison of two records and its report
  (`result::diff`), the making of a new record from a scan (`result::new`),
  the scan's rules (`walk`), path normalization (`cli`), and supporting facts
  (`text`, `seqs`, `sort`).
- `app/` is the command-line program: argument parsing, directory walking,
  file reading and writing, and hashing on a thread pool.
- `tests/` exercises the library on concrete values.
