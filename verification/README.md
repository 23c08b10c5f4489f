# cosmic_ctl

A command-line tool for the configuration of the COSMIC desktop, whose entries
live under `$XDG_CONFIG_HOME/cosmic/<component>/v<version>/<entry>`: write, read
and delete one entry, apply a JSON file of operations, back every entry up to
such a file, and reset (delete) all entries but those matched by exclusion
patterns.

The library under `src/` is verified with Verus:

- `text`: characters of strings, Unicode whitespace trimming, decimal numbers.
- `paths`: Unix path components and pushes, the configuration directory, the
  file of an entry and the entry of a file (with the round trip between them).
- `braces`: comma-separated lists whose commas inside braces do not separate.
- `schema`: the operations file.
- `config`: the decisions and messages of reading, writing and deleting.
- `apply`: the steps that applying a file takes, and their tally.
- `backup`: grouping the entries read into a backup file (applying it writes
  them all back).
- `exclude`, `glob_pattern`: exclusion patterns for a reset.

`app/` holds the command itself: arguments, environment, files and printing.
