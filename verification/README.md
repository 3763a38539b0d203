# sum_modpack

Reads a modpack file (an HTML export of a Steam Workshop collection), collects the
workshop IDs it links to, asks the Steam Web API for the items' details and prints a
table of their file sizes with running totals.

- `src/` is the verified library:
  - `modpack.rs`: reading workshop links out of a modpack file, removing repeated IDs;
  - `payloads.rs`: the request and response of `GetPublishedFileDetails`;
  - `stats.rs`: turning item details into mods, sorting them and computing the table
    rows, and the display of file sizes;
  - `decimal.rs`, `text.rs`: decimal digits, and the calls into `std`, `num-format` and `regex`.
- `app/` is the command-line program: argument parsing, logging, reading the file, the
  HTTP request, JSON and form encoding, and drawing the table.
- `tests/` holds the tests of the library.
