# mdbook-sitemap

An mdBook backend that writes `sitemap.xml` for a book: the URL of every chapter page,
with its change frequency, priority and (optionally) today's date.

- `src/` is the library, verified with Verus: the table of contents and the page URLs it
  yields (`book`), source paths to page paths (`paths`), XML escaping and the sitemap document
  (`xml`), the settings and the base URL (`config`), the whole sitemap of a book (`generate`),
  the calendar date of a day since the UNIX epoch (`calendar`) and today's date (`clock`).
- `app/` is the program that mdBook runs: it reads the book's JSON from stdin, parses the
  `[output.sitemap]` settings, calls the library and writes the file.
- `tests/` runs the library on concrete books, paths and dates.
