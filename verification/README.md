# parser

Documentation for the Lua API of BeamNG.drive, built from a DocGen data dump
and the game's source files, and served as a small web site.

The library in `src/` is verified with Verus:

- `data` — the dump as it is parsed: tables, functions, values, cycles.
- `ir` — the documentation tree: building it from the dump (with the line
  that defines each function), sorting it by name, finding nodes by path,
  listing names, recording call sites.
- `lookup` — source files: finding the calls in each line, the sections and
  definitions shown on pages, the index of files by path, and the look-up of
  every function's callers.
- `markdown_gen` — the markdown of table and function pages.
- `site` — the state of the web site: finding the page for a path and
  rendering markdown into the HTML template.
- `search` — the integer measures that the search ranks by.
- `outline` — a lighter tree with slash-separated full names.
- `text` — the string operations the rest is written with, each with its
  specification.

`app/` holds the command-line tool and the web server: reading files,
parsing JSON, serving HTTP, and the floating-point search ranking.
