# traces

The index and query core of a Markdown workspace, written in Verus.

A workspace is a folder of files. Those with a Markdown name are notes: they
have frontmatter, inline fields, tags, lists with tasks, and links. The library
keeps an index of the files with their notes and inbound links, brings it up to
date from what changed, and answers queries over it.

- `src/` is the library. Every function there states what it returns, and the
  statements are proved. Proof functions named `law_...` state what holds across
  several functions.
- `tests/` runs the library on concrete values.
- `app/` is ordinary Rust around it: the file system, the database, the
  environment, floating-point numbers and serialization.

Paths keep the text they were written as, and are compared by their components.
Doubles are held by their bits, with the text they are shown as; words that read
as numbers are looked up in a table that the caller fills. What comes from other
crates (Markdown events, YAML documents, hashes, tables, stored rows, dates) is
used through a few trusted functions, each of which names the function it calls
and what is taken for granted of it.
