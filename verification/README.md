# schist

A small columnar database library, written in Verus: the storage format, its
indexes and codecs, the query operators and the planner are executable Rust whose
behaviour is stated in contracts and proved.

- `src/` is the library. Every public function says in its contract what it returns
  or changes, over plain mathematical models; what holds across functions (that a
  read gives back what was written, that a compiled program computes what its
  expression means) stands beside them as public proof functions.
- `tests/` runs the library on concrete values.
- `app/` is the command-line tool, with what needs files or floating point.

Reals are held by their bits. Where arithmetic on them, or their text, is needed,
the library looks it up in a table (`numeric::Reals`, `numeric::RealTexts`) and
reports the entry that it lacks, so that a caller can add it and ask again. For
CSV, `csvio::try_import` and `csvio::try_export` report; `csvio::import` reads a
real that the table lacks as null, and `csvio::export` writes one as an empty
field.
