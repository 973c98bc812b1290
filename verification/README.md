# run_make_support

Support code for run-make tests: the platform-dependent names of build
artifacts, path and file-name predicates, search-path lists, text helpers and
the comparison of directory trees, verified with Verus.

- `src/` is the verified library. `targets` and `naming` compute artifact names
  from a target triple; `paths` models `/`-separated paths (joining, file names,
  extensions); `search_paths` splits and joins `:`-separated lists; `text` holds
  substring search, trimming and line splitting; `files` filters directory
  listings and decodes bytes lossily; `pattern` counts lines matched by a
  regular expression (through the `regex` crate); `tree` compares directory
  trees; `interner` holds the interner's value types.
- `app/` reads the environment and the file system, runs commands, and panics
  where a check fails, calling the library for every decision.
- `tests/` runs the library on concrete values.
- Paths and search-path lists are modelled as bytes, as a Unix host holds
  them: paths separated by `/`, lists by `:`; Windows path prefixes and `;`
  lists are not modelled. `tree` also plans a copy of a directory tree and
  proves that carrying the plan out puts every file and directory of the source
  at its place in the copy.
- The interner's implementation of the trait solver's `Interner` trait is not
  here: it is written over types of crates that cannot be had (the analyzer's
  own definition and database crates), so only the interner's value types
  stand in `src/interner.rs`.
