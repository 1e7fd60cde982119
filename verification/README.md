# rgx

Fast indexed regex search, verified with Verus.

`rgx` builds a sparse n-gram index over a source tree once, then answers regex
queries by pruning files through the index and verifying the candidates exactly
with `regex`.

- `src/` is the library. It takes and gives bytes and never touches a file.
  Every function is verified against its contract.
- `app/` is the program: the walk over the tree (`ignore`), memory mapping
  (`memmap2`), threads, file I/O and timing.
- `tests/` run the library with the real outside crates.

## What is proved

- Every covering n-gram of a literal is an n-gram of each document that
  contains the literal (`ngram::covering_grams_occur_in_document`). There are at
  most `n - 2` of them, none can be left out
  (`ngram::no_covering_gram_can_be_left_out`), and there are at most `2n - 2`
  n-grams to index.
- A built index opens, and gives back the paths, times and sizes of its files
  and for each key exactly the files that have it
  (`roundtrip::built_index_opens`). Whatever was built opens
  (`roundtrip::built_index_is_accepted`); a table that was cut off short does
  not (`roundtrip::truncated_index_is_rejected`).
- An update makes the index that a build from nothing would, byte for byte, as
  long as the cache can be trusted (`incremental::update_equals_fresh_build`),
  and reads nothing if nothing changed. Cached files are found by the components
  of their paths (`paths::keys_tell_paths_by_components`). A cache that was cut off short is not
  used (`incremental::truncated_cache_is_rejected`).
- The candidates of a query are exactly the files that have every n-gram of a
  prefix literal and of a suffix literal
  (`search::candidates_are_the_passing_files`). Pruning loses no match
  (`search::candidates_lose_no_match`), so a search, case-sensitive or not,
  finds what brute force would (`search::search`), and a run prints the same with
  the index as without (`cli::indexed_run_prints_what_brute_force_does`).
- Swapping in a rebuilt index leaves a whole index in place, or none, at every
  step (`publish::publication_stays_safe`).

## What is trusted

The contracts of the calls into `regex` (compiling, `find_iter`, `is_match`),
into `regex-syntax` (parsing and literal extraction), and of
`String::from_utf8_lossy` and `String::push`. Each stands at its call.
