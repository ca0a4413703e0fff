# kolmox

Normalized Compression Distance (NCD) between text documents, verified with
Verus.

- `src/compress`: the `Compressor` trait, Brotli and Zstandard compressors,
  length caches, and the NCD as an exact numerator and denominator.
- `src/filter`: HTML normalisation (attribute filtering, filter pipelines,
  `<main>` extraction) and article text extraction with its text clean-up.
- `src/metric_tree`: vantage-point and BK trees answering "is any item within
  this radius of the query", stopping at the first item found.
- `tests/`: tests of the library.
- `app/`: the benchmark command line, plotting and the Python-facing helpers,
  built on the library.
