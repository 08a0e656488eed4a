# sffs

A fast, parallel disk-usage analyzer. This crate holds its verified core
(`src/`, checked with Verus) and the program around it (`app/`).

## Layout

- `src/text.rs` — decimal rendering of integers.
- `src/render.rs` — human-readable sizes (`format_size`), colour gradients
  (`apply_gradient`, `gradient_bar`), with laws on units and gradient end points.
- `src/binary64.rs`, `src/binary32.rs` — IEEE 754 double- and single-precision
  values as integers (significand and exponent), with correctly rounded
  conversion and arithmetic; sizes are scaled in double precision and gradient
  colours interpolated in single precision, exactly as floating-point code does.
- `src/top.rs` — selection of the largest files (`TopFiles`, `merge_top_files`),
  with laws: the merged list is the `n` largest files of the whole scan, and
  the sizes it shows do not depend on how files were spread over threads.
- `src/walker.rs` — per-thread counting of walked entries, totals (with the
  law that they do not depend on how entries were spread over threads), the
  search for the parallelism hint over the roots, and the choice between a
  serial and a parallel traversal.
- `src/scan.rs`, `src/cli.rs` — the scan summary and the scan options.
- `src/benchmark.rs`, `src/fixture.rs` — benchmark scenarios, the fixture tree
  each one creates with the totals a scan must report, summary validation and
  medians.
- `src/reference_args.rs` — the command line of the benchmark reference tool.
- `app/` — `main`, directory traversal (through `ignore`), file I/O, command-line
  parsing (through `clap`), JSON (through `serde`), and floating-point timing.
- `tests/` — tests of the library.
