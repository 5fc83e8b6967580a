# json_sweep

Fan out a base JSON config into N variants by sweeping values along one or
more axes (`jswp [BASE] PATH=GEN [PATH=GEN...]`), with the library's logic
verified by Verus.

- `src/` — the verified library:
  - `json.rs`: the JSON values (objects sorted by key, numbers as the text
    `serde_json` writes), reading and writing them through `serde_json`;
  - `text.rs`: byte-level helpers: identifiers, whitespace trimming,
    integer and float literals, slicing at character boundaries;
  - `path.rs`: the path grammar (`a.b[3][k=v].{x,y}`), its expansion into
    axes, and rendering paths back to text;
  - `generator.rs`: the generator grammar (lists, integer and stepped
    ranges);
  - `merge.rs`: deep merge and writing a value at a path;
  - `sweep.rs`: cartesian and zipped combination of axis values;
  - `cli.rs`: the command line's decisions and error reports;
  - `io.rs`: the base source, output envelopes, file names.
- `app/` — the `jswp` binary: argument parsing, stdin and file I/O, output,
  and the floating-point walk of stepped ranges.
- `tests/` — tests of the library.
