# content_scan

A pluggable, hierarchical content-scanning framework whose core is
verified with Verus.

A scanner walks a piece of content (a buffer, a file, a folder, an
archive member), identifies its type through registered identifiers
(magic bytes, file names, extensions or custom tests), runs the analyzers
registered for that type, and asks the extractors for inner content, which
it scans in turn up to a maximum depth. The result is a tree of scanned
objects with their variable maps and findings.

## Layout

- `src/` — the verified library.
  - `scanner.rs`, `builder.rs`: the scan itself and the builder that wires
    plugins together; the result tree stays well formed and within the
    maximum depth.
  - `context.rs`: what analyzers see and the result of a scan (object tree,
    findings, variable maps, extraction requests).
  - `filter.rs`: inclusion/exclusion rules ordered by precedence.
  - `identifier_set.rs`, `matcher/`: pattern matchers (single pattern,
    packed magic lists, tries) used to pre-select candidate types.
  - `plugin_list.rs`, `extractor_list.rs`, `sorting.rs`: plugins indexed by
    content type and priority.
  - `arena.rs`, `extraction_pool.rs`, `content_path.rs`, `utils.rs`:
    supporting data structures.
  - `implementations/`: in-memory contents, folders, ZIP identification and
    extraction.
  - `derive_dependencies.rs`: the `#[Dependencies(...)]` attribute parser.
  - `varmaps.rs`: the `varmap` types the library holds.
- `app/` — the parts that touch the file system or the compiler: file
  contents, folder walking, OS paths, a `Read + Seek` view of a content, and
  the glue of the `Dependencies` derive.
- `tests/` — behavioural tests run against the compiled library.
