# cdi

Resolves Container Device Interface (CDI) devices, requested by qualified names such as
`vendor.com/gpu=0`, into the bind mounts of device nodes that a sandbox needs.

- `src/` is the verified library. It works on what was read from the specification directories
  and on which device nodes exist, and touches no file itself. `src/laws.rs`,
  `src/search_laws.rs` and `src/outcome_laws.rs` state what holds of it as a whole.
- `app/` reads the directories and specification files and asks which nodes exist.
- `tests/` runs the library.

When the specification directories are read, a directory that comes first takes precedence over
those after it. A device that one directory defines more than once is invalid, and a file that
holds no specification is ignored until a requested device turns out to be missing.
