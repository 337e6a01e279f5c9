# node_path

Node.js `path` semantics over Rust strings, verified with Verus.

- `src/posix.rs`, `src/win32.rs`: the two explicit namespaces (`normalize`, `join`, `dirname`,
  `basename`, `extname`, `parse`, `format`, `is_absolute`, and the context-taking `resolve`,
  `relative`, `to_namespaced_path` and `matches_glob` forms). Each function is specified by a spec
  function over character sequences (`posix_normalize`, `win32_resolve`, ...).
- `src/lib.rs`: the crate-root functions, which pick the Windows namespace where `\` separates
  paths on the compilation target and the POSIX namespace elsewhere.
- `src/context.rs`: `PathContext`, the cwd and per-drive cwds that context-taking functions read.
- `src/glob/`: `matchesGlob` — brace expansion, glob-to-regex compilation, and matching through
  the `regress` crate.
- `src/shared.rs`, `src/text.rs`: dot-segment resolution, root recognition and string helpers.
- `src/laws.rs`: properties that relate several operations, proved over the spec functions
  (idempotence of normalization, `resolve` after `relative`, `format` after `parse`, ...).
- `app/lib.rs`: what depends on the running process or the build target: the host
  (`current_host`), the path-list `DELIMITER`, the context-free `matches_glob` functions, the
  functions that read the current directory and drive variables, and the error types with
  `Display` and `std::error::Error`.
