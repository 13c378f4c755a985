# ks-cli

The command-line front end of `ks`, a local-first secret manager built on the
age encryption format, with its decisions verified by Verus.

- `src/` is the verified library `ks_cli`: exit codes, the `--json` mode,
  confirmation guards and passphrase sourcing, POSIX and PowerShell quoting,
  `${KS:path}` and `${KS:path:field}` template markers, the tree listing of
  `ks ls`, the `ks doctor` report, recipient-list edits, `KS_AUDIT` / `KS_CLIP_TIME` /
  `$EDITOR` handling and the `--json` view of a secret. Every public function
  states its result in `ensures`; laws that span functions are public proof
  functions.
- `tests/` runs the library on concrete values.
- `app/` is the program: argument parsing, the store and crypto calls of the
  `ks` library, terminal, clipboard and process I/O, and process hardening.
