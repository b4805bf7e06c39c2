# tenuki

A translation backend for game text, as a verified library. Each text is
planned into fragments and protected structure, each fragment is looked up
in the dictionary, taken apart by a split rule, or sent to a language model,
and the result is rendered back around the structure it came from. Number
markers travel to the model as transport numbers and are restored after.
Besides the translator, the library holds the `dict.bin` format, the
dictionary rule files, the file-translation intake (delimited and JSON
tables), the server's request rules and the engine and restart decisions.

Layout:

- `src/` — the library, written in Verus: every function carries a
  contract, and the laws that tie functions together are proof functions.
  Calls into outside crates (serde_json, csv, regex, dashmap, rustc-hash,
  urlencoding) stand behind small trusted wrappers whose contracts say what
  the crates' sources show.
- `app/` — a command-line front end: reading files and standard input,
  the HTTP client for the model, and threads.
- `tests/` — tests of the library on concrete values.
