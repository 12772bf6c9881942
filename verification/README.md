# i18n_core

Core logic of an i18n workspace tool for vue-i18n / i18next style projects:
it finds locale files, parses JSON and YAML translations into per-locale key
trees, resolves linked messages (`@:key`), finds translation calls in source
code, and plans edits (add, rename, remove, fill missing keys).

The library is written in Verus: each public function carries a
`requires` / `ensures` contract and the crate is verified as a whole.
Calls into `regex`, `jsonc-parser`, `saphyr`, `serde_json` and a few `std`
string functions sit behind small trusted wrappers whose contracts restate
what those crates document.

Layout:

- `src/` — the verified library, one module per concern (`keytree`, `index`,
  `linked`, `scan`, `framework`, `position`, `mutation`, `parser`, `editor`,
  `tools`, ...). Laws that relate several functions are public `lemma_*`
  proof functions beside the functions they speak of.
- `tests/` — ordinary Rust tests run against the compiled library.
- `app/` — the command-line program: argument handling, file system walks
  and output around the library.
