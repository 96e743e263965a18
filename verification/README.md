# btf2json

Locates Linux kernel structures inside raw memory images: the Linux banner,
the kallsyms tables (token table, token index, markers, names, symbol count,
relative base and offsets) with the symbol names and addresses, and the KASLR
slide recorded in VMCOREINFO.

- `src/` is the library, written in Verus: every function carries a contract
  over mathematical models (`Seq`, `int`, spec functions), and the laws that
  tie the functions together are proof functions next to them.
  - `bytes`: reading and writing table entries of 2, 4 or 8 bytes.
  - `search`: byte-string and regex searches (memchr, regex).
  - `text`: splitting, number parsing and UTF-8 helpers.
  - `image`: the memory-image traits and the in-memory `RawImage`.
  - `banner`, `kallsyms`, `kaslr`: the scanners.
  - `utils`: most frequent string, escaped printing.
- `tests/` exercises the library, including a synthetic kernel image.
- `app/` is the command-line front end (file mapping, argument parsing,
  logging).
