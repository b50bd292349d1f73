# strung

A string extractor for binary files, in the spirit of `strings`, that filters
out binary noise with linguistic checks, spots likely secrets, decodes Base64
payloads and tries single-byte XOR keys.

- `src/` is the verified library:
  - `scan` extracts printable strings (single-byte, UTF-16 LE/BE, under XOR keys);
  - `filter`, `digram` and `text` decide whether a string looks like text;
  - `score` reads the whole-number features of the significance score;
  - `secret` and `pattern` detect credentials with the `regex` crate;
  - `process` applies the user's pattern, cuts context bytes and decodes Base64;
  - `tally` and `order` count repeated strings and order results stably;
  - `regions` plans the scan windows and reads object-file sections with `object`;
  - `entropy` counts byte values; `style` chooses smart-mode highlighting;
  - `config` holds the settings and applies command-line options.
- `app/` is the command-line program: argument parsing, the TOML configuration,
  memory-mapped input, parallel scanning, the floating-point scores and entropy,
  and printing.
- `tests/` exercises the library on concrete inputs.
