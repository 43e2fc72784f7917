# nota-serde-core

Shared kernel of the nota and nexus text formats, verified with Verus.

The two dialects share records `( )`, bare identifier-shaped words,
numbers, `#hex` byte strings, `""" """` multiline and `"…"` quoted
strings, and `;;` comments. They differ in brackets:

- nota writes a string that cannot go bare as `[…]`, or as `[| … |]`
  (a dedented block) when it holds `]` or a line break, and delimits
  sequences and maps with `< >`;
- nexus reads `[ ]` as sequence brackets and adds `[| |]` atomic batches,
  `{ }`, sigils and binds, so it writes strings quoted (`"…"` with `\\`,
  `\"` and `\n` escaped); `<` and `>` are reserved there for comparisons.

Layout:

- `src/` — the verified library:
  - `lexer.rs`: the tokenizer, stated byte by byte (`spec_next_token`);
  - `dedent.rs`, `number.rs`, `text.rs`: multiline-string bodies, numeric
    literals, byte and character classes;
  - `ser.rs`: the canonical-text writer (positional records, bare
    identifier-shaped strings, the string forms above, sequences, maps of
    `(k v)` entries sorted by key bytes, nexus sentinels);
  - `de.rs`: the reading steps a schema-driven parser takes, stated over the
    token stream;
  - `error.rs`, `message.rs`: the error type and its messages;
  - `laws.rs`, `quoting.rs`: properties across calls and dialects: what
    the writer writes the lexer reads back token by token (words, strings,
    numbers, bytes, records, sequences, maps and the nexus forms, nested),
    scalars and strings read back as themselves, canonical and stable
    maps, reserved tokens, nexus reading nota text alike outside brackets.
- `app/` — the serde front end (`to_string`, `from_str`, the error type with
  `Display`), which drives the library from serde's traits and handles floats.
- `tests/` — tests of the library.
