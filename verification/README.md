# hexpeek

A language server, and the Zed editor extensions that start it, for peeking at
number literals: hovering over `0x1000`, `0b1010`, `0o17`, `1'000`, `BIT(12)`,
`GENMASK(7, 4)` or `SZ_4K` shows the value in binary, octal, decimal (read
big- and little-endian), hexadecimal, as a bit macro and as text; a code action
rewrites a hexadecimal power of two or bit mask as the matching macro.

The library under `src/` is verified with Verus:

- `bignat` — natural numbers of any size, computed by `num-bigint`;
- `text` — characters, UTF-8 byte offsets, white space, case mapping;
- `literal` — binary, octal, hexadecimal and decimal literals and their suffixes;
- `bitmacro` — the `BIT`, `GENMASK` and `SZ_*` macros that express a value;
- `scan`, `locate` — finding the macro or literal under the cursor;
- `render`, `normalize` — the hover table in Markdown, and the row that the
  hovered word is promoted to as its header;
- `server` — open documents, settings, notifications and request answers;
- `extension` — how the editor extensions choose the server command.

`app/` holds the protocol loop over stdin and stdout, the JSON and LSP
conversions, and the Zed extension entry points.
