# rgit

Verified core of RGit's repository-creation verdict and of its web front end's
JSON handling and administration panel.

- `src/rjson.rs` — a small JSON reader: the grammar as spec functions over the
  characters of the text, and the reader proved to follow it exactly: the
  value and the position after it, or the error and its message (for strings
  and `\u` escapes also the position after the error).
- `src/framing.rs` — that reading depends only on the characters read: a value
  read from one text is read alike from any text holding the same characters,
  and the law that whitespace before and after a text changes nothing of what
  parsing it gives (neither the value nor whether the text is refused).
- `src/render.rs` — JSON writing in the style of `serde_json` (`json_escape`,
  `to_json`), and the law that a written value reads back as itself.
- `src/admin.rs` — what the administration panel shows and sends: HTML
  escaping (with the law that escaped text holds no markup characters), the
  lists, the checks on what is typed or chosen (no request without a chosen
  repository), the messages for each response, the request bodies (proved to
  read back as the objects they describe) and paths.
- `src/capacity.rs` — the verdict on creating a repository from the measured
  free space and the configured minimum.
- `src/text.rs` — the specifications of the few standard-library calls the
  library relies on.
- `app/` — the code around the library: the disk measurement, the browser DOM
  and event wiring, and floats for JSON numbers.
