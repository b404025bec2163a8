# llm-wiki-server

A headless server for a wiki that a language model helps to keep: projects of Markdown files
in a workspace, with search, a graph of links, uploads, chat and background jobs, over an
HTTP API and a web client.

- `src/` is the decision logic, verified with Verus: who is let through, which paths a request
  may name, which revision of a file may be written, what is found and in which order, what is
  sent with which headers, and what stays in memory when a write fails. It works on plain
  values and does no input or output.
- `app/` is the server around it: sockets, the disk, the environment and the language model.
- `tests/` runs the library on concrete values.

A public function of `src/` states its result exactly, over the views of its arguments. One
that reads the clock or draws an identifier says what holds whatever came back, and leaves the
rest to one that takes those as arguments and is exact for each value of them.
The proof functions whose names begin with `law_` state what holds across functions: that a
granted path lies inside its project, that a stale write is refused, that a session's write
needs its origin and its CSRF token, that secrets are not shown, that what was stored survives
a restart.

What the proofs rest on besides is stated at the few functions that call other crates or the
standard library: the digest of a file, the lower case of a text, the guess of a media type,
the parts of a URL, the value of a header, a random identifier, the clock, and the decoding of
UTF-8.
