# rweb

A small web browser whose engine is a Verus-verified library.

- `src/` — the library, verified by Verus:
  - `text` — character-level helpers and their specifications (trimming,
    searching, number parsing, lines);
  - `html` — element names, the HTML lexer, the parser that builds a
    document tree (and a smaller tree builder that reads tags by hand);
  - `http` — URLs, header maps, requests and their serialization, response
    heads and bodies;
  - `mime`, `loader` — media types, the `http`/`https`/`file`/`data` URL
    schemes, the redirect policy, the connection pool's retry policy and
    which response bodies can be read;
  - `browser` — a flat text/tag lexer, the text of a page outside its tags,
    the tabs of a window, the tree of layout boxes a document becomes, and
    how inline text breaks into words and what tags do to its style.
- `tests/` — tests of the library.
- `app/` — the program around it: the window (winit, softbuffer), fonts and
  drawing (skia), floating-point layout geometry, and network and file I/O
  (tokio, native TLS).
