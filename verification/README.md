# nomad_core

A minimal NomadNetwork page-hosting node: it serves the pages under
`/page/...` and the files under `/file/...` of two directories over a
Reticulum link.

`src/` is the library, verified with Verus:

- `pages`: the page index, built from the two directory listings and keyed
  by the truncated SHA-256 hash of each request path, with the generated
  index page;
- `handler`: who is served (the allow-list), what a request leads to, and
  whether a response goes inline or as a resource transfer;
- `config`: the `[nomadnetwork]` configuration values and their defaults;
- `script`: the error page, the form fields decoded from a request and the
  limits of page scripts;
- `hexcodec`, `msgpack`, `hash`: the hexadecimal, MessagePack and hash
  encodings, through the `hex`, `rmpv` and `rns-crypto` crates;
- `text`: string helpers (trimming Unicode white space, path joining) and
  the stable sort of page names;
- `announce`, `cli`: the announce framing and the command line.

`app/` is the node program: command line, file system, the Reticulum
runtime, the script engine and the async loops.
