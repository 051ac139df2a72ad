# localserver

A small HTTP/1.1 server on a single-threaded, non-blocking event loop, with
routes, CGI scripts, chunked request bodies, cookies and sessions.

The library (`src/`) is verified with Verus: what a request is answered
with, and how its body is read, are functions with contracts. The event loop
in `app/` performs the reads, writes, file access and processes they ask for.

- `text`, `number`: trimming, splitting, lines and words, ASCII case-folding,
  and reading and writing unsigned numbers, specified over `Seq<char>`.
- `config`: the configuration model.
- `router`: route matching (longest prefix, last one on ties), method checks,
  resolving a target to a file path, CGI detection and the session routes.
- `utils::cookie`, `utils::session`: the `Cookie`/`Set-Cookie` headers and the
  session store with sliding expiry; a new session never takes the
  identifier of a live session.
- `http`: reading a request from its text, where its body starts in the
  received bytes, the error page file that the configuration names, and the
  responses.
- `cgi`: the command, arguments and environment that run a CGI script.
- `chunked`: decoding a chunked body one read at a time, chunk data in
  bounded pieces.
- `connection`: which idle connections are dropped, and reading a body of
  announced length in bounded pieces.
- `server`: what each request is answered with.

`app/` holds the program: configuration loading, the `mio` event loop, file
access and running CGI processes, each driven by the library's decisions.
