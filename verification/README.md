# http

A small HTTP/1.1 server library whose logic is verified with Verus.

- `src/` is the verified library:
  - `text.rs`: character classes, splitting, joining, trimming and decimal
    numbers over `Seq<char>`, with the executable functions proved against them;
  - `headers.rs`: header field normalization and the `Headers` collection,
    with its wire form;
  - `request.rs`: request lines, methods and the request head read line by
    line (`HeadParser`, and `read_request` over an in-memory `ByteReader`);
  - `uri.rs`: URI parsing and printing, query strings and the constrained path
    types;
  - `limited_reader.rs`: the read budget of a `LimitedReader`;
  - `poll.rs`: the bookkeeping of the epoll wrapper;
  - `server.rs`: the decisions of the thread-per-connection and polling servers
    (when to read, reply, close and back off) and their replies.
- `app/` holds what Verus does not see: the sockets, threads, epoll calls, TLS
  streams and the `main` that serves on port 8080. It performs the actions that
  the library decides.
- `tests/` runs the library on concrete values.
