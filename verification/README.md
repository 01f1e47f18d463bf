# goose_http

Three small HTTP programs and a to-do service, with their logic in a
library whose behaviour is stated in contracts and proved with Verus.

- `src/text.rs`: white space, trimming, words, searching and replacing text,
  decimal numerals and radix numbers, each with a model over `Seq<char>`.
- `src/headers.rs`: a map from header names to values.
- `src/uri.rs`: splitting a URI with the RFC 3986 regular expression
  (through the `regex` crate).
- `src/client.rs`: the request the client sends, the response head read line
  by line, how the body is read, and what follows a status.
- `src/date.rs`: HTTP dates (through `time`) and the `Date` of a response
  (through `chrono`).
- `src/request.rs`: the server's reading of a request line and its header
  fields.
- `src/server.rs`: what the server does with a request, its date conditions,
  and the text of its responses (media types through `mime_guess`).
- `src/todo.rs`: the JSON texts of the to-do service.
- `src/exchange.rs`: the server reads what the client sends, and the client
  reads the length of what the server sends.

`app/` holds the programs themselves: sockets, files, the clock, command-line
arguments, the web framework and the database.
