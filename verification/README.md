# coderag

Local code search core for the Locus MCP server, written in Verus.

- `src/` is the verified library: tool-argument parsing (`search_input`,
  `engine`, `server`, `launch_args`, `tool_routes`), tokens (`tokenize`),
  symbol chunking (`chunking`), index rules and filters (`index`), document
  frequencies and search candidates (`ranking`, `term_table`), related chunks
  (`related`), refresh planning (`refresh`) and snapshot rules (`store`).
  Each public function states its result over spec functions; the laws of
  the library are public proof functions.
- `app/` is the server process: file walking and snapshot I/O, BM25 float
  scoring over the library's candidates, the in-memory index cache, and the
  rmcp stdio transport.
- `tests/` exercises the library on concrete values.
