# token_slim

A verified library for slimming text before it goes into an LLM's context,
and the MCP server (JSON-RPC 2.0 over stdio) built on it.

The library (`src/`) is written in Verus. Each public function states what it
computes over mathematical models (`Seq<char>` for text, a `JsonView` for
JSON, a `ListingView` for directory listings), and Verus proves the code
against that statement.

- `text`: characters, whitespace, trimming, line splitting and joining.
- `slim`: comment stripping by language, blank-line collapsing, whitespace
  squeezing, repeat folding, outlines, JSON pruning.
- `tokens`: the token estimate, saving percentages, head-and-tail capping.
- `json`: the JSON tree the library computes on.
- `search`: regular expressions, through the `regex` crate.
- `tools`: file extensions, size labels, each tool's answer, searching and
  directory maps.
- `protocol`: methods, tools, tool descriptions, and replies.
- `laws`: properties that hold for every input.

`app/` is the server: the message loop, tool arguments, and reading files and
directories. It parses and prints JSON with `serde_json` and hands the
library plain values.
