# sniper

An editor-agnostic snippet server. Editors register the files they edit
(targets); the server loads the snippet sets of each target's language, answers
completion requests from the triggers of the loaded snippets, and expands a
snippet into the components an editor inserts, with snippets nested inside
other snippets (`$!name`) expanded in place and all their tabstops, plain
`$n` and placeholders alike, renumbered after those before them.

The library in `src/` is verified with Verus:

- `snippet.rs`: snippets, the contents of a snippet file, snippet sets and
  the count of targets that require each set.
- `config.rs`: the configuration (the base snippet sets of each language) and
  the path of a snippet set's file.
- `proto.rs`: the components sent to an editor.
- `parser.rs`: the snippet body grammar, stated as spec functions, and a
  parser proved to compute it.
- `target.rs`: a tracked target, its loaded sets and its trigger trie
  (`qp-trie`), with completion by prefix.
- `snippet_manager.rs`: the snippet store (`dashmap`), loading and unloading
  sets, and the expansion of a snippet.
- `server.rs`: the server state, its invariant (every set in play counts
  exactly the targets that require it, and every snippet it lists is
  stored), and the requests that keep it; a refused request changes nothing.

`app/` holds the executable: reading the configuration and snippet files,
the RPC service over a unix socket, and tracing. `tests/` holds the tests.
