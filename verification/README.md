# diskplan

Diskplan constructs directory trees from schemas: files, directories and symlinks, with
owner, group and permissions, fixed or pattern-matched names, reusable sub-trees, and roots
whose schemas link into one another.

The library in `src/` is written in Verus and proved against its contracts:

- `text` reads the schema language into a tree of `SchemaNode`s; `parse_schema` states the
  tree it returns, and the line numbers of every error.
- `expr`, `expression` and `traversal::eval` read and evaluate `${var}` expressions.
- `config` maps roots to schemas (the longest root wins) and caches parsed schemas.
- `filesystem` is the file system interface, with exact path resolution through symbolic
  links, and `MemoryFilesystem`, a file system held in memory whose every operation is
  specified (what is created at a path is what the path then leads to).
- `traversal` applies a schema to a path; it never removes a path or changes a file's content,
  and on a file system that records what is asked of it (as `MemoryFilesystem` does) a
  successful traversal has asked, at the root, for the directory or file of every node of the
  root's schema reached through fixed names, with the node's mode.
- `listing` shows a file system as `ls`-like lines.

`app/` holds the command-line tool: argument handling, the configuration file, the file
system on disk, and printing.
