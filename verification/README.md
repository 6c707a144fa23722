# files-reader-mcp

A local, read-only MCP server for text files and Git repositories under
named, authorized directory roots.

- `src/` is the verified library: path rules, text decoding and line
  reading, response paging and cursors, the HTTP request guard, the
  configuration rules, and Git's object, pack, index, reference and history
  formats with the walks that the tools run over them. Every function there
  carries a contract. Verus proves all of them except the small trusted
  wrappers around outside code (parts of std, hex, sha1, flate2, regex,
  globset, infer, quick-xml and similar), whose contracts state what that
  code's documentation and source show and are taken on trust.
- `app/` is the server around it: configuration loading, file descriptors
  and directory listings, the object store's file reads, the MCP tools and
  the HTTP front door.
- `tests/` exercises the library on concrete inputs.

The tools never write, never run Git, and never reach the network.
