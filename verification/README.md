# banco_memoria

A volatile key-value store driven by a line protocol (`ADD`, `GET`, `EXIT`)
whose values pass through Lua extensions, written in Verus.

- `src/text.rs`: Unicode white space, trimming and scanning over `Seq<char>`.
- `src/command.rs`: the line parser, its specification `spec_parse`, and laws
  on well-formed lines.
- `src/storage.rs`: the table, viewed as a `Map<Seq<char>, Seq<char>>`.
- `src/scripts.rs`: which files of the extensions directory load, and in what order.
- `src/registry.rs`: the registered extensions, the checks a registration
  must pass, and the extension with the longest prefix that begins a key.
- `src/lua_state.rs`: the Lua state (through `mlua`) and the calls into it,
  each of which appends what it did to a ghost log that no other module can
  write.
- `src/lua_bridge.rs`: the extension protocol over that state: loading the
  runtime and the scripts, choosing the handler for an operation, and what
  its answer means.
- `src/engine.rs`: commands against the table; a write happens only after the
  extension accepted it.
- `src/session.rs`: what one line of input does.
- `app/`: the program: reads the extensions directory and runs the prompt.
