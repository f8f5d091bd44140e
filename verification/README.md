# rsml_lsp

The logic of a language server for RSML, a language for Roblox style sheets. Everything in
`src/` is verified with Verus; `app/` is the server around it.

- `parser` turns tokens into constructs and diagnostics. `parser::grammar` says what it
  computes; `parser::grammar::origin` shows that nothing is read that is not in the document.
- `typechecker` checks selectors, rules, derives, tweens and macros, and defines what the bytes
  of a document stand for.
- `autocomplete` adds the definitions that completions need, and computes the completions.
- `server` holds the documents and workspaces: dependencies and their cycles, hovers, links,
  quick fixes, and what is done about changes of files.
- `text`, `strings`, `json`, `diagnostic`, `completion`, `reflection` and `luaurc` are what these
  are made of.
- `lexer` cuts a text into pieces by the shapes that tokens have, and holds the token grammar
  of style sheets; `parser::scanner` holds the one that the parser reads by.
- `zed` decides which binary of the server the extension for the Zed editor runs.

`app/` reads files, talks to the editor, and calls `rbx_rsml` for the colours of the
palettes and the types of values.
