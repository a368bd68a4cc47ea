# sailor

The verified core of Sailor, a map renderer styled with CSS.

`src/` is a Verus library:

- `css_grammar`, `css_parser`, `css`, `legacy_css`, `comments`, `numbers`,
  `text_map`: the stylesheet language (selectors, rules, values, comments)
  as a grammar over characters, its parser proved against that grammar,
  and the rule cache; `css_laws` holds the laws of selector matching and of
  comment stripping.
- `app_state`, `tile_args`, `interaction`, `stats`, `hover`, `rule_edit`,
  `layers`, `ui_state`: the bookkeeping of the map application (tiles in
  view, the selection, reactions to window input, frame statistics, legend
  colors, rule editing, layer order).
- `config`, `space`, `platform`, `http`, `noise`: settings, coordinate
  space markers, the file watcher trait, the HTTP range header and the
  particle hash.

`app/` is the program around it: argument parsing, configuration files,
watching and reading the stylesheet, and turning window events with their
floating point payloads into the library's inputs.
