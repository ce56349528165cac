# synless

The core of a structure editor, written in Verus. Verus proves the contract of
every function in `src/` except three small wrappers, whose contracts are
trusted: `strings::string_push` (`String::push`),
`json_tokenizer::char_from_u32` (`char::from_u32`) and
`json_tokenizer::regex_is_decimal_digit` (the `regex` crate's class `\d`).

Layout:

- `src/coord.rs`: positions, ranges, rectangles and regions of the screen.
- `src/text.rs`: the text of a texty node, edited by character index.
- `src/forest.rs`: a collection of trees with circular sibling links; its
  operations keep parent, child and sibling links in agreement and rule out
  cycles.
- `src/experimental_tree.rs`: a tree whose nodes carry data of the user's
  choosing.
- `src/construct.rs`, `src/grammar.rs`, `src/typed_construct.rs`,
  `src/language.rs`: constructs, arities, signatures and sorts of a language,
  and the key that inserts each construct.
- `src/stack.rs`, `src/interpreter.rs`: the values, programs and stacks of the
  editor's command machine.
- `src/keymap.rs`: key bindings, in general and for the candidates of a menu,
  and the program a key runs.
- `src/command.rs`: the editor's commands, their names, and the command each
  key press gives in tree mode and in text mode.
- `src/notation_set.rs`: matching the notations of a notation set to the
  constructs of a grammar.
- `src/key.rs`, `src/term_input.rs`: keys and their written form, and turning
  terminal events into the editor's events.
- `src/screen_buf.rs`: a double-buffered screen that finds what to redraw.
- `src/json_tokenizer.rs`, `src/json_parser.rs`, `src/parse_error.rs`,
  `src/preprocess.rs`: a JSON reader with located error messages;
  `src/json_tree.rs` turns a JSON value into a document tree of a forest.
- `src/infra.rs`, `src/synless_error.rs`, `src/strings.rs`: error reports and
  string helpers.

`app/` is the program around the library: it checks a JSON file
(`synless --check-json FILE`), or shows in the terminal the name of each key
pressed (Esc quits).
