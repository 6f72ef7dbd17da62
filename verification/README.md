# smarty-checker

Lint Smarty templates, with the linting logic verified in Verus.

Rules:

| Rule | Default | What it checks |
| --- | --- | --- |
| `smarty/balanced-html-in-control-flow` | on | the HTML written directly in each Smarty control-flow branch is balanced |
| `smarty/no-control-flow-in-script` | on | no Smarty control-flow block inside a `<script>` body |
| `smarty/no-smarty-in-script` | off | no Smarty statement at all, inline output included, inside a `<script>` body |

Layout:

- `src/` is the verified library. A template comes in as its text and its Smarty
  syntax tree, given as the list of tree nodes in pre-order (`parser::SyntaxTree`).
  - `lint/html.rs` scans HTML bytes: tag events, `<script>` bodies.
  - `lint/smarty.rs` classifies Smarty nodes and cuts the direct HTML of a branch.
  - `lint/rules/` holds the rules; `lint/rules.rs` the rule registry and the
    configuration check; `lint.rs` runs the enabled rules.
  - `config.rs` holds the rule switches, `cli.rs` the command line.
  - `parser.rs` holds the syntax tree types and parses HTML with tree-sitter.
- `app/` is the command: files, the TOML configuration, Smarty parsing, printing.
- `tests/` runs the library on concrete templates.
