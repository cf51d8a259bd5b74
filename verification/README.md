# abstract_gui

A library for the `.gui` format, written in Verus. A `.gui` file is YAML with
two forests of pages (`inherit` and `drill`), named navs, node attributes and
groups; the library reads a document from its text and checks the page
rules, with contracts that state exactly what either returns.

- `src/strings.rs`, `src/collections.rs`: the key order of texts and the
  ordered maps and sets that a document is made of.
- `src/model.rs`, `src/yaml.rs`: the document, the YAML tree, and their models.
- `src/parse.rs`: reading a document (`parse_document`).
- `src/validate.rs`: the page rules (`validate_document`, `page_nodes`) and their laws.
- `src/render.rs`: the indented lines that show the `drill` and `inherit` forests.
- `src/cli.rs`: the decisions of the command line.
- `app/main.rs`: the `gui` command: arguments, files, directories and printing.
