# lepiter

A reader and editor for knowledge bases of pages that are stored as JSON files,
with the logic verified by Verus.

`src/` is the library. Each module states in `requires` and `ensures` what its
functions do, over models of the data:

- `text`, `number`, `time`, `json`, `strmap`, `lru`, `sort`, `lists`: the
  vocabulary.
- `model`, `parse`, `index`, `util`: pages, their nodes and links, and the index
  of a knowledge base with its link analysis.
- `inline_link`, `inline`, `highlight`, `render`, `styled`: links, inline
  markdown, code, plain text and styled lines.
- `export`, `import`, `roundtrip`: pages to markdown and back.
- `edit`, `edit_view`, `app`, `new_page`, `screen`: the reader and editor as a
  state that takes keys and asks for actions.
- `args`, `commands`, `record`, `counts`, `listing`, `links`, `check`, `info`,
  `show`, `plugin`: the subcommands and what they print.

Public proof functions hold the laws of the library, such as that what is
exported can be imported again, or that an edit can be undone.

`app/` is the program around it: files, the terminal, and serde. `tests/` holds
the tests of the library.
