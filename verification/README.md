# content

A rich-text document model for a collaborative editor of administrative
acts, whose every operation carries a proved contract.

A document is a tree of typed nodes (`Root`, `Paragraph`, `Span`, `Plain`
text leaves, lists and tables); a grammar says which kind of node may hold
which. `DirectContent` keeps the tree in memory, in an `indextree` arena
indexed by a `bimap`, and offers the editing operations the editor needs:
inserting and removing text, moving, merging and splitting nodes, repairing
the nesting against the grammar, walking the text leaves in document order.
The editor's reactions to keys and to the pointer are functions from the
document, the caret and the selection to their next state.

Layout:

- `src/` — the verified library. `kind` holds the grammar, `direct`,
  `navigate` and `write` the in-memory backend and its operations, `forest`,
  `nav`, `walk` and `rename` the mathematical model they are proved
  against, `arena` the contracts of the two collections the backend calls,
  `record` the way a node is written to and read from a shared document,
  `edit` the edits that an operation run on a snapshot of a shared document
  makes, to be written back,
  `editor`, `cursor`, `selection` and `merge` the editor's decisions, and
  the small modules `bootstrap`, `login`, `oidc`, `groups`, `ws` and
  `protocol` the decisions of the web client and its pages, `panel`
  how each message of the collaboration server changes the agent panel,
  and `forms` and `profiles` the decisions of the administration forms.
- `tests/` — tests run against the compiled library.
- `app/` — the code around the library: the shared-document backend on a
  `yrs::Doc`, the handle that holds either backend, the JSON form of the
  collaboration protocol, the reading of the room's text frames and the
  command-line form of the storage commands.
