# ultimate_parser

Grammar analysis and step-by-step parsing for a compilers course, written in
Verus. The library's logic is verified: its public functions, and most of its
helpers, carry `requires`/`ensures` contracts that Verus proves. The calls into
petgraph (for DOT drawings) and into `char::is_uppercase` go through a few
small trusted wrappers whose contracts are assumed, not proved.

- `src/` — the verified library.
  - `symbols`, `collections`, `text`, `names`: grammar symbols and their
    models, small verified sets and maps, text handling, sorted name lists.
  - `grammar`: reading a grammar from text; left recursion.
  - `ll1`, `ll1_tree`: FIRST and FOLLOW (as least fixpoints), the LL(1)
    table, and the table-driven parse with its snapshots and parse tree.
  - `lr`, `lr0`, `lr_sets`, `slr1`, `lr1`: LR(0) and LR(1) item sets, the
    canonical collections, ACTION/GOTO tables with conflict detection, and
    the shift-reduce parse.
  - `derivation`, `lr_sound`, `ll1_complete`, `lr_hierarchy`,
    `lr_conflicts`: derivations of the grammar; proofs that every accepted
    input is derived from the start symbol, that the LL(1) parser accepts
    every derived input, that a grammar whose LR(0) tables have no conflict
    has SLR(1) tables without conflict, and that reduce-reduce conflicts are
    always found.
  - `recursive_descent`: backtracking recursive descent.
  - `tree`, `dot`: parse trees, their ASTs, and DOT drawings (through
    petgraph).
  - `api`, `ai`: what the HTTP endpoints compute (tokenizing, responses) and
    the assistant's prompts and reply handling.
- `tests/` — the test suite.
- `app/` — the HTTP server (axum): JSON, routing, and the call to the
  language-model service.
