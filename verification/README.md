# oxidepage_layout

The decisions of an HTML layout engine, written in Verus: which boxes a document generates, how
large they are and where they go, how columns and pages are cut, what a point hits, how far a
scroller scrolls, and what a style change costs. Each function states what it computes, and the
statements are proved.

- `src/` is the library. Lengths are integers, 64 to a px. `units`, `sizing` and `transform` hold
  the arithmetic; `dom`, `document`, `style` and `text_style` what a page consists of; `construct`,
  `assemble` and `inline_content` build its boxes; `dispatch`, `inline_layout`, `replaced`, `table`,
  `multicol` and `columns` size them; `positioning`, `corrections` and `overflow` finish a layout;
  `geometry`, `element_boxes`, `fragments`, `hit_test`, `scroll_into_view` and `pagination` answer
  questions about it; `engine` and `patch` keep it up to date.
- `app/` runs a layout: it shapes text, calls the box algorithms for blocks, flex containers and
  grids, and watches the clock.
- `tests/` runs the library on documents and box trees that are built by hand.

What the library takes on trust of other crates and of the standard library is marked
`external_body` or `assume_specification`, each with a comment that says what is claimed.
