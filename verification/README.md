# nparser

A parser for HTML-like markup that keeps the markup as it was written, with a document model and
CSS-like queries. It is a verified library: what every function does is stated in its contract and
proved with Verus.

How the markup differs from HTML:

- A tag that ends in `/>` is a node without children, whatever its name.
- A boolean attribute is not an attribute with an empty value.
- `<`, `>` and `&` are never encoded or decoded.
- Comments become text nodes.

## Layout

- `src/` is the library.
  - `text`, `attrs`, `tree`: characters and text, attributes, and trees as mathematical values.
  - `grammar`, `parser`: what a markup text means, and the parser that reads it.
  - `forest`, `pruning`, `levels`, `arena`: linked nodes, and the arena that holds them.
  - `query`, `selector`: what a selector means, and its reading and matching.
  - `document`: documents and handles to their nodes.
  - `canonical`, `round_trip`, `verbatim`, `laws`: what holds of the library as a whole.
- `app/` holds the Node.js bindings.
- `tests/` holds the tests.

## Good to know

- Attributes are written in the order in which their names were first given.
- A value that holds a double quote, and a comment inside an element that nothing closes, are
  written as they are and do not read back as what they were.
- A closing tag that nothing opened ends the document without a fault.
- A dot belongs to the name before it, in selectors too: `p.b` is an element named `p.b`.
- In a selector such as `a > b c`, the nearest `b` above `c` is taken; another one further up is
  not tried.
