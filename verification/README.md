# yamlpath

Comment and format-preserving YAML path routes, verified with Verus.

A `Document` is parsed once, by tree-sitter. A `Route` is a list of mapping keys
and list indices. Queries follow a route through the document and give a
`Feature`: the place in the source where the route leads, with its comments and
its formatting intact.

```rust
let doc = Document::new("foo:\n  - bar # comment\n")?;
let route = Route::default().with_key("foo").with_key(0);
let feature = doc.query_pretty(&route)?;
assert_eq!(doc.extract(&feature), "bar");
```

## Layout

- `src/treesitter.rs` holds every call into tree-sitter and line-index, with what
  is believed of each. The syntax tree is taken over as a list of plain nodes in
  pre-order (`src/syntax.rs`).
- `src/limits.rs` says which texts the parser can be given.
- `src/anchors.rs` collects the anchors, `src/builder.rs` builds the reduced tree
  (`src/cst.rs`) of mappings, sequences, scalars and aliases. `src/links.rs`
  proves what holds of every such tree.
- `src/query.rs` says where a route leads, and `src/document.rs` has the documents
  and features that callers use. `src/comments.rs` finds comments.
- `src/laws.rs` states what holds of the library as a whole.
- `src/route.rs`, `src/error.rs`, `src/location.rs`, `src/maps.rs` and
  `src/text.rs` hold the small types and functions that the rest is made of.
- `app/` is the side that rests on traits of other crates: serialisation,
  `std::error::Error`, `RangeBounds`.

## Limits

`Document::new` asks for a source within the limits of the parser, which
`limits::can_be_read` tests:

- It has fewer than `u32::MAX` bytes, since tree-sitter and line-index hold byte
  positions in 32 bits.
- Block structure can begin at no more than 126 different columns. The columns that
  count are those of the block indicators (`-`, `?` and `:` before white space) that
  lines begin with, and of the first other character of each line. The YAML grammar
  keeps track of at most 253 open levels of block structure, at most two of which
  begin at the same column, and aborts the process beyond that. It also numbers
  lines in 16 bits, so from 32768 line breaks on fewer columns can be told apart:
  62, from 65535 on 41, and so on.
- Behind an indicator that opens a block on the same line, block structure begins
  before column 32768, since the grammar numbers columns in 16 bits too.
