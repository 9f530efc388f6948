# dynalgo, verified

A small graph library whose operations are animated in SVG: a graph of nodes
named by characters, with links that go one way or both ways, each carrying a
value. The library also runs classic algorithms on such graphs, each step
shown in the animation: connected and strongly connected components,
breadth-first search trees, minimal spanning trees (Prim), Eulerian paths
(Hierholzer), a quick partition of the nodes for coloring, and the comparison
of two graphs, node for node or under a renaming of the nodes that the caller
gives.

Several graphs can be drawn side by side on one HTML page. The graphic
elements of each graph are numbered: a graph made by an algorithm from another
one continues the numbers of that graph, and `Graph::continue_ids` makes any
graph continue those of another, so that no two elements of a page share an
id.

The library is written in Verus: its functions state what they do in their
`requires` and `ensures`, and Verus proves it. The layout by springs is the
one part computed outside (in floating point, behind the `LayoutEngine`
trait): there the library states what it hands the engine and where it
places the nodes with the engine's answer, not what the answer is.

- `src/graph.rs`: the graph, its configuration text (`config.rs`, `text.rs`)
  and its animation (`graph/renderer*`), over a sorted map (`keymap.rs`).
- `src/algo/`: the algorithms.
- `src/demo/`: the computing parts of the demonstration program.
- `app/`: what the library leaves to plain Rust: the layout by springs and
  the points of a circle (floating point), the clock, the files written.
- `tests/`: tests of the library on concrete graphs.
