# erdcat

Prints the schema of a SQLite database as an entity-relationship diagram:
Graphviz `dot`, Mermaid `erDiagram`, or a text drawing in box-drawing
characters (or plain ASCII).

The library in `src/` is written in Verus and proved:

- `schema`: the tables of a database, kept in name order with one table per
  name; junction tables (two foreign keys to two different tables and
  nothing else) and the resolution of foreign keys that name no column.
- `layout`: which boxes the text drawing has, their lines and sizes, the
  edges between them, and the packing of placed boxes into layers and rows.
- `emit::dot`, `emit::mermaid`: the two graph languages, with labels and
  identifiers escaped.
- `emit::route`: a cheapest-route search (turns, crossings and running
  along other lines cost extra) and the routing of every edge around the
  boxes.
- `emit::unicode`: the character grid, drawing boxes, lines and arrowheads,
  and writing the grid out.

`app/` holds the command line program: it reads the database, runs the
layered graph layout (floating-point coordinates) that places the joined
boxes, and prints the diagram.
