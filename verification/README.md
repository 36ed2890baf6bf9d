# hexagon_launcher

Cell logic of a launcher that lays applications out on a hexagonal grid around a button.

- `src/hex.rs`: cells in cube coordinates (`Hex`), their sum, neighbors and multiples, and the
  spiral that gives each position its cell, with the rings that the spiral walks.
- `src/launcher.rs`: which desktop entries the launcher shows and in what order, and the cells
  of its applications while it is open.
- `src/model.rs`: the model that stands for an application, from the kind of its icon.
- `src/laws.rs`: properties that relate these functions to each other.
- `app/`: the clients that read desktop files and build the scene; their floating point
  placement and the scene graph stay there.
