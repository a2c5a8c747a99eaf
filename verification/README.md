# ciber_agent

Agents for the CiberRato robot simulator: a mouse that explores a maze,
finds the target cell and comes back to its start.

The navigation logic is a library verified with Verus (`src/`):

- `dir`, `heading`: grid directions and compass headings, with their turns.
- `map`: the sparse wall map (walls kept symmetric, visited and frontier
  cells kept apart).
- `walk`, `bfs`, `planner`: breadth-first search, through visited and
  frontier cells, for the first step of a shortest walk to the nearest goal
  cell (a frontier cell, or the start).
- `route`, `dijkstra`: the cheapest route counting moves and turns.
- `walls`: streak-confirmed wall sensing.
- `motion`, `mission`, `wall_follow`, `position`: the agents' discrete
  decisions (motion controller, objective state machines, right-hand wall
  following, visit counts).
- `protocol`, `measurements`, `codec`, `text`: the simulator's messages as
  plain values, the sensor picture they update, and the request texts.

`app/` holds the programs around it: the network link to the simulator,
XML and YAML parsing, pose estimation and motor control on real-valued
readings, and the main loops of the agents.

`tests/` runs the library on concrete mazes and messages.
