# rmatrix

Digital rain for modern terminals.

`src/` is the library, in Verus: the simulation's grid and its draws, the
damage-tracking renderer with its per-frame budget, the two governors, the
auto-repeat filter, the stats meter, the checks on options and the event loop's
decisions. Every function states what it returns or changes, and is proved to.

`app/` is the program around it: arguments, the clock, the terminal, the writer
thread, and the floating-point arithmetic of motion and colour, whose results are
handed to the library as bit patterns.

`tests/` drives the library the way the program does.

| module | what it holds |
|---|---|
| `rain`, `chance` | the grid, the drops, and the seeded draws |
| `rainfall` | what holds of the rain whatever falls |
| `render` | damage, priorities, budgets, and the bytes of a frame |
| `ansi` | the escape sequences, and the calls that produce them |
| `screen`, `wire` | a terminal that follows instructions, and one that reads bytes |
| `governor`, `budget` | shedding quality, and bounding a frame's bytes |
| `session`, `keys`, `meter`, `bench`, `cli`, `term` | the loop, its keys, its readout, its timings, its options, and putting the terminal back |
| `charset`, `theme`, `bits`, `text`, `grid` | glyphs, colours, number patterns, text, positions |
