# practice_programs

Three small programs, with their logic verified by Verus.

- `src/benfords_law.rs`: counting the leading digits of random numbers.
  The random numbers and the percentages are floating-point work and live
  in `app/lib.rs`.
- `src/brainfuck_everything.rs`: reading the bits of any byte string,
  three bits per brainfuck instruction, and running a program one step at
  a time (`BFProgram::step`). The step function is exact against the model
  `next_state`; the loop that reads standard input and prints output is
  `run` in `app/lib.rs`. Laws: the bit conversions are inverse, matching
  brackets are found both ways, the head never wraps, and putting `+-` or
  `-+` into a program changes nothing it does.
- `src/dijkstra_practice.rs` and `src/dijkstra_practice/`: a graph held as
  an adjacency matrix and Dijkstra's search on it. `shortest_path` states
  its result exactly against the model in `dijkstra.rs` and, directly,
  that a path is returned exactly when the destination can be reached and
  that the path is a walk whose weight is the distance returned and no
  walk between the two nodes weighs less. `lemma_bounded_weights_fit`
  gives a plain bound on the weights under which no sum overflows.

`tests/` holds the tests; `app/` the file, console and random-number code.
