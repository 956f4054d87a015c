# elevator_sim

A simulation of the morning rush in an office building: workers arrive in the
lobby, four elevators carry them (at most ten at a time) to their floors, and each
worker clocks in on getting off. A study runs many mornings with normally
distributed arrival times and reports how many workers are late on average.

The library (`src/`) is written and proved with Verus:

- `elevator.rs`, `worker.rs`, `config.rs` — the building's parts and constants.
- `rules.rs` — what one second does, stated over mathematical values.
- `simulation.rs` — the executable simulation, proved to follow the rules.
- `sort.rs` — the stable ordering of workers by arrival.
- `lemmas.rs`, `invariants.rs` — boarding and alighting lose nobody; the invariant
  of a running simulation holds from the start and after every second.
- `safety.rs` — what one second needs to run without error, and that the invariant
  provides it.
- `shape.rs` — what a second keeps on any state: the clock, the plan, the workers'
  floors and bindings, and the shape of every car.
- `conserve.rs` — a second loses, copies or invents nobody: workers move from the
  lobby into cars and from cars to their desks.
- `liveness.rs` — every simulation that starts well ends with everyone clocked in,
  within a proved bound on its length (the clock must have room for that bound).
- `hyper_simulation.rs` — elevator plans, the workers of a morning, and the tally
  of late workers over many mornings.

`app/` holds the program: it draws the random arrival times, turns the tallies into
means and standard deviations, sweeps the parameters in parallel and writes a CSV file.
