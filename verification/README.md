# flappy

The rules of a Flappy Bird game, verified with Verus, and the browser front
end that runs them.

- `src/game.rs`: the run's state machine (`Ready`, `Playing`, `Dead`), what a
  flap does in each state, the xorshift generator that places the pipes,
  scoring (each pipe scores once) and the best score.
- `src/storage.rs`: the best score's stored text, written as the decimal
  writing of a `u32` and read back as `str::parse::<u32>` reads it; what is
  saved reads back unchanged.
- `app/`: the canvas renderer, input handling, the fixed-timestep frame loop,
  `localStorage`, and the floating-point physics and hitbox geometry around
  the verified rules.
- `tests/`: the game's scenarios and the storage format.
