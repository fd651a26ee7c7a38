# oast

Event-driven simulation of a server that receives notifications, processes
them one at a time, and (in the second part) is switched on and off.

- `src/event.rs` – events, the random durations they draw, ticks of simulated time.
- `src/queue.rs` – the event queue, kept in the order in which events fall due,
  with its laws (earliest event first, nothing lost or invented).
- `src/sim.rs` – the simulation as a state machine: `Oast::step` takes the next
  event and handles it with a random duration given in ticks. The mathematical
  model (`SimState`, `step_state`) and the proofs that every step keeps the
  invariant, never idles a server with waiting work, keeps exactly one arrival
  (and in the second part exactly one switch) pending, keeps the first part's
  server on, and never moves the clock back.
- `src/histogram.rs` – counting delays per whole second.
- `app/main.rs` – the program: random draws, floating-point statistics,
  parallel runs and result files.

All floating-point work stays in `app/`; the library works on whole ticks
(`TIME_QUANTIZATION` ticks per second).
