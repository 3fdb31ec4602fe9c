# ibex

Decision logic of the ibex Screeps bot, written in Verus and proved against
its contracts.

- `src/` is the verified library: room-scale grid search, the per-tick
  pathfinding budget and route cache, route pricing, room intel
  classification, the repair and visibility queues, scout and observer
  assignment, tower fire control and drain detection, the attack campaign,
  defense sizing, salvage and source-keeper gates, the claim pipeline's
  gates, rank order and select pass, the defense scan, the offense scan
  from candidates to capped objectives, the combat objectives the run
  loops emit, and the breadth-first gathering of candidate rooms around
  the homes. Each public function states in `ensures` what it returns or
  changes; the `lemma_*` proof functions state the laws that relate
  several functions (what a request leaves in a queue, what a cache serves
  after a record, what a campaign step can never undo).
- `app/` is the game-facing side: conversions between the game API's
  values and the library's, reads of live rooms, route searches through the
  game map, and the floating-point scoring the library leaves to its
  callers. It is ordinary Rust and is not verified.
- `tests/` exercises the library on concrete values.

Game time, room intel and other game state enter the library as arguments;
the library never reads the game itself.
