# swarm

The verified core of an agent-driving sandbox: a headless 3D world that
external agent processes connect to and drive vehicles in, on an arena or on
real road networks imported from OpenDRIVE files.

- `src/` is the library, verified with Verus: FMU role binding
  (`binding`, `model`), OpenDRIVE reading (`xml`, `opendrive`), lane
  connectivity (`lanes`, `links`), shortest-path read-back (`route`), surface
  mesh topology (`mesh`), reflex arbitration (`reflex`), the perception
  handshake and connection registry (`perception`), the seedable noise
  generator (`perceive`) and the float-free wire enums (`protocol`).
- `app/` is the unverified shell: JSON wire types, floating-point geometry
  (polylines, the importer's reference-line baking, mesh vertices, routing
  costs, sensor readings, the FMU driver) and the perception server's network
  plumbing, each calling into the library for every decision it can make.
- `tests/` exercises the library from outside.

Not carried over: the engine-bound parts of the simulation. The movement
models and their systems (holonomic, car-like, single-track, raycast
vehicles), the FMU vehicle system and FMU store, and surface sampling for
draping bodies (`Lane::sample_at`, `RoadNetwork::sample_near`) are built on
Bevy and Rapier, which are not dependencies here, and FMU loading needs the
`fmi` crate's native build, which is not available.
