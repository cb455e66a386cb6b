# tpt_teleop

The logic of a teleoperation stack for robots and drones, written and proved in
Verus: every function of `src/` carries a contract that says what it returns or
changes, and the properties that span several functions are stated as public
proof functions whose names begin with `law_`.

| directory | what it holds |
|---|---|
| `src/num` | binary floating-point numbers as bit patterns: reading, writing, rounding |
| `src/runtime` | rings, pools, buses, the control-mode machine, wire and archive forms, core affinity, readiness events |
| `src/analytics` | the flight data recorder's frames and sectors, and the export to NumPy files |
| `src/hal` | CAN, register banks, cameras, sensors, the drone mixer and MAVLink |
| `src/cloud` | the fleet, its media fan-out and recordings, JSON, HTTP, MCP and the gated server |
| `src/cli` | the command line's arguments, texts and decisions |
| `tests` | the same behaviour on concrete values |
| `app` | the program around the library: sockets, files, clocks, threads and the physics |

What is trusted rather than proved is marked `external_body` or
`assume_specification`, each with a comment that says what is claimed: the case
mappings and the lossy decoding of the standard library, and the archive calls
of `rkyv`.
