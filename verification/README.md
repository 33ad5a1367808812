# nfe

The decision logic of a small autonomous race car, written in Verus: executable
Rust whose behaviour is stated in contracts and proved.

Measured and computed numbers are floating point. They enter the library by
their bit patterns (`scalar`), which it classifies, orders, picks among and
remembers. Arithmetic on them, input and output, threads and timers are on the
other side, in `app/`.

| module | what it decides |
| --- | --- |
| `supervisor` | when the car follows its race line and when it falls back |
| `control` | limits, statuses and the states of the control loops |
| `estimation` | which samples and measurements move the state estimate |
| `localization` | candidate poses, resampling, matches of walls |
| `mapping` | rays over a grid, submaps, loop closures |
| `perception` | walls, corridors and apexes in a range scan |
| `raceline` | from an occupancy grid to the plan of an optimisation and its speeds |
| `car` | the control loop, the watchdog, the command lines, the bench and the tuning |
| `order`, `reach`, `rng`, `text` | what the others share |

Public proof functions whose names begin with `law_` state what holds of the
library as a whole.

- `src/`: the verified library
- `tests/`: tests of the library on real floating-point numbers
- `app/`: the programs of the car
