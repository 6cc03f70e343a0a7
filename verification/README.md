# the-universe

A runnable model of a simulation-hypothesis framework: a cellular automaton on
a torus, run with and without a creator's limits (discrete space, discrete
time, a speed of light, detail rendered only where something looks), nested
into chains of ever poorer universes, read through a one-way pipe, measured
from the inside, and swept across the constants of its law.

## Layout

- `src/` is the library, verified with Verus. It holds every part of the model
  whose behaviour is exact: the creator's random stream (`rng`), the geometry
  of the grid and its blocks, seeding at base resolution and the world's
  fingerprint (`space`), what a probe observes (`observer`), the limits and
  their dials (`constraints`), what a step of the laws costs (`physics`), the
  cost of a nested layer and the scan that sizes it (`layer`), budgets
  (`budget`), the pipe and the fold of a horizon (`pipe`), the clusters a
  bootloader is made of (`clusters`), the count of distinct and productive
  laws a sweep visited (`sweep`), the seed a child is booted with
  (`bootloader`), the inhabitant's causal measurement (`detector`), the checks
  on a config (`config`) and the command line (`cli`). Each public function
  states what it returns in its contract, and the laws that relate several of
  them are public proof functions.
- `app/` is the program around the library: reading the TOML config, the laws
  themselves (density bands over floating-point occupancies), rendering and
  collapsing blocks, the experiments, and the CSV, JSON and text reports.
- `tests/` exercises the library on concrete values.

## Running

```sh
the-universe run    --config <FILE>   # what the limits cost and what they changed
the-universe nest   --config <FILE>   # how deep a chain of universes gets
the-universe pipe   --config <FILE>   # what survives a one-way channel
the-universe detect --config <FILE>   # which limits an inhabitant can find
the-universe sweep  --config <FILE>   # how thin the productive band of constants is
```
