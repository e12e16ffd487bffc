# hash-loop

A search for cycles in the repeated SHA-1 mapping on states that keep the leading bits of a
digest and clear the rest. The library under `src/` is written in Verus: each function states
what it returns, and Verus proves it. The program under `app/` reads the command line, prints,
and drives the CUDA device.

| Module | What it holds |
| --- | --- |
| `orbit` | walks under a map: iterates, cycles, tails |
| `state` | 160-bit states, truncation, and the SHA-1 step |
| `words`, `index` | big-endian words, and states of at most 32 bits by number |
| `space` | how many states there are, and that every walk ends in a cycle |
| `brent` | Brent's search on the walk from one seed |
| `graph`, `exhaustive` | the shortest cycle of a functional graph, and of all states |
| `listener` | who is told what a search finds while it goes on |
| `sample` | limits on a cycle, and the shortest of several results |
| `gpu`, `gpu_run` | kernel data and decisions of a search on the GPU, and what a whole one finds |
| `benchmark` | the batches of a measurement of the GPU, and what it folds from them |
| `options`, `text`, `report`, `clock` | options, text, lines to print, deadlines |

Proof functions named `law_…` state what holds of the library as a whole: that a search finds
the same cycle with any larger limit, that an exhaustive search finds the shortest cycle there
is, that a state is read back from its text, and so on.

What is believed without proof is the contracts of `sha1_of` and `random_hash` in `state`, of
`map_successors` in `exhaustive`, and of the clock in `clock`. Each says above it which function
of `sha1`, `rand`, `rayon` or `std` it speaks of.
