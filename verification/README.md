# neonwhite_seed_finder

Find seeds of Neon White's level rushes whose order has given properties, for
example "The Clocktower, The Third Temple and Absolution among the first four
levels".

The library (`src/`) is verified with Verus:

- `subtractive`, `coefficients`, `linearization`: the game's subtractive
  random generator, and the proof that, for every seed `s` from 0 to
  161803398, its output `k` (`k` below 96) is `(A[k] * s + B[k]) mod (2^31 - 1)`,
  so that the shuffle of a rush of at most 96 levels can be computed without
  running the generator, and equals the generator's shuffle for those seeds;
- `shuffle`, `dotnet`: the shuffle computed both ways;
- `text`, `levels`, `frontend`: rules on the order read from text
  (`START:END = LEVEL, ...` for a sequence, `START:END > LEVEL, ...` for a set),
  level and rush names matched by abbreviation, and the check that no two rules
  claim the same position or level;
- `rules`, `search`: the flat byte encoding of the rules, the test of one seed,
  and the search of a range of seeds;
- `cli`: the decisions of the command line.

The program (`app/`) reads the level data, runs the search on CPU threads
(rayon) or on a GPU (OpenCL, through `ocl`), and prints.  The level data is
read from the file named by `NEONWHITE_LEVEL_DATA` (default
`neonwhite_levels.txt`), one entry per line:

```
level|The Clocktower
alternate|Bell Tower|10
rush|White|0,1,2,3
```
