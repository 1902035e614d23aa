# hues

A solver library for higher-order unconstrained optimisation over bits (0 and 1)
and spins (-1 and +1). An objective is an offset and a list of terms, each an
integer coefficient times a product of variables.

`src/` is the library, verified with Verus:

- `instance`, `term`, `domain`, `solution`, `state`, `delta`: objectives,
  assignments, and the values and changes by flips that searches keep up to date.
- `granularity`, `coeff`, `number`: the grid of objective values, and numbers as
  text.
- `fixes`, `restriction`, `active`, `node`: partial assignments and what they
  leave of an objective.
- `kernelization`: rules that fix variables, symmetries and components. Dominance,
  coupling and the gap are proved to keep a completion as good as any that beats the
  incumbent. Roof duality is proved to keep one as good as a global minimiser. The
  flip rule is proved to keep one where the flip sets of free representatives hold
  no fixed variable, and not elsewhere: with `s0` fixed to +1 it fixes `s1` of
  `s0 * s1` to +1 too, which loses the minimum.
- `bounds`: lower bounds of a node. What the library computes by itself, rounded to
  the grid of values or not, is proved to be at most the objective of every
  completion. Linear and semidefinite relaxations are built as data, with proofs
  that every assignment is a point of them; their solution comes from outside and
  is a bound as far as the solver's value is one.
- `lasserre`, `quadratic`, `chordal`, `cliques`, `basis`, `moments`: moment
  relaxations and sparse quadratic forms.
- `heuristic`: greedy descent, tabu search, self-avoiding walks, a pool of
  solutions, and the state of annealing and parallel tempering.
- `settings`: names and defaults of settings.

All arithmetic is on integers. Multipliers, messages and steps are in fixed-point
units.

`app/` is the command-line program: arguments, files, logging, temperatures, the
clock, and the programs handed to SCIP and nauty. It reads instances as JSON:

    {"var_type": "bin", "n_vars": 2, "offset": 0,
     "terms": [{"indices": [0], "coeff": 1}, {"indices": [0, 1], "coeff": -2}]}

`tests/` runs the library on concrete values.
