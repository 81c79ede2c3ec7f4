# cambrian

An adaptive genetic algorithm for black-box optimization over hierarchical
parameter sets. A YAML spec describes the parameters (reals, ints, bools,
enums, sub maps, anon maps that grow and shrink, variants, optionals,
constants); an objective function program receives a candidate as JSON and
prints its objective function value.

## Layout

- `src/` is the library, verified with Verus: the spec and value trees and
  their validation from YAML and JSON documents, initial values, conversion
  of values to JSON, crossover and mutation, the tree of path contexts with
  its key counters, the ranked population with re-evaluation and adapted
  meta parameters, termination criteria, the algorithm configuration and the
  decisions of the controller. `src/laws.rs` states the properties that
  relate these functions to each other.
- `app/` is the command line program around the library: argument handling,
  parsing of YAML and JSON text, random choices and the floating point
  arithmetic of meta parameters and samples, the asynchronous evaluation of
  individuals in child processes, and the reports.
- `tests/` exercises the library on concrete values.
