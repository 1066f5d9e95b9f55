# codt

Search for small decision trees, verified with Verus. The search for depth one and the one for depth
two with a given split at the root are exhaustive; the search for depth two without one is not.

- `src/tasks`: what is optimised. Users of the library implement `Cost`, `CostSum` and
  `OptimizationTask`.
- `src/model`: data sets, views of them, and decision trees.
- `src/search/exhaustive`: the solvers `solve_d1`, `solve_left_right` and `solve_d2`, what they
  return, and what holds of it (`laws`, `schedules`, `depth_two_laws`).
- `app`: costs in floating point, thresholds in the units of the raw data, and a search that runs
  on several threads. None of this is verified.
- `tests`: the library on concrete data.
