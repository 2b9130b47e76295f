# Budgeted context tree weighting, verified

A binary context-tree-weighting predictor that works under a hard budget of
nodes, in integer fixed-point arithmetic, together with the tools that measure
it: a comparator that computes the best tree source under a leaf budget, its
suffix-array variant, and a dynamic-depth CTW baseline.

Layout:

- `src/` is the library, written in Verus and verified:
  - `fixed.rs`: Q24 logarithm and exponent tables and their laws;
  - `decimal.rs`: decimal rendering of Q24 quantities;
  - `ctw.rs`: the budgeted predictor (descent, eviction, accounting, checks);
  - `comparator.rs`: the full context tree of a corpus and the walks over it;
  - `sa_frontier.rs`: the compressed tree of sorted suffix keys and the
    indexed heap of the weakest-link pruning;
  - `d2ctw.rs`: the node arena of the dynamic-depth baseline;
  - `npy.rs`: the `.npy` record files of the suffix-array variant (preamble,
    header checks, packed records).
- `app/` holds the command-line programs: argument handling, file reading,
  the report, and the floating-point parts (entropy and KT costs, the
  cost-complexity ratios, the likelihood ratios of the dynamic-depth model).
- `tests/` exercises the library on concrete values.
