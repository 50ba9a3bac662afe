# assignments

A small library of algorithm exercises, each written in Verus with its contract proved:

- `a2`: the shortest contiguous subarray whose sum is closest to zero, by an exhaustive
  search and by sorted prefix sums.
- `a3`: hotels that no other hotel beats on both distance and price (divide and conquer
  with a dominator stack), and exponentiation by squaring.
- `a4`: a k-way merge sort that merges its runs through a bank of at most `k` registers.
- `a5`: few ranges that together hold a set of numbers, chosen greedily, with a proof that
  no smaller choice exists.
- `a6`: the best pay for a schedule of easy and hard jobs, by a table and by a memoised
  search.
- `a7`: the edit distance ("metamorphosis number") of two strings and a cheapest list of
  operations between them.
- `sorting`: a merge sort of integer pairs used by `a2` and `a5`.

`src/` holds the verified library, `tests/` its tests, and `app/` console output that
stays outside the proofs.
