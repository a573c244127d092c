# blazing_goldbach

Finds Goldbach partitions `N = p + q` of even numbers `N >= 6`, from a few
digits to thousands of digits, and proves with Verus what the search does.

- `src/primes.rs`: the sieve of Eratosthenes (`primes_up_to`), proved to list
  exactly the primes up to its limit.
- `src/sieve.rs`: the segmented sieve that keeps the primes of a segment, and
  the second sieve that marks the `p` whose partner `N - p` has a small prime
  factor.
- `src/modulo.rs`: the remainders `N mod r`, by big-number division or from a
  known factorisation, with the law that both agree.
- `src/bignum.rs`: natural numbers as 64-bit limbs; GMP (through `rug`) does
  their arithmetic and the probable-prime test, behind small trusted wrappers.
- `src/solver.rs`: the search itself; `solve` returns the first candidate, in
  a fully specified order, whose partner passes GMP's test.
- `src/minimality.rs`: where GMP's test is exact, that candidate is the least
  prime `p` with `N - p` prime; `solve` states this for `N` up to one million.
- `src/input.rs`: the number to solve, read from its decimal text with rug's
  parser, and refused unless it is an even integer of at least 6.
- `src/construct.rs`: primorials, products of primes in a range, random even
  numbers from a seeded generator.
- `app/`: the command-line front end, the conversions from `rug::Integer`, and
  the floating-point heuristics (expected number of pairs in a segment,
  adaptive segment size).

`Cargo.toml` names `gmp-mpfr-sys`, rug's own binding to GMP, only to turn on
its `use-system-libs` feature: rug then links the system's GMP instead of
building the bundled copy, whose build needs `m4`.
