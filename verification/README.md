# xc_ccm_hp

Arbitrary-precision spectral analysis of a finite Weil form, verified with Verus.

For a parameter `lambda^2` and `N` modes the library builds a symmetric form of dimension
`2N + 1`, takes its smallest eigenpair, turns the eigenvector into a secular function, and
discovers, refines and orders that function's roots. Beside that it splits the form into its even
and odd sectors, compares their lowest states, and keeps records of everything it computes, with
the replay that a record has to pass before it is used again.

## Layout

- `src/` is the verified library.
  - Numbers: `limbs`, `rounding`, `float`, `decimal`, `reading`, `order`, `accuracy`, `reals`, `bounds`. A
    value is a significand, an exponent and a precision; every operation is stated as the exact
    result, rounded to nearest.
  - Form: `primes`, `assembly`, `matrix`, `symmetry`, `components`, `exact`, `concentration`.
  - Eigenstate: `eigenpair`, `factorization`, `state`, `route`.
  - Roots: `secular`, `refine`, `outcome`, `roots`, `window`, `range`, `certificate`.
  - Sectors: `sector`, `projection`, `tridiagonal`, `eigenvalues`, `spectrum`.
  - Records and caches: `payload`, `records`, `evidence`, `portable`, `identity`, `lexical`,
    `envelope`, `tau_cache`, `eigvec_cache`.
  - Runs: `config`, `run`, `error`, `text`.
- `tests/` runs the library.
- `app/` is ordinary Rust around it: MPFR's constants and elementary functions, the solvers of the
  numerics crates, files, and the managed artifact store.

Elementary functions, decimal texts of numbers and the results of outside solvers enter the
library as arguments, so every contract holds for whatever values they have.

## Reading the contracts

A spec function next to each executable function says what it returns: `even_sector`,
`secular_sum`, `root_range_key` and so on. Public proof functions whose names begin with `law_`
state what holds across functions: that what is recorded reads back, that keys of different
requests differ, that the parity sectors keep the form and the norm up to explicit bounds, that
discovered roots rise inside the scan, that a form made symmetric is so.

What is believed without proof is in `envelope`: how `serde_json` reads and writes one object, and
how `zip` reads and writes an archive with one entry.
