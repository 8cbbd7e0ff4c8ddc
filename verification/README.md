# fem_poisson_1d

Linear (P1) finite elements for the 1D Poisson problem

    -u''(x) = pi^2 sin(pi x)  on (0, 1),   u(0) = u(1) = 0,

with exact solution u(x) = sin(pi x).

## Layout

* `src/` — the verified library (Verus). It is generic over the value type,
  so the index bookkeeping is proved independently of floating point:
  * `sparse` — triplets, the CSR matrix (with its well-formedness invariant and
    a `Map<(int, int), V>` view), assembly from triplets with duplicate
    positions summed in input order, look-up, matrix-vector product,
    submatrices and tridiagonal extraction;
  * `fem` — scatter-add assembly of element contributions on a 1D mesh,
    homogeneous Dirichlet conditions and scattering interior values back;
  * `xorshift` — the bit manipulation of a xorshift64* generator.
* `app/` — the program: problem data, quadrature, element matrices, the
  Thomas and conjugate gradient solvers, error norms and the convergence
  tables, all in `f64`, calling the library for the structural work.
* `tests/` — tests of the library.
