# quantum_groups

Quantum groups, Hopf algebras and q-deformed representation theory, with a verified core.

`src/` is a Verus library holding everything that is exact:

- `structure` — finite sums over basis indices, tables of integral structure constants, and
  the algebra, coalgebra, bialgebra, antipode and Lie axioms stated exactly.
- `hopf_algebra` — structure constants of the matrix algebra `M_n`; proof that it is associative.
- `coalgebra` — the group-like coalgebra `Δ(e_i) = e_i ⊗ e_i`, `ε = 1`; coassociativity and counit laws.
- `antipode` — the group Hopf algebra `k[Z_n]`; proof that it is a Hopf algebra for every `n ≥ 1`,
  that `e_0` is its unit and that its antipode is an involution.
- `monomial` — enumeration of PBW exponent vectors in lexicographic order, with a proof that each
  step yields the next monomial and that the list is complete and strictly increasing.
- `pbw` — straightening words in the generators into PBW normal form with
  `x_j x_i = x_i x_j + [x_j, x_i]`, with overflow-checked integer coefficients.
- `universal_enveloping` — sl(2) (antisymmetry, Jacobi) and the enveloping algebra U(g) of a Lie
  algebra with integral structure constants, on the PBW monomials up to a degree: products are
  taken modulo the bracket relations; proofs that 1 is a two-sided unit, that
  `x_j x_i − x_i x_j = [x_j, x_i]` for generators, that products already in PBW order add
  exponent vectors, and that for an abelian Lie algebra every product adds exponent vectors
  and the truncated table is associative.
- `r_matrix` — the flip `V ⊗ W → W ⊗ V` and the exchange `P_12` as index permutations.
- `ribbon`, `representation` — Clebsch–Gordan decomposition, triangle condition, dimensions,
  direct-sum layout; the dimension count `Σ (2j+1) = (2j1+1)(2j2+1)`.

`app/` is ordinary Rust: complex-valued algebra elements, q-numbers, U_q(sl(2)) matrices,
R-matrices and ribbon structure, built with `num-complex` and `nalgebra` on top of the
structure constants and index maps that `src/` provides.
