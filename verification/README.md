# ladon

A threshold KEM over module lattices: a committee of parties that hold Shamir
shares (semi-honest variant, over the prime field `F_q`) or additive `2^k`
shares (active variant) of a K-PKE decryption key decrypts ciphertexts
jointly, masking its error shares with double sharings before opening them.

The field is `F_q` with `q = 687659009` throughout (the semi-honest
parameters), and the Shamir dealer takes `t` as the polynomial degree with
`t < n`. The instantiation with `q = 8380417` and a committee-size `t` is not
held: with that modulus the threshold parameters cannot be built for any
plaintext modulus `p`, and its inverse NTT scales by `128^-1` modulo
`687659009`.

The library in `src/` is written in Verus; every function carries a contract
and is verified. Its main parts:

- `params`, `util`, `arith`: parameters and arithmetic helpers.
- `shamir`, `shamir_ring`: Shamir sharing of field elements, rings and
  vectors; `field_laws` proves `q` prime and Fermat's little theorem, and
  `lagrange_laws` proves that any `t + 1` shares reconstruct the secret.
- `additive_2k`, `additive_ring`: additive sharing modulo `2^k`.
- `ring`: the ring `Z_q[X]/(X^256 + 1)` with its NTT; `ring_laws` proves
  that the NTT and its inverse undo each other and `ring_mult_laws` that
  multiplication in NTT form is negacyclic multiplication; `negacyclic`,
  `linalg`: negacyclic products as block matrices, with `nega_laws` proving
  the product commutative and associative.
- `kpke`, `sample`, `crypt`: the PKE (key generation, encryption,
  decryption) over `q` and over `2^k`, with its hashing and sampling;
  `kpke_laws` and `kpke_2k_laws` prove the noise identity of decryption and
  that a message comes back whenever the noise is small.
- `dealer`, `party`, `threshold`, `dealer_spdz`, `party_spdz`,
  `threshold_decrypt`: the dealers, the parties' partial decryptions and the
  committee protocol; `committee_laws` proves that the parties' partial
  decryptions add up to ordinary decryption.
- `kem`: threshold decapsulation with the Fujisaki-Okamoto check;
  `splitmix`: the SplitMix64 generator of the benchmarks.
- `montgomery`, `ntt_ctx`, `ntt_laws`, `ctx_mult_laws`, `ring_algebra`,
  `lwe`: the kernels of the cost estimators (Montgomery arithmetic, NTT
  contexts for large negacyclic rings, plain LWE threshold decryption);
  `ntt_laws` proves that a context's inverse transform undoes its forward
  transform and `ctx_mult_laws` that its transform product is the
  negacyclic product.

`app/` holds the command-line programs around the library: the demo and the
cost estimators, whose timing and floating-point Gaussian sampling stay
outside the verified code. `tests/` holds the tests.
