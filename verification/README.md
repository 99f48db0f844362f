# sharks

Shamir's Secret Sharing over GF(2^8), with proactive renewal of shares, written in
Verus.

Layout of `src/`:

- `field.rs`: the field GF(2^8) (polynomial x^8 + x^4 + x^3 + x^2 + 1), its spec
  operations, the field laws (commutativity, associativity, distributivity, inverses,
  no zero divisors) and the executable `GF256` operations.
- `poly.rs`: polynomials as coefficient sequences, Horner evaluation, synthetic division,
  the bound on roots, and the exactness of Lagrange interpolation.
- `math.rs`: random polynomials, the `Evaluator` that hands out shares, and interpolation
  of shares at zero.
- `share.rs`: `Share`, its byte encoding, and renewal.
- `keys.rs`: the set of distinct share points, kept in a `hashbrown::HashSet`.
- `lib.rs`: `Sharks`, with dealing, recovery and proactive dealing.
- `laws.rs`: recovery of a dealt secret (clones and order included), what changing one share
  does to the recovered secret, and what renewal does to the polynomials behind
  the shares.
