# colorglyph

A verified model of the ColorGlyph Soroban contract. Miners mine colors,
which their holders spend to mint glyphs (pixel images identified by the
SHA-256 of their pixels); glyphs can be scraped back into colors, given away,
or traded on an exchange for other glyphs or for escrowed token amounts, with
royalties paid to the glyph's minter and to the miners of its colors.

Layout:

- `src/` — the library, verified with Verus.
  - `types.rs`, `order.rs`, `sorted_map.rs`: the values, their order, and the
    ordered map the storage is made of.
  - `storage.rs`: the contract's settings and persistent tables.
  - `contract.rs`: the entry points. Each takes the storage and returns the
    actions the host must carry out (authorizations, token transfers,
    events), or the failure; a failure leaves the storage unchanged.
  - `glyphs.rs`: minting, painting and hashing glyphs, scraping.
  - `offers.rs`: the exchange and its royalties.
  - `laws.rs`: properties that span operations, proved over the specifications.
  - `palette.rs`, `trades.rs`, `utils.rs`: the palette prototype, the first
    counter-based contract, and color conversion.
- `tests/` — the tests, run against the compiled library.
- `app/` — the contract on the Soroban host: it loads the state, runs the
  model, and carries out the actions.

Scope: the model follows the current contract. The earlier `contract/`
generation (signature-based offers and trades, the `mine`/`xfer`/`mint`
entry points) is not modelled: it does not build as it stands, and the current
contract supersedes it. The first counter-based contract and the palette
prototype are modelled in `trades.rs` and `palette.rs`.
