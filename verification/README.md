# arena_contracts

The logic of the Arena DAO smart contracts (competition enrollment, escrow,
fundraise, the arena core registries, discord identities and the agon escrow),
written in Verus and proved against its contracts.

## Layout

- `src/`: the verified library, one module per concern.
  - `math.rs`: 18-decimal fixed-point values, computed by `cosmwasm-std`
    behind trusted wrappers; `enrollment.rs` holds the other wrappers (integer
    parsing, SHA-256 and instantiate2 addresses) and `arena_core.rs` the one
    that reads instantiation responses.
  - `amount_map.rs`, `nft_set.rs`, `balance.rs`, `member_balances.rs`,
    `balance_manager.rs`: the balance algebra (native, cw20 and cw721 tokens)
    and the per-address ledger.
  - `distribution.rs`: layered fees, splits by percentage, routes of shares.
  - `escrow.rs`: dues, deposits, locking and distribution of an escrow.
  - `fundraise.rs`: the fundraise state machine.
  - `enrollment.rs`: enrollment rules, the enrollment registry, and the
    steps of an enrollment's life (creation, finalization, the reply to the
    competition's creation, migrations) with the messages they call for.
  - `arena_core.rs`, `leaderboard.rs`: categories, rulesets, competition
    modules, tax and rating settings, the stored ratings and their
    leaderboard.
  - `discord.rs`: discord profiles, connections and the faucet rule.
  - `agon.rs`: agon rulesets and the agon escrow.
  - `agon_core.rs`: the agon core's competition modules and wagers, and its
    replies to the instantiations it asks for.
  - `id_map.rs`, `str_map.rs`, `order.rs`, `chain.rs`: keyed collections,
    string orders, and the chain's time and coin types.
- `tests/`: tests of the library on concrete values.
- `app/`: the contract entry points: messages, storage and replies, around the
  library.

## Checking

Verus verifies `src/`; the tests run against the compiled library with the
outside crates linked.
