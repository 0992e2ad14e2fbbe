# vibes

Two small web services and the verified library behind them.

- `src/game.rs`: cards, hands, the shoe and the blackjack rules (scoring with soft
  aces, the dealer's turn, the result of a round).
- `src/state.rs`: a player's session: dealing, hitting, standing, doubling down and
  the payouts.
- `src/api.rs`: what the blackjack service decides: table limits for bets, session ids,
  and the view of a session it returns.
- `src/redact.rs`: log redaction (IPs, domains, `*.teleport.sh` tenants; well-known
  domains and code references kept).
- `src/redact_plain.rs`: the plain redaction that replaces every domain.
- `app/`: the axum servers, their JSON types and the in-memory session store.

Every function in `src/` carries a contract that Verus proves; the calls into `rand`,
`regex` and `uuid` go through small trusted wrappers whose contracts say what those
crates document.
