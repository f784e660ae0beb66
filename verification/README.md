# gitcoin_allo_contracts

Quadratic funding for dependency matching pools on Soroban, written in Verus.

- `src/fixed_point.rs`: `FixedPoint`, a signed decimal `value / precision`
  held in two `i128`s, with addition, subtraction, multiplication, division
  (rounding toward zero, as Rust's `/`) and an integer Newton square root.
  Laws: subtraction undoes addition, multiplying or dividing by one changes
  nothing, whole numbers multiply and divide exactly, and the square root is
  exact on perfect squares and otherwise within one unit of the true root.
- `src/quadratic_funding.rs`: `QuadraticFundingEngine::calculate` shares a
  matching pool among projects in proportion to the square root of each
  project's average contribution per distinct donor, times its number of
  distinct donors. Its result, one entry per project in ascending project id,
  is stated exactly, as is when it fails.
  Laws: the amounts never add up to more than the pool, a lone project gets
  the whole pool, more weight never gets less, repeat donors count once, any
  reordering of the contributions gives the same results (and, with no
  negative amount, the same success or failure), and splitting one gift into
  two by the same donor to the same project changes nothing.
- `src/protocol.rs`: `AlloProtocol`, the contract's stored state and the
  rules of each call (project and contribution ids from one shared counter,
  matching rounds, payouts from the pool). Each call's effect is a spec
  function of the state, and laws over any sequence of calls follow from it:
  project ids stay distinct and increasing, a registered project stays
  readable, every contribution joins the next matching round, and the last
  round's results stay readable until the next round.
- Storage: the library keeps its projects, contributions and results in
  `Vec`s and `HashMap`s keyed by integer ids rather than in Soroban's host
  `Map` and `Vec`. Those are handles into a host environment, and the
  `#[contracttype]` derive that stores a type in them cannot stand in
  verified code; `app/` converts between the two. Results come out in
  ascending project id, the order in which the host's `Map` yields them.
- `app/lib.rs`: the Soroban contract itself: authorization, instance
  storage, and the payout event, around `protocol::AlloProtocol`.
- `tests/`: scenarios and exact values for each part.
