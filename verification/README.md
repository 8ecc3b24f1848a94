# nft_staking

Two NFT staking contracts for NEAR, as verified state machines.

- `Contract` (`src/lib.rs`) shares the reward pool once per epoch among the owners of
  locked stakes, in proportion to how many tokens each has listed.
- `contract::StakingContract` (`src/contract.rs`, `admin.rs`, `rewards.rs`, `views.rs`,
  `events.rs`, `weights.rs`) weighs each stake, in basis points, by its lock-duration
  multiplier and its owner's tier bonus, credits every claimed epoch, and pays the processed
  balance out on claim.

Each method takes what the chain supplies (caller, block time, attached deposit) as arguments,
returns the calls to make as `promise::PromiseAction` values and the events to log, and fails
with an error (and no change of state) where the contract would panic.

Supporting modules: `strmap` (string-keyed maps kept as insertion-ordered entry vectors),
`lists` (token lists), `text` (message splitting, decimal numbers, account ids through
`near_sdk::AccountId`).

`app/` is the NEAR contract around the library: it reads the runtime environment, stores the
state with Borsh, logs events as `EVENT_JSON` and builds the promises.
