# orchestration

Building blocks of an agent runtime, written in Verus: every function of the
library states what it returns or changes in `requires` / `ensures`, and the
verifier proves the code against those statements.

## Layout

- `src/` — the verified library.
  - `durable/` — an append-only run journal and deterministic replay: a
    recorded activity is answered from the journal and never run again.
  - `durable_schedule.rs`, `durable_inbox.rs` — schedules with catch-up
    firing and compare-and-set state, and an acknowledged delivery inbox.
  - `cron.rs` — five-field cron expressions and Vixie shorthands: parsing
    (with the exact error for each refused field), matching and the next
    matching minute.
  - `job_ring.rs`, `job_board.rs`, `output_retention.rs` — bounded output
    buffers addressed by absolute offset, with accounted eviction.
  - `context_budget.rs`, `context_fold/`, `context_rot.rs`,
    `context_overflow.rs`, `compaction_checkpoint/`, `continuation.rs`,
    `prompt_stabilizer.rs`, `ambient_context.rs`, `async_context.rs` —
    assembling, folding and compacting model context within budgets.
  - `council/`, `cognitive_quota_scheduler.rs`, `call_scheduler.rs`,
    `plan_mode.rs`, `repetition_advisory.rs`, `orchestrator.rs`, `llm.rs`,
    `lineage_spawning.rs` — decision rules, schedulers and their typed
    results.
- `tests/` — executable tests of the library.
- `app/` — ordinary Rust around the library: async side-calls, timers, file
  writes, floating-point scores and the serde forms of the library's types.

## Reading the contracts

Each module models its data as plain mathematical values (`Seq`, `Set`,
`Map`, integers) through spec functions and views; a public function's
`ensures` pins its result to those values. Properties that relate several
calls (a replay gives back what a fresh run recorded, a fold tiles the
transcript, a reparse keeps every field) are public proof functions next
to the code they speak of.

Where the library hands work to code it does not know — an activity
executor, a compactor — the trait carries a relation (`may_answer`,
`may_decide`) that an implementation may state of itself; the library's
contracts say that whatever came back satisfied it, and what was done with
it. Calls into std and serde_json that nothing here proves sit behind small
trusted wrappers whose doc comments say what is assumed of them.
