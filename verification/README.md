# openhuman_core

The decision logic of the OpenHuman agent core, written in Verus and proved
against its contracts.

## Layout

- `src/text.rs` — character-level text operations (`trim`, `lines`, joining,
  UTF-8 lengths) with their specifications.
- `src/compaction/` — tool-output compaction: routing by tool and content
  (`mod.rs`), the search-result compressor (`search.rs`), the JSON-array
  crusher (`json_crusher.rs`) and the bounded compress-cache-retrieve store
  (`store.rs`).
- `src/background_completions.rs` — the per-session queue of finished
  background sub-agents and the batched notice that delivers them.
- `src/task_board.rs`, `src/task_dispatcher.rs` — task cards, the prompt a
  card becomes, which cards the poller may dispatch, and the write-back of a
  run's outcome.
- `src/task_sources/` — task identity and dedup, and how a fetched task
  becomes a card on the `task-sources` board.
- `src/orchestration/` — DM ingest (stream filter, classification, the
  dedupe → decrypt → persist → acknowledge protocol) and the orchestration
  tools.
- `src/archivist.rs` — what a finished turn contributes to episodic memory
  and the memory tree.
- `src/gameplay_review.rs`, `src/preferences.rs` — controller schemas and the
  standing-preferences block.
- `tests/` — scenario tests run against the compiled library.
- `app/` — process-level glue: the process-wide stores, clock- and
  entropy-based ids, JSON at the tool and card-metadata boundaries, and the
  urgency-ranked pick of the next card.

Calls into `sha2`, `hex` and `serde_json` stand behind small trusted wrappers
whose contracts are documented where they are declared.
