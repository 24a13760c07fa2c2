# typing_prac

The core of a touch-typing practice app, written in Verus: the session
generator, the adaptive weighting, the practice statistics and the local
profiles with their sign-in pause, each with a contract that Verus proves.

## Layout

- `src/` — the verified library.
  - `rng.rs` — the xorshift generator and its shuffle (a permutation).
  - `patterns.rs`, `lines.rs`, `coverage.rs`, `plan.rs` — the exercise
    patterns, the standalone and mixed lines, the directed transition
    schedule and its section, and the assembly of a session's six sections.
  - `template.rs` — session templates and the split of a session's lines
    over its sections.
  - `adaptive.rs` — weights for weak keys and transitions, and weighted walks.
  - `generator.rs` — request validation and session generation.
  - `model.rs`, `strmap.rs` — the statistics model and the string-keyed map
    it is stored in.
  - `auth.rs`, `accounts.rs`, `storage.rs` — credentials, password hashing
    (Argon2, through trusted wrappers), profiles, sign-in and recovery of the
    stored profiles.
  - `laws.rs`, `directions.rs`, `grouping.rs` — properties of whole
    sessions: their shape, their reproducibility from a seed, directed
    transition coverage, cross-pair groups in mixed practice, and groups of
    two to twelve keys (ten in short and medium sessions) joined by single
    spaces.
- `tests/` — tests of the library.
- `app/` — the desktop shell (Tauri commands, file storage, serde copies of
  the library's types).
