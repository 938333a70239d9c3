//! A crafting-queue suggestion engine.
//!
//! Given a catalog of craftable modifiers (each with an optional recipe, a
//! bag of rewards and an optional effect), a player's stash of owned
//! modifiers and a partially filled four-slot crafting queue, the engine
//! suggests how to complete the queue so that a prioritized roster of target
//! combos is advanced and the expected reward value is maximized.
//!
//! Every function is specified and verified: the contracts pin the result
//! exactly, and `laws` states the engine-wide guarantees — a full queue
//! yields nothing, the roster's first matching combo wins, any suggestion
//! fits four distinct slots over the queue, an unrelated stash yields
//! nothing, and identical inputs always yield identical results.
//!
//! Three representation choices keep the engine exactly reproducible:
//! combo values are integers in quarter units (four times the reward
//! contribution, so the reroll factor `1 + rerolls / 4` stays exact),
//! ownership ratios are compared as exact rationals by cross
//! multiplication, and the anytime search cutoff is a fixed count of
//! search-loop steps rather than a wall clock.  Arithmetic that could
//! exceed its type saturates instead of overflowing.
//!
//! Module map: `catalog` holds the data model and its well-formedness,
//! `construct` builds and validates a catalog, `value` scores ordered
//! combos, `produce` resolves which modifiers a combo produces,
//! `candidates` generates and ranks search moves, `permute` orders a
//! candidate id set, `engine` runs the fast path and the backtracking
//! search, `cache` memoizes results, and `laws` proves the engine-wide
//! properties.

pub mod cache;
pub mod candidates;
pub mod catalog;
pub mod construct;
pub mod engine;
pub mod laws;
pub mod permute;
pub mod produce;
pub mod seqs;
pub mod settings;
pub mod value;
