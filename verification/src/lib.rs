//! An on-demand incremental computation engine.
//!
//! A `Database` holds a graph of memoized queries: base inputs written by a
//! mutator and derived queries recomputed from the queries they read.  The
//! engine answers "could this query's value have changed since revision R?"
//! by a cheap durability check where possible, by walking the recorded
//! dependency edges in the order they were read where necessary, and by
//! re-executing the query only as a last resort, backdating the change
//! timestamp when the recomputed value turns out to be equal to its
//! predecessor.  A claim table grants the right to compute a key to one
//! caller at a time and turns a re-entrant claim into a cycle signal.

mod claim;
mod counts;
mod durability;
mod engine;
mod memo;

pub use claim::ClaimOutcome;
pub use claim::ClaimTable;
pub use counts::WorkCounts;
pub use counts::WorkSnapshot;
pub use durability::Durability;
pub use durability::dur_min;
pub use engine::Database;
pub use engine::Op;
pub use engine::QueryRule;
pub use engine::Signal;
pub use engine::eval_op;
pub use engine::eval_vec;
pub use engine::lemma_idle_holders;
pub use engine::lemma_memo_bounds;
pub use memo::Memo;
pub use memo::MemoCore;
pub use memo::QueryOrigin;
pub use memo::origin_edges;
