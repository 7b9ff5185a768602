use vstd::prelude::*;

verus! {

/// Outcome of a claim attempt on the single-flight table.
#[derive(Clone, Copy, Debug, PartialEq, Eq, Structural)]
pub enum ClaimOutcome {
    /// The caller now holds the exclusive right to compute this key.
    Granted,
    /// Another, unrelated call chain holds the claim; the caller should
    /// retry after the holder publishes and releases.
    Contended,
    /// The requesting call chain itself already holds this key further up
    /// its active query stack: a true cycle, to be failed fast, never
    /// retried.
    CycleDetected,
}

/// The single-flight claim table: at most one caller at a time holds the
/// right to compute a given key.  A claim attempt distinguishes contention
/// by a foreign call chain, which is transient, from a re-entrant claim by
/// the requesting chain itself, which is a dependency cycle.
pub struct ClaimTable {
    /// One flag per key; `true` while some caller holds the key.
    pub held: Vec<bool>,
}

impl ClaimTable {
    /// Whether key `k` is currently claimed.
    pub open spec fn holds(self, k: int) -> bool {
        0 <= k < self.held@.len() && self.held@[k]
    }

    /// An empty table, for a store with no keys yet.
    pub fn new() -> (t: ClaimTable)
        ensures
            t.held@.len() == 0,
    {
        ClaimTable { held: Vec::new() }
    }

    /// Extends the table with one more key, initially unclaimed.
    pub fn add_key(&mut self)
        ensures
            final(self).held@.len() == old(self).held@.len() + 1,
            forall|j: int| 0 <= j < old(self).held@.len() ==> final(self).held@[j] == old(self).held@[j],
            !final(self).holds(old(self).held@.len() as int),
    {
        self.held.push(false);
    }

    /// Whether key `key` is currently claimed.
    pub fn holds_key(&self, key: usize) -> (r: bool)
        requires
            key < self.held@.len(),
        ensures
            r == self.holds(key as int),
    {
        self.held[key]
    }

    /// Attempts to claim `key` for the call chain whose active query stack
    /// is `chain`.  Grants exclusive ownership when the key is free; when it
    /// is already held, reports a cycle if the requesting chain itself holds
    /// it, and contention otherwise.
    pub fn claim(&mut self, key: usize, chain: &Vec<usize>) -> (o: ClaimOutcome)
        requires
            key < old(self).held@.len(),
        ensures
            final(self).held@.len() == old(self).held@.len(),
            !old(self).holds(key as int) ==> {
                &&& o == ClaimOutcome::Granted
                &&& final(self).holds(key as int)
                &&& forall|j: int| 0 <= j < old(self).held@.len() && j != key ==> final(self).held@[j] == old(self).held@[j]
            },
            old(self).holds(key as int) ==> {
                &&& final(self).held@ == old(self).held@
                &&& o == (if chain@.contains(key) {
                    ClaimOutcome::CycleDetected
                } else {
                    ClaimOutcome::Contended
                })
            },
    {
        if self.held[key] {
            if chain_contains(chain, key) {
                ClaimOutcome::CycleDetected
            } else {
                ClaimOutcome::Contended
            }
        } else {
            self.held[key] = true;
            ClaimOutcome::Granted
        }
    }

    /// Releases a held claim; part of every exit path of a verification or
    /// recomputation attempt.
    pub fn release(&mut self, key: usize)
        requires
            old(self).holds(key as int),
        ensures
            final(self).held@.len() == old(self).held@.len(),
            !final(self).holds(key as int),
            forall|j: int| 0 <= j < old(self).held@.len() && j != key ==> final(self).held@[j] == old(self).held@[j],
    {
        self.held[key] = false;
    }
}

/// Whether the call chain `chain` contains the key `x`.
fn chain_contains(chain: &Vec<usize>, x: usize) -> (r: bool)
    ensures
        r == chain@.contains(x),
{
    let mut i: usize = 0;
    while i < chain.len()
        invariant
            i <= chain@.len(),
            forall|j: int| 0 <= j < i ==> chain@[j] != x,
        decreases chain@.len() - i,
    {
        if chain[i] == x {
            return true;
        }
        i = i + 1;
    }
    false
}

} // verus!
