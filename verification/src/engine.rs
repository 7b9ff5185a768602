use vstd::prelude::*;

use crate::claim::ClaimOutcome;
use crate::claim::ClaimTable;
use crate::durability::Durability;
use crate::durability::dur_min;
use crate::memo::Memo;
use crate::memo::MemoCore;
use crate::memo::QueryOrigin;
use crate::memo::origin_edges;

verus! {

/// A non-answer signal propagated out of a verification attempt.
#[derive(Clone, Copy, Debug, PartialEq, Eq, Structural)]
pub enum Signal {
    /// A revision bump is pending elsewhere; the whole operation must be
    /// retried by the top-level caller once the bump completes.
    Cancelled,
    /// The requested key is already being computed further up the same call
    /// chain: a dependency cycle.
    Cycle,
}

/// The combining operation of a derived query: how its value is computed
/// from the values of its dependencies, read in order.
#[derive(Clone, Copy, Debug, PartialEq, Eq, Structural)]
pub enum Op {
    /// Sum of the dependency values, wrapping on overflow.
    Sum,
    /// Product of the dependency values, wrapping on overflow.
    Product,
    /// Minimum of the dependency values; the maximum integer when there are
    /// none.
    Min,
}

/// How a key's value comes to exist: written from outside, or recomputed
/// from the listed dependencies.
#[derive(Debug)]
pub enum QueryRule {
    /// A base input (or structural field): the value is only ever written
    /// by a mutator.
    Input,
    /// A derived query: the executor reads `deps` in order and combines
    /// their values with `op`.  When `untracked` is set the computation
    /// also read state outside the tracked system, so its memos can never
    /// be proven unchanged.
    Derived { deps: Vec<usize>, op: Op, untracked: bool },
}

/// Wrapping 64-bit reduction of a mathematical integer.
pub open spec fn wrap64(x: int) -> u64 {
    (x % 0x1_0000_0000_0000_0000) as u64
}

/// The value of a combining operation over a sequence of dependency
/// values, folded left to right.
pub open spec fn eval_op(op: Op, vals: Seq<u64>) -> u64
    decreases vals.len(),
{
    if vals.len() == 0 {
        match op {
            Op::Sum => 0,
            Op::Product => 1,
            Op::Min => u64::MAX,
        }
    } else {
        let rest = eval_op(op, vals.drop_last());
        match op {
            Op::Sum => wrap64(rest + vals.last()),
            Op::Product => wrap64(rest * vals.last()),
            Op::Min => if vals.last() < rest {
                vals.last()
            } else {
                rest
            },
        }
    }
}

/// Wrapping 64-bit addition.
fn wrap_add(a: u64, b: u64) -> (r: u64)
    ensures
        r == wrap64(a + b),
{
    if a <= u64::MAX - b {
        assert(wrap64(a + b) == a + b) by {
            assert((a + b) % 0x1_0000_0000_0000_0000 == a + b) by (nonlinear_arith)
                requires 0 <= a + b < 0x1_0000_0000_0000_0000;
        };
        a + b
    } else {
        let r = b - (u64::MAX - a) - 1;
        assert(r == a + b - 0x1_0000_0000_0000_0000);
        assert(wrap64(a + b) == a + b - 0x1_0000_0000_0000_0000) by {
            assert((a + b) % 0x1_0000_0000_0000_0000 == a + b - 0x1_0000_0000_0000_0000)
                by (nonlinear_arith)
                requires 0x1_0000_0000_0000_0000 <= a + b < 2 * 0x1_0000_0000_0000_0000;
        };
        r
    }
}

/// Wrapping 64-bit multiplication, computed exactly in 128 bits.
fn wrap_mul(a: u64, b: u64) -> (r: u64)
    ensures
        r == wrap64(a * b),
{
    proof {
        assert((a as int) * (b as int) < 0x1_0000_0000_0000_0000_0000_0000_0000_0000)
            by (nonlinear_arith)
            requires a < 0x1_0000_0000_0000_0000, b < 0x1_0000_0000_0000_0000;
    }
    let wide: u128 = (a as u128) * (b as u128);
    let rem: u128 = wide % 0x1_0000_0000_0000_0000u128;
    assert(rem < 0x1_0000_0000_0000_0000);
    assert(rem == (a * b) % 0x1_0000_0000_0000_0000);
    rem as u64
}

/// Saturating 64-bit addition, for counters that must never move backward.
fn sat_add(a: u64, b: u64) -> (r: u64)
    ensures
        r == if a + b <= u64::MAX { (a + b) as u64 } else { u64::MAX },
{
    if a <= u64::MAX - b {
        a + b
    } else {
        u64::MAX
    }
}

/// Folds a vector of dependency values with a combining operation.
pub fn eval_vec(op: Op, vals: &Vec<u64>) -> (r: u64)
    ensures
        r == eval_op(op, vals@),
{
    let mut acc: u64 = match op {
        Op::Sum => 0,
        Op::Product => 1,
        Op::Min => u64::MAX,
    };
    let mut i: usize = 0;
    while i < vals.len()
        invariant
            i <= vals@.len(),
            acc == eval_op(op, vals@.take(i as int)),
        decreases vals@.len() - i,
    {
        let v = vals[i];
        acc = match op {
            Op::Sum => wrap_add(acc, v),
            Op::Product => wrap_mul(acc, v),
            Op::Min => if v < acc {
                v
            } else {
                acc
            },
        };
        proof {
            assert(vals@.take(i + 1).drop_last() =~= vals@.take(i as int));
            assert(vals@.take(i + 1).last() == vals@[i as int]);
        }
        i = i + 1;
    }
    proof {
        assert(vals@.take(vals@.len() as int) =~= vals@);
    }
    acc
}

/// The incremental computation database: the revision clock with its
/// per-tier durability table, the memo store, the single-flight claim
/// table, and the active query stack of the (single) call chain driving it.
pub struct Database {
    /// How each key's value comes to exist; fixed at registration.
    pub rules: Vec<QueryRule>,
    /// The immutable core of each key's memo, replaced whole on
    /// recomputation, never mutated in place.
    pub memos: Vec<Option<MemoCore>>,
    /// The revision as of which each memo was last confirmed valid; the one
    /// field of a memo designed for in-place update.
    pub verified: Vec<u64>,
    /// Each memo's value; absent before the first computation or after the
    /// value has been evicted to reclaim memory.
    pub values: Vec<Option<u64>>,
    /// How many times each key's executor has run (saturating).
    pub execs: Vec<u64>,
    /// How many times each key has been asked about (saturating).
    pub probes: Vec<u64>,
    /// The current revision; strictly increases with every input mutation.
    pub revision: u64,
    /// Last revision at which an input of durability `Low` or higher was
    /// mutated; always the largest of the three.
    pub last_low: u64,
    /// Last revision at which an input of durability `Medium` or higher was
    /// mutated.
    pub last_medium: u64,
    /// Last revision at which an input of durability `High` was mutated.
    pub last_high: u64,
    /// The single-flight claim table.
    pub claims: ClaimTable,
    /// The active query stack: the keys currently being verified or
    /// computed by this call chain, outermost first.
    pub active: Vec<usize>,
    /// Cooperative cancellation flag: set while a revision bump is pending,
    /// polled at the top of every verification entry point.
    pub cancelled: bool,
}

impl Database {
    /// Number of registered keys.
    pub open spec fn n(self) -> int {
        self.rules@.len() as int
    }

    /// All parallel stores cover exactly the registered keys.
    pub open spec fn lens_ok(self) -> bool {
        &&& self.memos@.len() == self.n()
        &&& self.verified@.len() == self.n()
        &&& self.values@.len() == self.n()
        &&& self.execs@.len() == self.n()
        &&& self.probes@.len() == self.n()
        &&& self.claims.held@.len() == self.n()
    }

    /// The memo of key `k`, assembled into the shape the contracts speak
    /// of.
    pub open spec fn memo_of(self, k: int) -> Option<Memo> {
        match self.memos@[k] {
            Some(mc) => Some(
                Memo {
                    value: self.values@[k],
                    changed_at: mc.changed_at,
                    verified_at: self.verified@[k],
                    durability: mc.durability,
                    origin: mc.origin,
                },
            ),
            None => None,
        }
    }

    /// The most recent revision at which an input of durability `d` or
    /// higher was mutated.
    pub open spec fn last_changed_spec(self, d: Durability) -> u64 {
        match d {
            Durability::Low => self.last_low,
            Durability::Medium => self.last_medium,
            Durability::High => self.last_high,
        }
    }

    /// The O(1) verification criterion for key `k`'s memo: already checked
    /// this revision, or nothing at or above its durability has moved since
    /// it was last confirmed.
    pub open spec fn shallow_ok_at(self, k: int) -> bool {
        match self.memos@[k] {
            Some(mc) => self.verified@[k] == self.revision || self.last_changed_spec(mc.durability)
                <= self.verified@[k],
            None => false,
        }
    }

    /// A derived rule's dependency keys; empty for inputs.
    pub open spec fn rule_deps(self, k: int) -> Seq<usize> {
        match self.rules@[k] {
            QueryRule::Derived { deps, .. } => deps@,
            QueryRule::Input => Seq::empty(),
        }
    }

    /// Every dependency of a derived rule is a registered key.
    pub open spec fn rule_ok(self, k: int) -> bool {
        forall|i: int| 0 <= i < self.rule_deps(k).len() ==> (self.rule_deps(k)[i] as int) < self.n()
    }

    /// Per-key well-formedness: the memo's timestamps are ordered and no
    /// recorded edge or producer leaves the key space; the origin agrees
    /// with the rule, and origins written from outside always carry a
    /// value.
    pub open spec fn slot_ok(self, k: int) -> bool {
        match self.memos@[k] {
            Some(mc) => {
                &&& mc.changed_at <= self.verified@[k]
                &&& self.verified@[k] <= self.revision
                &&& forall|i: int|
                    0 <= i < origin_edges(mc.origin).len() ==> (origin_edges(mc.origin)[i] as int)
                        < self.n()
                &&& (mc.origin matches QueryOrigin::Assigned(p) ==> (p as int) < self.n())
                &&& (self.rules@[k] is Input <==> (mc.origin is BaseInput || mc.origin is Field))
                &&& ((mc.origin is BaseInput || mc.origin is Field || mc.origin is Assigned)
                    ==> self.values@[k] is Some)
            },
            None => self.values@[k] is None && !(self.rules@[k] is Input),
        }
    }

    /// The active query stack lists distinct registered keys, and a key is
    /// claimed exactly while it is on the stack.
    pub open spec fn stack_ok(self) -> bool {
        &&& self.active@.len() <= self.n()
        &&& self.active@.no_duplicates()
        &&& forall|i: int| 0 <= i < self.active@.len() ==> (self.active@[i] as int) < self.n()
        &&& forall|k: int|
            0 <= k < self.n() ==> (self.claims.holds(k) <==> self.active@.contains(k as usize))
    }

    /// The durability clock is ordered: a higher tier never records a later
    /// change than a lower one, and none runs ahead of the revision.
    pub open spec fn clock_ok(self) -> bool {
        &&& self.last_high <= self.last_medium
        &&& self.last_medium <= self.last_low
        &&& self.last_low <= self.revision
    }

    /// Well-formedness of the whole database.
    pub open spec fn wf(self) -> bool {
        &&& self.lens_ok()
        &&& self.clock_ok()
        &&& self.stack_ok()
        &&& self.claim_frame_ok()
        &&& forall|k: int| 0 <= k < self.n() ==> self.slot_ok(k)
        &&& forall|k: int| 0 <= k < self.n() ==> self.rule_ok(k)
    }

    /// Key `k` is settled for the present revision: it has a memo confirmed
    /// at the current revision whose value is present.  Such a key is left
    /// exactly as it is by every further engine operation in this revision.
    pub open spec fn pinned(self, k: int) -> bool {
        &&& self.memos@[k] is Some
        &&& self.verified@[k] == self.revision
        &&& self.values@[k] is Some
    }

    /// Key `k`'s stored state is the same in `post` as in `self` (the probe
    /// counter aside).
    pub open spec fn slot_untouched(self, post: Database, k: int) -> bool {
        &&& post.memos@[k] == self.memos@[k]
        &&& post.values@[k] == self.values@[k]
        &&& post.verified@[k] == self.verified@[k]
        &&& post.execs@[k] == self.execs@[k]
    }

    /// Nothing but memo states and counters may differ between `self` and
    /// `post`: the key space, the rules, the revision clock and the
    /// cancellation flag are all the same.
    pub open spec fn same_config(self, post: Database) -> bool {
        &&& post.rules == self.rules
        &&& post.revision == self.revision
        &&& post.last_low == self.last_low
        &&& post.last_medium == self.last_medium
        &&& post.last_high == self.last_high
        &&& post.cancelled == self.cancelled
        &&& post.memos@.len() == self.memos@.len()
        &&& post.verified@.len() == self.verified@.len()
        &&& post.values@.len() == self.values@.len()
        &&& post.execs@.len() == self.execs@.len()
        &&& post.probes@.len() == self.probes@.len()
        &&& post.claims.held@.len() == self.claims.held@.len()
    }

    /// The call-chain state is as it was: same active query stack, same
    /// claims.
    pub open spec fn chain_restored(self, post: Database) -> bool {
        &&& post.active@ == self.active@
        &&& post.claims.held@ == self.claims.held@
    }

    /// Memos only ever gain ground: none disappears, `verified_at` and
    /// `changed_at` never decrease, and executor counters never decrease.
    pub open spec fn memos_monotonic(self, post: Database) -> bool {
        forall|k: int|
            #![trigger post.memos@[k]]
            0 <= k < self.n() ==> {
                &&& (self.memos@[k] is Some ==> post.memos@[k] is Some)
                &&& (self.memos@[k] is Some ==> post.verified@[k] >= self.verified@[k])
                &&& (self.memos@[k] is Some ==> post.memos@[k]->Some_0.changed_at
                    >= self.memos@[k]->Some_0.changed_at)
                &&& post.execs@[k] >= self.execs@[k]
            }
    }

    /// Keys already settled for this revision are left exactly as they are.
    pub open spec fn pinned_preserved(self, post: Database) -> bool {
        forall|k: int| #![trigger self.pinned(k)] 0 <= k < self.n() && self.pinned(k) ==> self.slot_untouched(post, k)
    }

    /// Keys claimed at entry, other than `except`, are left exactly as they
    /// are: a computation in flight never has its memo replaced under it.
    pub open spec fn claimed_preserved_except(self, post: Database, except: int) -> bool {
        forall|k: int|
            #![trigger self.claims.holds(k)]
            0 <= k < self.n() && k != except && self.claims.holds(k) ==> self.slot_untouched(
                post,
                k,
            )
    }

    /// The common frame of every verification entry point: configuration
    /// kept, chain restored, memos monotonic, settled and claimed keys
    /// untouched.
    pub open spec fn engine_frame(self, post: Database) -> bool {
        &&& self.same_config(post)
        &&& self.chain_restored(post)
        &&& self.memos_monotonic(post)
        &&& self.pinned_preserved(post)
        &&& self.claimed_preserved_except(post, -1)
    }

    /// Everything but the probe counters is exactly as it was.
    pub open spec fn quiet(self, post: Database) -> bool {
        &&& self.same_config(post)
        &&& self.chain_restored(post)
        &&& post.memos@ == self.memos@
        &&& post.verified@ == self.verified@
        &&& post.values@ == self.values@
        &&& post.execs@ == self.execs@
    }

    /// A fresh, empty database.  The revision clock starts at one, with no
    /// tier changed later than the start.
    pub fn new() -> (db: Database)
        ensures
            db.wf(),
            db.n() == 0,
            db.revision == 1,
            db.active@.len() == 0,
            !db.cancelled,
            db.layered(),
    {
        Database {
            rules: Vec::new(),
            memos: Vec::new(),
            verified: Vec::new(),
            values: Vec::new(),
            execs: Vec::new(),
            probes: Vec::new(),
            revision: 1,
            last_low: 1,
            last_medium: 1,
            last_high: 1,
            claims: ClaimTable::new(),
            active: Vec::new(),
            cancelled: false,
        }
    }

    /// Registers a fresh base input with its initial value, installing a
    /// `BaseInput` memo stamped at the current revision.
    pub fn register_input(&mut self, value: u64, durability: Durability) -> (key: usize)
        requires
            old(self).wf(),
        ensures
            final(self).wf(),
            key as int == old(self).n(),
            final(self).n() == old(self).n() + 1,
            final(self).revision == old(self).revision,
            final(self).last_low == old(self).last_low,
            final(self).last_medium == old(self).last_medium,
            final(self).last_high == old(self).last_high,
            final(self).cancelled == old(self).cancelled,
            final(self).active@ == old(self).active@,
            forall|k: int| 0 <= k < old(self).n() ==> old(self).slot_untouched(*final(self), k)
                && final(self).rules@[k] == old(self).rules@[k]
                && final(self).probes@[k] == old(self).probes@[k]
                && final(self).claims.held@[k] == old(self).claims.held@[k],
            final(self).rules@[key as int] is Input,
            final(self).memo_of(key as int) == Some(
                Memo {
                    value: Some(value),
                    changed_at: old(self).revision,
                    verified_at: old(self).revision,
                    durability: durability,
                    origin: QueryOrigin::BaseInput,
                },
            ),
            old(self).layered() ==> final(self).layered(),
    {
        self.register_with_origin(value, durability, false)
    }

    /// Registers a structural field fixed at construction time of its
    /// owning entity, installing a `Field` memo stamped at the current
    /// revision.
    pub fn register_field(&mut self, value: u64, durability: Durability) -> (key: usize)
        requires
            old(self).wf(),
        ensures
            final(self).wf(),
            key as int == old(self).n(),
            final(self).n() == old(self).n() + 1,
            final(self).revision == old(self).revision,
            final(self).cancelled == old(self).cancelled,
            final(self).active@ == old(self).active@,
            forall|k: int| 0 <= k < old(self).n() ==> old(self).slot_untouched(*final(self), k)
                && final(self).rules@[k] == old(self).rules@[k]
                && final(self).probes@[k] == old(self).probes@[k]
                && final(self).claims.held@[k] == old(self).claims.held@[k],
            final(self).memo_of(key as int) == Some(
                Memo {
                    value: Some(value),
                    changed_at: old(self).revision,
                    verified_at: old(self).revision,
                    durability: durability,
                    origin: QueryOrigin::Field,
                },
            ),
            old(self).layered() ==> final(self).layered(),
    {
        self.register_with_origin(value, durability, true)
    }

    /// Shared body of input and field registration.
    fn register_with_origin(&mut self, value: u64, durability: Durability, field: bool) -> (key:
        usize)
        requires
            old(self).wf(),
        ensures
            final(self).wf(),
            key as int == old(self).n(),
            final(self).n() == old(self).n() + 1,
            final(self).revision == old(self).revision,
            final(self).last_low == old(self).last_low,
            final(self).last_medium == old(self).last_medium,
            final(self).last_high == old(self).last_high,
            final(self).cancelled == old(self).cancelled,
            final(self).active@ == old(self).active@,
            forall|k: int| 0 <= k < old(self).n() ==> old(self).slot_untouched(*final(self), k)
                && final(self).rules@[k] == old(self).rules@[k]
                && final(self).probes@[k] == old(self).probes@[k]
                && final(self).claims.held@[k] == old(self).claims.held@[k],
            final(self).rules@[key as int] is Input,
            final(self).memo_of(key as int) == Some(
                Memo {
                    value: Some(value),
                    changed_at: old(self).revision,
                    verified_at: old(self).revision,
                    durability: durability,
                    origin: if field {
                        QueryOrigin::Field
                    } else {
                        QueryOrigin::BaseInput
                    },
                },
            ),
            final(self).execs@[key as int] == 0,
            final(self).probes@[key as int] == 0,
            old(self).layered() ==> final(self).layered(),
    {
        let key = self.rules.len();
        let rev = self.revision;
        self.rules.push(QueryRule::Input);
        self.memos.push(
            Some(
                MemoCore {
                    changed_at: rev,
                    durability,
                    origin: if field {
                        QueryOrigin::Field
                    } else {
                        QueryOrigin::BaseInput
                    },
                },
            ),
        );
        self.verified.push(rev);
        self.values.push(Some(value));
        self.execs.push(0);
        self.probes.push(0);
        self.claims.add_key();
        proof {
            assert forall|k: int| 0 <= k < (*self).n() implies (*self).slot_ok(k)
                && (*self).rule_ok(k) by {
                if k < (*old(self)).n() {
                    assert((*old(self)).slot_ok(k));
                    assert((*old(self)).rule_ok(k));
                    assert((*old(self)).rule_deps(k) == (*self).rule_deps(k));
                }
            }
            assert forall|k: int|
                0 <= k < (*self).n() implies ((*self).claims.holds(k)
                <==> (*self).active@.contains(k as usize)) by {
                if k < (*old(self)).n() {
                    assert((*old(self)).claims.holds(k) <==> (*old(self)).active@.contains(k as usize));
                    assert((*self).claims.holds(k) == (*old(self)).claims.holds(k));
                }
            }
            if (*old(self)).layered() {
                assert forall|k: int| 0 <= k < (*self).n() implies (*self).edges_below(k) by {
                    if k < (*old(self)).n() {
                        assert((*old(self)).edges_below(k));
                        assert((*self).rule_deps(k) == (*old(self)).rule_deps(k));
                        assert((*self).recorded_edges(k) == (*old(self)).recorded_edges(k));
                    }
                }
            }
            assert forall|k: int|
                0 <= k < (*self).n() && (*self).claims.holds(k) implies ((*self).memos@[k]
                is None || !(*self).shallow_ok_at(k) || (*self).verified@[k] == (
            *self).revision) by {
                assert(k < (*old(self)).n());
                assert((*old(self)).claims.holds(k));
                assert((*self).memos@[k] == (*old(self)).memos@[k]);
                assert((*self).verified@[k] == (*old(self)).verified@[k]);
            }
        }
        key
    }

    /// Registers a derived query whose executor reads `deps` in order and
    /// combines their values with `op`.  A dependency may name the new key
    /// itself; fetching such a query then fails with a cycle signal rather
    /// than recursing forever.  No memo exists until the query is first
    /// computed.
    pub fn register_derived(&mut self, deps: Vec<usize>, op: Op, untracked: bool) -> (key: usize)
        requires
            old(self).wf(),
            forall|i: int| 0 <= i < deps@.len() ==> (deps@[i] as int) <= old(self).n(),
        ensures
            final(self).wf(),
            key as int == old(self).n(),
            final(self).n() == old(self).n() + 1,
            final(self).revision == old(self).revision,
            final(self).last_low == old(self).last_low,
            final(self).last_medium == old(self).last_medium,
            final(self).last_high == old(self).last_high,
            final(self).cancelled == old(self).cancelled,
            final(self).active@ == old(self).active@,
            forall|k: int| 0 <= k < old(self).n() ==> old(self).slot_untouched(*final(self), k)
                && final(self).rules@[k] == old(self).rules@[k]
                && final(self).probes@[k] == old(self).probes@[k]
                && final(self).claims.held@[k] == old(self).claims.held@[k],
            final(self).rules@[key as int] == (QueryRule::Derived { deps, op, untracked }),
            final(self).memo_of(key as int) is None,
            final(self).execs@[key as int] == 0,
            final(self).probes@[key as int] == 0,
            old(self).layered() && (forall|i: int|
                0 <= i < deps@.len() ==> (deps@[i] as int) < old(self).n()) ==> final(self).layered(),
    {
        let key = self.rules.len();
        self.rules.push(QueryRule::Derived { deps, op, untracked });
        self.memos.push(None);
        self.verified.push(0);
        self.values.push(None);
        self.execs.push(0);
        self.probes.push(0);
        self.claims.add_key();
        proof {
            assert forall|k: int| 0 <= k < (*self).n() implies (*self).slot_ok(k)
                && (*self).rule_ok(k) by {
                if k < (*old(self)).n() {
                    assert((*old(self)).slot_ok(k));
                    assert((*old(self)).rule_ok(k));
                    assert((*old(self)).rule_deps(k) == (*self).rule_deps(k));
                }
            }
            assert forall|k: int|
                0 <= k < (*self).n() implies ((*self).claims.holds(k)
                <==> (*self).active@.contains(k as usize)) by {
                if k < (*old(self)).n() {
                    assert((*old(self)).claims.holds(k) <==> (*old(self)).active@.contains(k as usize));
                    assert((*self).claims.holds(k) == (*old(self)).claims.holds(k));
                }
            }
            if (*old(self)).layered() && (forall|i: int|
                0 <= i < (*self).rule_deps(key as int).len() ==> ((*self).rule_deps(
                    key as int,
                )[i] as int) < (*old(self)).n()) {
                assert forall|k: int| 0 <= k < (*self).n() implies (*self).edges_below(k) by {
                    if k < (*old(self)).n() {
                        assert((*old(self)).edges_below(k));
                        assert((*self).rule_deps(k) == (*old(self)).rule_deps(k));
                        assert((*self).recorded_edges(k) == (*old(self)).recorded_edges(k));
                    }
                }
            }
            assert forall|k: int|
                0 <= k < (*self).n() && (*self).claims.holds(k) implies ((*self).memos@[k]
                is None || !(*self).shallow_ok_at(k) || (*self).verified@[k] == (
            *self).revision) by {
                assert(k < (*old(self)).n());
                assert((*old(self)).claims.holds(k));
                assert((*self).memos@[k] == (*old(self)).memos@[k]);
                assert((*self).verified@[k] == (*old(self)).verified@[k]);
            }
        }
        key
    }

    /// Mutates a base input: signals any pending readers have unwound (the
    /// cancellation flag is cleared), advances the revision, advances the
    /// durability clock at the input's tier and every tier below it, and
    /// installs a fresh `BaseInput` memo stamped at the new revision.  No
    /// query may be in flight.
    pub fn set_input(&mut self, key: usize, value: u64, durability: Durability)
        requires
            old(self).wf(),
            (key as int) < old(self).n(),
            old(self).rules@[key as int] is Input,
            old(self).revision < u64::MAX,
            old(self).active@.len() == 0,
        ensures
            final(self).wf(),
            final(self).n() == old(self).n(),
            final(self).revision == old(self).revision + 1,
            !final(self).cancelled,
            final(self).active@ == old(self).active@,
            final(self).claims.held@ == old(self).claims.held@,
            final(self).rules == old(self).rules,
            forall|k: int| 0 <= k < old(self).n() && k != key as int ==> old(self).slot_untouched(
                *final(self),
                k,
            ) && final(self).probes@[k] == old(self).probes@[k],
            final(self).probes@[key as int] == old(self).probes@[key as int],
            final(self).memo_of(key as int) == Some(
                Memo {
                    value: Some(value),
                    changed_at: (old(self).revision + 1) as u64,
                    verified_at: (old(self).revision + 1) as u64,
                    durability: durability,
                    origin: QueryOrigin::BaseInput,
                },
            ),
            final(self).last_low == if durability.idx() >= Durability::Low.idx() {
                final(self).revision
            } else {
                old(self).last_low
            },
            final(self).last_medium == if durability.idx() >= Durability::Medium.idx() {
                final(self).revision
            } else {
                old(self).last_medium
            },
            final(self).last_high == if durability.idx() >= Durability::High.idx() {
                final(self).revision
            } else {
                old(self).last_high
            },
            old(self).layered() ==> final(self).layered(),
    {
        self.cancelled = false;
        let rev = self.revision + 1;
        self.revision = rev;
        match durability {
            Durability::Low => {
                self.last_low = rev;
            },
            Durability::Medium => {
                self.last_low = rev;
                self.last_medium = rev;
            },
            Durability::High => {
                self.last_low = rev;
                self.last_medium = rev;
                self.last_high = rev;
            },
        }
        self.memos[key] = Some(
            MemoCore { changed_at: rev, durability, origin: QueryOrigin::BaseInput },
        );
        self.verified[key] = rev;
        self.values[key] = Some(value);
        proof {
            assert forall|k: int| 0 <= k < (*self).n() implies (*self).slot_ok(k) by {
                if k != key as int {
                    assert((*old(self)).slot_ok(k));
                }
            }
            assert forall|k: int| 0 <= k < (*self).n() implies (*self).rule_ok(k) by {
                assert((*old(self)).rule_ok(k));
                assert((*self).rule_deps(k) == (*old(self)).rule_deps(k));
            }
            if (*old(self)).layered() {
                assert forall|k: int| 0 <= k < (*self).n() implies (*self).edges_below(k) by {
                    assert((*old(self)).edges_below(k));
                    assert((*self).rule_deps(k) == (*old(self)).rule_deps(k));
                    if k != key as int {
                        assert((*self).recorded_edges(k) == (*old(self)).recorded_edges(k));
                    }
                }
            }
        }
    }

    /// Installs a value for a derived key as a side effect of the given
    /// producer query, stamped at the current revision.  Such a memo is
    /// never independently re-verifiable: deep verification reports it
    /// stale whenever the durability clock cannot vouch for it.
    pub fn assign(&mut self, key: usize, producer: usize, value: u64, durability: Durability)
        requires
            old(self).wf(),
            (key as int) < old(self).n(),
            (producer as int) < old(self).n(),
            !(old(self).rules@[key as int] is Input),
            !old(self).claims.holds(key as int),
        ensures
            final(self).wf(),
            final(self).n() == old(self).n(),
            final(self).revision == old(self).revision,
            final(self).cancelled == old(self).cancelled,
            final(self).active@ == old(self).active@,
            final(self).claims.held@ == old(self).claims.held@,
            final(self).rules == old(self).rules,
            forall|k: int| 0 <= k < old(self).n() && k != key as int ==> old(self).slot_untouched(
                *final(self),
                k,
            ) && final(self).probes@[k] == old(self).probes@[k],
            final(self).memo_of(key as int) == Some(
                Memo {
                    value: Some(value),
                    changed_at: old(self).revision,
                    verified_at: old(self).revision,
                    durability: durability,
                    origin: QueryOrigin::Assigned(producer),
                },
            ),
            old(self).layered() ==> final(self).layered(),
    {
        let rev = self.revision;
        self.memos[key] = Some(
            MemoCore { changed_at: rev, durability, origin: QueryOrigin::Assigned(producer) },
        );
        self.verified[key] = rev;
        self.values[key] = Some(value);
        proof {
            assert forall|k: int| 0 <= k < (*self).n() implies (*self).slot_ok(k) by {
                if k != key as int {
                    assert((*old(self)).slot_ok(k));
                }
            }
            assert forall|k: int| 0 <= k < (*self).n() implies (*self).rule_ok(k) by {
                assert((*old(self)).rule_ok(k));
                assert((*self).rule_deps(k) == (*old(self)).rule_deps(k));
            }
            if (*old(self)).layered() {
                assert forall|k: int| 0 <= k < (*self).n() implies (*self).edges_below(k) by {
                    assert((*old(self)).edges_below(k));
                    assert((*self).rule_deps(k) == (*old(self)).rule_deps(k));
                    if k != key as int {
                        assert((*self).recorded_edges(k) == (*old(self)).recorded_edges(k));
                    }
                }
            }
        }
    }

    /// Evicts the value of a computed memo to reclaim memory, keeping its
    /// validity metadata; a later fetch will have to re-execute.
    pub fn evict_value(&mut self, key: usize)
        requires
            old(self).wf(),
            (key as int) < old(self).n(),
            old(self).memos@[key as int] matches Some(mc) && (mc.origin is Derived
                || mc.origin is DerivedUntracked),
            !old(self).claims.holds(key as int),
        ensures
            final(self).wf(),
            final(self).n() == old(self).n(),
            final(self).revision == old(self).revision,
            final(self).cancelled == old(self).cancelled,
            final(self).active@ == old(self).active@,
            final(self).claims.held@ == old(self).claims.held@,
            final(self).rules == old(self).rules,
            forall|k: int| 0 <= k < old(self).n() && k != key as int ==> old(self).slot_untouched(
                *final(self),
                k,
            ),
            final(self).memos@[key as int] == old(self).memos@[key as int],
            final(self).verified@[key as int] == old(self).verified@[key as int],
            final(self).values@[key as int] is None,
            old(self).layered() ==> final(self).layered(),
    {
        self.values[key] = None;
        proof {
            assert forall|k: int| 0 <= k < (*self).n() implies (*self).slot_ok(k) by {
                assert((*old(self)).slot_ok(k));
            }
            assert forall|k: int| 0 <= k < (*self).n() implies (*self).rule_ok(k) by {
                assert((*old(self)).rule_ok(k));
                assert((*self).rule_deps(k) == (*old(self)).rule_deps(k));
            }
            if (*old(self)).layered() {
                lemma_layered_preserved(*old(self), *self);
            }
        }
    }

    /// Sets or clears the cooperative cancellation flag, as a writer about
    /// to bump the revision would.
    pub fn set_cancelled(&mut self, flag: bool)
        requires
            old(self).wf(),
        ensures
            final(self).wf(),
            *final(self) == (Database { cancelled: flag, ..*old(self) }),
    {
        self.cancelled = flag;
        proof {
            assert forall|k: int| 0 <= k < (*self).n() implies (*self).slot_ok(k) by {
                assert((*old(self)).slot_ok(k));
            }
            assert forall|k: int| 0 <= k < (*self).n() implies (*self).rule_ok(k) by {
                assert((*old(self)).rule_ok(k));
                assert((*self).rule_deps(k) == (*old(self)).rule_deps(k));
            }
        }
    }


    /// The values of the given dependency keys in `self`, in order.
    pub open spec fn dep_values(self, deps: Seq<usize>) -> Seq<u64> {
        deps.map_values(|d: usize| self.values@[d as int]->Some_0)
    }

    /// The minimum durability over the memos of the given dependency keys.
    pub open spec fn deps_durability(self, deps: Seq<usize>) -> Durability
        decreases deps.len(),
    {
        if deps.len() == 0 {
            Durability::High
        } else {
            dur_min(
                self.deps_durability(deps.drop_last()),
                match self.memos@[deps.last() as int] {
                    Some(mc) => mc.durability,
                    None => Durability::High,
                },
            )
        }
    }

    /// Every listed edge is a registered key whose memo was written from
    /// outside (a base input or a field).
    pub open spec fn all_edges_base(self, edges: Seq<usize>) -> bool {
        forall|m: int|
            0 <= m < edges.len() ==> (edges[m] as int) < self.n() && (self.memos@[edges[m] as int]
                matches Some(mc) && (mc.origin is BaseInput || mc.origin is Field))
    }

    /// Dependencies point strictly downward at key `k`: every rule
    /// dependency, and every edge recorded in its memo, names a smaller
    /// key.
    pub open spec fn edges_below(self, k: int) -> bool {
        &&& forall|i: int|
            0 <= i < self.rule_deps(k).len() ==> (self.rule_deps(k)[i] as int) < k
        &&& (self.memos@[k] is Some ==> forall|i: int|
            0 <= i < self.recorded_edges(k).len() ==> (self.recorded_edges(k)[i] as int) < k)
    }

    /// The whole dependency graph points downward: no rule and no recorded
    /// edge names its own key or a later one, so no request can ever reach
    /// itself again.  Registration keeps this unless a rule names its own
    /// key on purpose.
    pub open spec fn layered(self) -> bool {
        forall|k: int| 0 <= k < self.n() ==> #[trigger] self.edges_below(k)
    }

    /// Every held claim sits strictly above `k` in the key order.  In a
    /// layered database a verification of `k` can then never run into a
    /// held claim, so it is owed an answer, not a cycle signal.
    pub open spec fn holders_above(self, k: int) -> bool {
        forall|j: int| 0 <= j < self.n() && #[trigger] self.claims.holds(j) ==> j > k
    }

    /// While a key is claimed, its memo can never newly pass the shallow
    /// check: the claim was taken because the check failed (or because no
    /// memo or no value existed), and the clocks cannot move while any
    /// query is in flight.  A re-entrant read of a claimed key therefore
    /// either answers from a memo already verified at the current revision
    /// or falls through to the claim attempt, where the cycle is reported.
    pub open spec fn claim_frame_ok(self) -> bool {
        forall|k: int|
            0 <= k < self.n() && #[trigger] self.claims.holds(k) ==> (self.memos@[k] is None
                || !self.shallow_ok_at(k) || self.verified@[k] == self.revision)
    }

    /// The ordered dependency edges recorded in `k`'s memo.
    pub open spec fn recorded_edges(self, k: int) -> Seq<usize> {
        origin_edges(self.memos@[k]->Some_0.origin)
    }

    /// The shape of a short-circuited dependency walk of `key`'s recorded
    /// `edges`, started in `self` and ended in `post`: the walk stopped at
    /// edge `i`, which had changed after the memo was last verified, and
    /// every later edge that had not already been walked was left exactly
    /// as it was — it was never queried.
    pub open spec fn short_circuit_witness(
        self,
        post: Database,
        key: int,
        edges: Seq<usize>,
        i: int,
    ) -> bool {
        &&& 0 <= i < edges.len()
        &&& self.memos@[edges[i] as int] is Some
        &&& self.memos@[edges[i] as int]->Some_0.changed_at > self.verified@[key]
        &&& forall|m: int|
            0 <= m < i ==> self.memos@[edges[m] as int] is Some
                && self.memos@[edges[m] as int]->Some_0.changed_at <= self.verified@[key]
        &&& forall|j: int|
            i < j < edges.len() && !edges.take(i + 1).contains(edges[j])
                ==> self.slot_untouched(post, edges[j] as int) && post.probes@[edges[j] as int]
                == self.probes@[edges[j] as int]
    }

    /// Whether a memo exists for `key`.
    fn memo_exists(&self, key: usize) -> (r: bool)
        requires
            (key as int) < self.memos@.len(),
        ensures
            r == (self.memos@[key as int] is Some),
    {
        self.memos[key].is_some()
    }

    /// The `changed_at` stamp of `key`'s memo.
    fn memo_changed_at(&self, key: usize) -> (r: u64)
        requires
            (key as int) < self.memos@.len(),
            self.memos@[key as int] is Some,
        ensures
            r == self.memos@[key as int]->Some_0.changed_at,
    {
        match &self.memos[key] {
            Some(mc) => mc.changed_at,
            None => {
                proof {
                    assert(false);
                }
                0
            },
        }
    }

    /// The durability of `key`'s memo.
    fn memo_durability(&self, key: usize) -> (r: Durability)
        requires
            (key as int) < self.memos@.len(),
            self.memos@[key as int] is Some,
        ensures
            r == self.memos@[key as int]->Some_0.durability,
    {
        match &self.memos[key] {
            Some(mc) => mc.durability,
            None => {
                proof {
                    assert(false);
                }
                Durability::Low
            },
        }
    }

    /// Whether `key` currently has a value.
    fn value_present(&self, key: usize) -> (r: bool)
        requires
            (key as int) < self.values@.len(),
        ensures
            r == (self.values@[key as int] is Some),
    {
        self.values[key].is_some()
    }

    /// The present value of `key`.
    fn value_get(&self, key: usize) -> (r: u64)
        requires
            (key as int) < self.values@.len(),
            self.values@[key as int] is Some,
        ensures
            r == self.values@[key as int]->Some_0,
    {
        match self.values[key] {
            Some(v) => v,
            None => {
                proof {
                    assert(false);
                }
                0
            },
        }
    }

    /// Whether `key`'s memo was written by another query.
    fn origin_is_assigned(&self, key: usize) -> (r: bool)
        requires
            (key as int) < self.memos@.len(),
            self.memos@[key as int] is Some,
        ensures
            r == (self.memos@[key as int]->Some_0.origin is Assigned),
    {
        match &self.memos[key] {
            Some(mc) => match &mc.origin {
                QueryOrigin::Assigned(_) => true,
                _ => false,
            },
            None => {
                proof {
                    assert(false);
                }
                false
            },
        }
    }

    /// Whether `key`'s memo read untracked state.
    fn origin_is_untracked(&self, key: usize) -> (r: bool)
        requires
            (key as int) < self.memos@.len(),
            self.memos@[key as int] is Some,
        ensures
            r == (self.memos@[key as int]->Some_0.origin is DerivedUntracked),
    {
        match &self.memos[key] {
            Some(mc) => match &mc.origin {
                QueryOrigin::DerivedUntracked(_) => true,
                _ => false,
            },
            None => {
                proof {
                    assert(false);
                }
                false
            },
        }
    }

    /// Whether `key`'s memo was written from outside the tracked system.
    fn origin_is_base(&self, key: usize) -> (r: bool)
        requires
            (key as int) < self.memos@.len(),
            self.memos@[key as int] is Some,
        ensures
            r == (self.memos@[key as int]->Some_0.origin is BaseInput
                || self.memos@[key as int]->Some_0.origin is Field),
    {
        match &self.memos[key] {
            Some(mc) => match &mc.origin {
                QueryOrigin::BaseInput => true,
                QueryOrigin::Field => true,
                _ => false,
            },
            None => {
                proof {
                    assert(false);
                }
                false
            },
        }
    }

    /// How many dependency edges `key`'s memo records.
    fn origin_edge_count(&self, key: usize) -> (c: usize)
        requires
            (key as int) < self.memos@.len(),
            self.memos@[key as int] is Some,
        ensures
            c == origin_edges(self.memos@[key as int]->Some_0.origin).len(),
    {
        match &self.memos[key] {
            Some(mc) => match &mc.origin {
                QueryOrigin::Derived(es) => es.len(),
                QueryOrigin::DerivedUntracked(es) => es.len(),
                _ => 0,
            },
            None => {
                proof {
                    assert(false);
                }
                0
            },
        }
    }

    /// The `i`th recorded dependency edge of `key`'s memo.
    fn edge_at(&self, key: usize, i: usize) -> (e: usize)
        requires
            (key as int) < self.memos@.len(),
            self.memos@[key as int] is Some,
            (i as int) < origin_edges(self.memos@[key as int]->Some_0.origin).len(),
        ensures
            e == origin_edges(self.memos@[key as int]->Some_0.origin)[i as int],
    {
        match &self.memos[key] {
            Some(mc) => match &mc.origin {
                QueryOrigin::Derived(es) => es[i],
                QueryOrigin::DerivedUntracked(es) => es[i],
                _ => {
                    proof {
                        assert(false);
                    }
                    0
                },
            },
            None => {
                proof {
                    assert(false);
                }
                0
            },
        }
    }

    /// How many dependencies `key`'s rule reads.
    fn rule_dep_count(&self, key: usize) -> (c: usize)
        requires
            (key as int) < self.rules@.len(),
        ensures
            c == self.rule_deps(key as int).len(),
    {
        match &self.rules[key] {
            QueryRule::Derived { deps, .. } => deps.len(),
            QueryRule::Input => 0,
        }
    }

    /// The `i`th dependency of `key`'s rule.
    fn rule_dep_at(&self, key: usize, i: usize) -> (d: usize)
        requires
            (key as int) < self.rules@.len(),
            (i as int) < self.rule_deps(key as int).len(),
        ensures
            d == self.rule_deps(key as int)[i as int],
    {
        match &self.rules[key] {
            QueryRule::Derived { deps, .. } => deps[i],
            QueryRule::Input => {
                proof {
                    assert(false);
                }
                0
            },
        }
    }

    /// The combining operation of `key`'s derived rule.
    fn rule_op(&self, key: usize) -> (o: Op)
        requires
            (key as int) < self.rules@.len(),
            self.rules@[key as int] is Derived,
        ensures
            self.rules@[key as int] matches QueryRule::Derived { op, .. } && o == op,
    {
        match &self.rules[key] {
            QueryRule::Derived { op, .. } => *op,
            QueryRule::Input => {
                proof {
                    assert(false);
                }
                Op::Sum
            },
        }
    }

    /// Whether `key`'s derived rule reads untracked state.
    fn rule_is_untracked(&self, key: usize) -> (u: bool)
        requires
            (key as int) < self.rules@.len(),
            self.rules@[key as int] is Derived,
        ensures
            self.rules@[key as int] matches QueryRule::Derived { untracked, .. } && u == untracked,
    {
        match &self.rules[key] {
            QueryRule::Derived { untracked, .. } => *untracked,
            QueryRule::Input => {
                proof {
                    assert(false);
                }
                false
            },
        }
    }

    /// Claims `key` and pushes it onto the active query stack, making any
    /// re-entrant request for it a detectable cycle.
    fn enter(&mut self, key: usize)
        requires
            old(self).wf(),
            (key as int) < old(self).n(),
            !old(self).claims.holds(key as int),
            old(self).memos@[key as int] is None || !old(self).shallow_ok_at(key as int) || old(self).verified@[key as int] == old(self).revision,
        ensures
            final(self).wf(),
            final(self).active@ == old(self).active@.push(key),
            final(self).claims.holds(key as int),
            final(self).claims.held@.len() == old(self).claims.held@.len(),
            forall|j: int|
                0 <= j < old(self).n() && j != key as int ==> final(self).claims.holds(j)
                    == old(self).claims.holds(j),
            final(self).memos@ == old(self).memos@,
            final(self).verified@ == old(self).verified@,
            final(self).values@ == old(self).values@,
            final(self).execs@ == old(self).execs@,
            final(self).probes@ == old(self).probes@,
            final(self).rules == old(self).rules,
            final(self).revision == old(self).revision,
            final(self).last_low == old(self).last_low,
            final(self).last_medium == old(self).last_medium,
            final(self).last_high == old(self).last_high,
            final(self).cancelled == old(self).cancelled,
    {
        let oc = self.claims.claim(key, &self.active);
        match oc {
            ClaimOutcome::Granted => {},
            _ => {
                // The precondition says the key is free, so the claim is
                // always granted here.
                proof {
                    assert(false);
                }
            },
        }
        self.active.push(key);
        proof {
            let pre = *old(self);
            let post = *self;
            vstd::std_specs::vec::axiom_spec_len(&pre.rules);
            assert(!pre.active@.contains(key));
            assert(post.active@ == pre.active@.push(key));
            assert(post.active@.no_duplicates()) by {
                assert forall|p: int, q: int|
                    0 <= p < post.active@.len() && 0 <= q < post.active@.len() && p != q
                    implies post.active@[p] != post.active@[q] by {
                    if p < pre.active@.len() && q < pre.active@.len() {
                        assert(pre.active@.no_duplicates());
                    } else if p < pre.active@.len() {
                        assert(post.active@[q] == key);
                        assert(pre.active@.contains(pre.active@[p])) by {
                            assert(pre.active@[p] == pre.active@[p]);
                        }
                    } else {
                        assert(post.active@[p] == key);
                        if q < pre.active@.len() {
                            assert(pre.active@.contains(pre.active@[q])) by {
                                assert(pre.active@[q] == pre.active@[q]);
                            }
                        }
                    }
                }
            }
            assert forall|k: int|
                0 <= k < post.n() implies (post.claims.holds(k) <==> post.active@.contains(
                k as usize,
            )) by {
                assert((k as usize) as int == k);
                if k == key as int {
                    assert(post.active@[post.active@.len() - 1] == key);
                    assert(post.active@.contains(key));
                    assert(post.claims.holds(k));
                } else {
                    if pre.active@.contains(k as usize) {
                        let i = choose|i: int|
                            0 <= i < pre.active@.len() && pre.active@[i] == k as usize;
                        assert(post.active@[i] == k as usize);
                        assert(post.active@.contains(k as usize));
                    }
                    if post.active@.contains(k as usize) {
                        let i = choose|i: int|
                            0 <= i < post.active@.len() && post.active@[i] == k as usize;
                        if i < pre.active@.len() {
                            assert(pre.active@.contains(k as usize));
                        } else {
                            assert(post.active@[i] == key);
                        }
                    }
                    assert(pre.claims.holds(k) <==> pre.active@.contains(k as usize));
                }
            }
            lemma_stack_len_bound(post.active@, post.n());
            assert forall|k: int|
                0 <= k < post.n() && post.claims.holds(k) implies (post.memos@[k] is None
                || !post.shallow_ok_at(k) || post.verified@[k] == post.revision) by {
                if k != key as int {
                    assert(pre.claims.holds(k));
                }
            }
            assert forall|k: int| 0 <= k < post.n() implies post.slot_ok(k) by {
                assert(pre.slot_ok(k));
            }
            assert forall|k: int| 0 <= k < post.n() implies post.rule_ok(k) by {
                assert(pre.rule_ok(k));
                assert(post.rule_deps(k) == pre.rule_deps(k));
            }
        }
    }

    /// Pops `key` from the active query stack and releases its claim; runs
    /// on every exit path of a verification or recomputation attempt.
    fn leave(&mut self, key: usize)
        requires
            old(self).wf(),
            old(self).active@.len() > 0,
            old(self).active@.last() == key,
            old(self).claims.holds(key as int),
        ensures
            final(self).wf(),
            final(self).active@ == old(self).active@.drop_last(),
            final(self).claims.held@.len() == old(self).claims.held@.len(),
            !final(self).claims.holds(key as int),
            forall|j: int|
                0 <= j < old(self).n() && j != key as int ==> final(self).claims.holds(j)
                    == old(self).claims.holds(j),
            final(self).memos@ == old(self).memos@,
            final(self).verified@ == old(self).verified@,
            final(self).values@ == old(self).values@,
            final(self).execs@ == old(self).execs@,
            final(self).probes@ == old(self).probes@,
            final(self).rules == old(self).rules,
            final(self).revision == old(self).revision,
            final(self).last_low == old(self).last_low,
            final(self).last_medium == old(self).last_medium,
            final(self).last_high == old(self).last_high,
            final(self).cancelled == old(self).cancelled,
    {
        let _ = self.active.pop();
        self.claims.release(key);
        proof {
            let pre = *old(self);
            let post = *self;
            vstd::std_specs::vec::axiom_spec_len(&pre.rules);
            assert(post.active@ == pre.active@.drop_last());
            assert(post.active@.no_duplicates()) by {
                assert forall|p: int, q: int|
                    0 <= p < post.active@.len() && 0 <= q < post.active@.len() && p != q
                    implies post.active@[p] != post.active@[q] by {
                    assert(pre.active@.no_duplicates());
                }
            }
            assert(!post.active@.contains(key)) by {
                if post.active@.contains(key) {
                    let i = choose|i: int|
                        0 <= i < post.active@.len() && post.active@[i] == key;
                    assert(pre.active@[i] == key);
                    assert(pre.active@[pre.active@.len() - 1] == key);
                    assert(pre.active@.no_duplicates());
                }
            }
            assert forall|k: int|
                0 <= k < post.n() implies (post.claims.holds(k) <==> post.active@.contains(
                k as usize,
            )) by {
                assert((k as usize) as int == k);
                if k == key as int {
                    assert(!post.claims.holds(k));
                } else {
                    if post.active@.contains(k as usize) {
                        let i = choose|i: int|
                            0 <= i < post.active@.len() && post.active@[i] == k as usize;
                        assert(pre.active@[i] == k as usize);
                        assert(pre.active@.contains(k as usize));
                    }
                    if pre.active@.contains(k as usize) {
                        let i = choose|i: int|
                            0 <= i < pre.active@.len() && pre.active@[i] == k as usize;
                        assert((k as usize) as int == k);
                        if i == pre.active@.len() - 1 {
                            assert(pre.active@[i] == key);
                            assert(false);
                        }
                        assert(post.active@[i] == k as usize);
                        assert(post.active@.contains(k as usize));
                    }
                    assert(pre.claims.holds(k) <==> pre.active@.contains(k as usize));
                }
            }
            assert forall|k: int| 0 <= k < post.n() implies post.slot_ok(k) by {
                assert(pre.slot_ok(k));
            }
            assert forall|k: int| 0 <= k < post.n() implies post.rule_ok(k) by {
                assert(pre.rule_ok(k));
                assert(post.rule_deps(k) == pre.rule_deps(k));
            }
            assert forall|k: int|
                0 <= k < post.n() && post.claims.holds(k) implies (post.memos@[k] is None
                || !post.shallow_ok_at(k) || post.verified@[k] == post.revision) by {
                assert(k != key as int);
                assert(pre.claims.holds(k));
            }
        }
    }


    /// Shallow, O(1) verification of `key`'s memo: true when the memo was
    /// already verified at the current revision, or when nothing at or
    /// above its durability has changed since it was last verified — in the
    /// latter case `verified_at` is advanced to the current revision to
    /// cache the conclusion.  Failure proves nothing: it only means no
    /// cheap proof was available.
    pub fn shallow_verify_memo(&mut self, key: usize) -> (r: bool)
        requires
            old(self).wf(),
            (key as int) < old(self).n(),
            old(self).memos@[key as int] is Some,
        ensures
            final(self).wf(),
            old(self).same_config(*final(self)),
            old(self).chain_restored(*final(self)),
            final(self).memos@ == old(self).memos@,
            final(self).values@ == old(self).values@,
            final(self).execs@ == old(self).execs@,
            final(self).probes@ == old(self).probes@,
            r == old(self).shallow_ok_at(key as int),
            forall|j: int|
                0 <= j < old(self).n() && j != key as int ==> final(self).verified@[j] == old(self).verified@[j],
            final(self).verified@[key as int] == if r {
                old(self).revision
            } else {
                old(self).verified@[key as int]
            },
            old(self).memos_monotonic(*final(self)),
            old(self).pinned_preserved(*final(self)),
            old(self).claimed_preserved_except(*final(self), key as int),
    {
        let rev = self.revision;
        let va = self.verified[key];
        if va == rev {
            return true;
        }
        let dur = self.memo_durability(key);
        let lc = self.last_changed(dur);
        if lc <= va {
            self.verified[key] = rev;
            proof {
                assert((*old(self)).slot_ok(key as int));
                assert forall|k: int| 0 <= k < (*self).n() implies (*self).slot_ok(k) by {
                    assert((*old(self)).slot_ok(k));
                }
                assert forall|k: int| 0 <= k < (*self).n() implies (*self).rule_ok(k) by {
                    assert((*old(self)).rule_ok(k));
                    assert((*self).rule_deps(k) == (*old(self)).rule_deps(k));
                }
            }
            true
        } else {
            false
        }
    }

    /// Answers whether `key`'s value may have changed since `revision`.
    /// After polling the cancellation flag, the hot path answers from the
    /// memo alone: no memo means changed (none is created by asking), and
    /// a memo that passes the shallow check answers by its `changed_at`.
    /// Only a shallow-check failure leads to the cold path, where the
    /// claim is attempted and a re-entrant claim is reported as a cycle.
    #[verifier::rlimit(100)]
    pub fn maybe_changed_after(&mut self, key: usize, revision: u64) -> (r: Result<bool, Signal>)
        requires
            old(self).wf(),
            (key as int) < old(self).n(),
        ensures
            final(self).wf(),
            old(self).engine_frame(*final(self)),
            old(self).cancelled ==> r == Err::<bool, Signal>(Signal::Cancelled) && old(self).quiet(
                *final(self),
            ),
            (!old(self).cancelled && old(self).memos@[key as int] is Some && !old(self).shallow_ok_at(key as int) && old(self).claims.holds(key as int)) ==> r == Err::<
                bool,
                Signal,
            >(Signal::Cycle) && old(self).quiet(*final(self)),
            (r matches Ok(b) ==> {
                &&& (final(self).memos@[key as int] is None ==> b)
                &&& (!b ==> final(self).memos@[key as int] is Some && final(self).memos@[key as int]->Some_0.changed_at <= revision && final(self).verified@[key as int] == final(self).revision)
                &&& (b && final(self).memos@[key as int] is Some ==> (final(self).memos@[key as int]->Some_0.changed_at > revision || final(self).values@[key as int] is None))
            }),
            !old(self).cancelled && old(self).memos@[key as int] is None ==> r == Ok::<
                bool,
                Signal,
            >(true) && old(self).quiet(*final(self)),
            (!old(self).cancelled && old(self).memos@[key as int] is Some && old(self).verified@[key as int] == old(self).revision) ==> (r == Ok::<bool, Signal>(
                old(self).memos@[key as int]->Some_0.changed_at > revision,
            ) && old(self).quiet(*final(self))),
            (!old(self).cancelled && !old(self).claims.holds(key as int)
                && old(self).memos@[key as int] is Some && (
            old(self).memos@[key as int]->Some_0.origin is BaseInput
                || old(self).memos@[key as int]->Some_0.origin is Field) ==> {
                &&& r is Ok
                &&& final(self).memos@[key as int] == old(self).memos@[key as int]
                &&& final(self).values@[key as int] == old(self).values@[key as int]
                &&& final(self).execs@ == old(self).execs@
                &&& forall|k2: int|
                    0 <= k2 < old(self).n() && k2 != key as int ==> old(self).slot_untouched(
                        *final(self),
                        k2,
                    ) && final(self).probes@[k2] == old(self).probes@[k2]
            }),
            !old(self).cancelled ==> r != Err::<bool, Signal>(Signal::Cancelled),
            old(self).layered() ==> final(self).layered(),
            !old(self).cancelled && old(self).layered() && old(self).holders_above(key as int)
                ==> r is Ok,
            (!old(self).cancelled && old(self).memos@[key as int] is Some && old(self).shallow_ok_at(key as int)) ==> (r == Ok::<bool, Signal>(
                old(self).memos@[key as int]->Some_0.changed_at > revision,
            ) && final(self).memos@ == old(self).memos@ && final(self).values@ == old(self).values@ && final(self).execs@ == old(self).execs@ && final(self).verified@[key as int] == old(self).revision && (forall|j: int|
                0 <= j < old(self).n() && j != key as int ==> final(self).verified@[j] == old(self).verified@[j] && final(self).probes@[j] == old(self).probes@[j])),
            r is Ok && old(self).memos@[key as int] is Some && final(self).values@[key as int]
                == old(self).values@[key as int] ==> final(self).memos@[key as int]->Some_0.changed_at
                == old(self).memos@[key as int]->Some_0.changed_at,
            r is Ok && old(self).memos@[key as int] is Some && final(self).values@[key as int]
                != old(self).values@[key as int] ==> final(self).memos@[key as int]->Some_0.changed_at
                == old(self).revision,
            old(self).values@[key as int] is None && old(self).memos@[key as int] is Some
                ==> final(self).execs@[key as int] == old(self).execs@[key as int] && final(self).memos@[key as int] == old(self).memos@[key as int],
            (r is Ok && old(self).memos@[key as int] is Some && old(self).execs@[key as int]
                < u64::MAX && final(self).execs@[key as int] == old(self).execs@[key as int]
                && final(self).verified@[key as int] == final(self).revision) ==> r == Ok::<
                bool,
                Signal,
            >(final(self).memos@[key as int]->Some_0.changed_at > revision),
            r is Ok && final(self).values@[key as int] is Some ==> final(self).verified@[key as int] == final(self).revision,
            (r is Ok && final(self).execs@[key as int] != old(self).execs@[key as int]) ==> (
            match old(self).rules@[key as int] {
                QueryRule::Derived { op, untracked, .. } => {
                    &&& final(self).values@[key as int] == Some(
                        eval_op(op, final(self).dep_values(old(self).rule_deps(key as int))),
                    )
                    &&& final(self).verified@[key as int] == old(self).revision
                    &&& final(self).memos@[key as int] is Some
                    &&& (final(self).memos@[key as int]->Some_0.origin is Derived <==> !untracked)
                    &&& (final(self).memos@[key as int]->Some_0.origin is DerivedUntracked
                        <==> untracked)
                    &&& origin_edges(final(self).memos@[key as int]->Some_0.origin) == old(self).rule_deps(key as int)
                    &&& final(self).memos@[key as int]->Some_0.durability == final(self).deps_durability(old(self).rule_deps(key as int))
                    &&& forall|j: int|
                        0 <= j < old(self).rule_deps(key as int).len() ==> final(self).pinned(
                            old(self).rule_deps(key as int)[j] as int,
                        )
                },
                QueryRule::Input => true,
            }),
            old(self).execs@[key as int] < u64::MAX && final(self).execs@[key as int] == old(self).execs@[key as int] ==> final(self).memos@[key as int] == old(self).memos@[key as int]
                && final(self).values@[key as int] == old(self).values@[key as int],
            (old(self).memos@[key as int] is Some
                && old(self).memos@[key as int]->Some_0.origin is Derived && !old(self).shallow_ok_at(key as int) && old(self).all_edges_base(
                old(self).recorded_edges(key as int),
            ) && old(self).execs@[key as int] < u64::MAX && (exists|j: int|
                0 <= j < old(self).recorded_edges(key as int).len() && old(self).memos@[old(self).recorded_edges(key as int)[j] as int]->Some_0.changed_at > old(self).verified@[key as int]) && r is Ok && final(self).execs@[key as int] == old(self).execs@[key as int]) ==> r == Ok::<bool, Signal>(true),
            final(self).execs@[key as int] == old(self).execs@[key as int] || final(self).execs@[key as int] == old(self).execs@[key as int] + 1,
        decreases old(self).n() - old(self).active@.len(), 1int,
    {
        if self.cancelled {
            proof {
                if (*old(self)).layered() {
                    lemma_layered_preserved(*old(self), *self);
                }
            }
            return Err(Signal::Cancelled);
        }
        let p0 = self.probes[key];
        let p1 = sat_add(p0, 1);
        self.probes[key] = p1;
        proof {
            assert forall|k: int| 0 <= k < (*self).n() implies (*self).slot_ok(k) by {
                assert((*old(self)).slot_ok(k));
            }
            assert forall|k: int| 0 <= k < (*self).n() implies (*self).rule_ok(k) by {
                assert((*old(self)).rule_ok(k));
                assert((*self).rule_deps(k) == (*old(self)).rule_deps(k));
            }
        }
        if self.memo_exists(key) {
            let ghost probed = *self;
            let sv = self.shallow_verify_memo(key);
            if sv {
                let ca = self.memo_changed_at(key);
                proof {
                    if (*old(self)).verified@[key as int] == (*old(self)).revision {
                        assert((*self).verified@ =~= (*old(self)).verified@);
                    }
                    if (*old(self)).layered() {
                        lemma_layered_preserved(*old(self), *self);
                    }
                }
                return Ok(ca > revision);
            }
            let ghost mid = *self;
            let r = self.maybe_changed_after_cold(key, revision);
            proof {
                lemma_work_trans(probed, mid, *self, key as int);
                lemma_work_trans(*old(self), probed, *self, key as int);
                assert(mid.verified@ =~= (*old(self)).verified@);
                assert((*old(self)).slot_ok(key as int));
                if (*old(self)).layered() {
                    lemma_layered_preserved(*old(self), probed);
                    lemma_layered_preserved(probed, mid);
                    assert((*self).layered());
                }
                if !(*old(self)).cancelled && (*old(self)).layered() && (*old(self)).holders_above(key as int) {
                    assert(mid.holders_above(key as int)) by {
                        assert forall|j: int|
                            0 <= j < mid.n() && mid.claims.holds(j) implies j > key as int by {
                            assert((*old(self)).claims.holds(j));
                        }
                    }
                    assert(r is Ok);
                }
                assert(mid.memos@[key as int] == (*old(self)).memos@[key as int]);
                assert(mid.values@[key as int] == (*old(self)).values@[key as int]);
                assert(mid.execs@[key as int] == (*old(self)).execs@[key as int]);
                if !(*old(self)).claims.holds(key as int) && (*old(self)).memos@[key as int]
                    is Some && ((*old(self)).memos@[key as int]->Some_0.origin is BaseInput || (
                *old(self)).memos@[key as int]->Some_0.origin is Field) {
                    assert(!mid.claims.holds(key as int));
                    assert forall|k2: int|
                        0 <= k2 < (*old(self)).n() && k2 != key as int implies (*old(self)).slot_untouched(*self, k2) && (*self).probes@[k2] == (*old(self)).probes@[k2] by {
                        assert(mid.slot_untouched(*self, k2));
                        assert((*self).probes@[k2] == mid.probes@[k2]);
                    }
                }
            }
            r
        } else {
            proof {
                assert((*old(self)).slot_ok(key as int));
                if (*old(self)).layered() {
                    lemma_layered_preserved(*old(self), *self);
                }
            }
            Ok(true)
        }
    }

    /// The cold path of `maybe_changed_after`: attempt the claim — a
    /// claim this chain already holds is a true cycle, failed fast and
    /// never retried — then push the key onto the active query stack,
    /// deep-verify the memo, re-execute if the inputs changed but an old
    /// value exists (the result may then be backdated), and otherwise
    /// report a change.  The claim and the stack entry are released on
    /// every exit path.
    #[verifier::rlimit(100)]
    fn maybe_changed_after_cold(&mut self, key: usize, revision: u64) -> (r: Result<bool, Signal>)
        requires
            old(self).wf(),
            (key as int) < old(self).n(),
            old(self).memos@[key as int] is None || !old(self).shallow_ok_at(key as int),
            !old(self).cancelled,
        ensures
            old(self).claims.holds(key as int) ==> r == Err::<bool, Signal>(Signal::Cycle) && old(self).quiet(*final(self)),
            final(self).wf(),
            old(self).same_config(*final(self)),
            old(self).chain_restored(*final(self)),
            old(self).memos_monotonic(*final(self)),
            old(self).pinned_preserved(*final(self)),
            old(self).claimed_preserved_except(*final(self), -1),
            (r matches Ok(b) ==> {
                &&& (final(self).memos@[key as int] is None ==> b)
                &&& (!b ==> final(self).memos@[key as int] is Some && final(self).memos@[key as int]->Some_0.changed_at <= revision && final(self).verified@[key as int] == final(self).revision)
                &&& (b && final(self).memos@[key as int] is Some ==> (final(self).memos@[key as int]->Some_0.changed_at > revision || final(self).values@[key as int] is None))
            }),
            (!old(self).claims.holds(key as int) && old(self).memos@[key as int] is Some && (
            old(self).memos@[key as int]->Some_0.origin is BaseInput
                || old(self).memos@[key as int]->Some_0.origin is Field) ==> {
                &&& r is Ok
                &&& final(self).memos@[key as int] == old(self).memos@[key as int]
                &&& final(self).values@[key as int] == old(self).values@[key as int]
                &&& final(self).execs@ == old(self).execs@
                &&& forall|k2: int|
                    0 <= k2 < old(self).n() && k2 != key as int ==> old(self).slot_untouched(
                        *final(self),
                        k2,
                    ) && final(self).probes@[k2] == old(self).probes@[k2]
            }),
            !old(self).cancelled ==> r != Err::<bool, Signal>(Signal::Cancelled),
            old(self).layered() ==> final(self).layered(),
            !old(self).cancelled && old(self).layered() && old(self).holders_above(key as int)
                ==> r is Ok,
            !old(self).claims.holds(key as int) && old(self).memos@[key as int] is None ==> r
                == Ok::<bool, Signal>(true) && old(self).quiet(*final(self)),
            old(self).values@[key as int] is None ==> final(self).execs@[key as int] == old(self).execs@[key as int] && final(self).memos@[key as int] == old(self).memos@[key as int]
                && final(self).values@[key as int] == old(self).values@[key as int],
            r is Ok && old(self).memos@[key as int] is Some && final(self).values@[key as int]
                == old(self).values@[key as int] ==> final(self).memos@[key as int]->Some_0.changed_at
                == old(self).memos@[key as int]->Some_0.changed_at,
            r is Ok && old(self).memos@[key as int] is Some && final(self).values@[key as int]
                != old(self).values@[key as int] ==> final(self).memos@[key as int]->Some_0.changed_at
                == old(self).revision,
            (r is Ok && old(self).memos@[key as int] is Some && old(self).execs@[key as int]
                < u64::MAX && final(self).execs@[key as int] == old(self).execs@[key as int]
                && final(self).verified@[key as int] == final(self).revision) ==> r == Ok::<
                bool,
                Signal,
            >(final(self).memos@[key as int]->Some_0.changed_at > revision),
            r is Ok && final(self).values@[key as int] is Some ==> final(self).verified@[key as int] == final(self).revision,
            (r is Ok && final(self).execs@[key as int] != old(self).execs@[key as int]) ==> (
            match old(self).rules@[key as int] {
                QueryRule::Derived { op, untracked, .. } => {
                    &&& final(self).values@[key as int] == Some(
                        eval_op(op, final(self).dep_values(old(self).rule_deps(key as int))),
                    )
                    &&& final(self).verified@[key as int] == old(self).revision
                    &&& final(self).memos@[key as int] is Some
                    &&& (final(self).memos@[key as int]->Some_0.origin is Derived <==> !untracked)
                    &&& (final(self).memos@[key as int]->Some_0.origin is DerivedUntracked
                        <==> untracked)
                    &&& origin_edges(final(self).memos@[key as int]->Some_0.origin) == old(self).rule_deps(key as int)
                    &&& final(self).memos@[key as int]->Some_0.durability == final(self).deps_durability(old(self).rule_deps(key as int))
                    &&& forall|j: int|
                        0 <= j < old(self).rule_deps(key as int).len() ==> final(self).pinned(
                            old(self).rule_deps(key as int)[j] as int,
                        )
                },
                QueryRule::Input => true,
            }),
            old(self).execs@[key as int] < u64::MAX && final(self).execs@[key as int] == old(self).execs@[key as int] ==> final(self).memos@[key as int] == old(self).memos@[key as int]
                && final(self).values@[key as int] == old(self).values@[key as int],
            (old(self).memos@[key as int] is Some
                && old(self).memos@[key as int]->Some_0.origin is Derived && !old(self).shallow_ok_at(key as int) && old(self).all_edges_base(
                old(self).recorded_edges(key as int),
            ) && old(self).execs@[key as int] < u64::MAX && (exists|j: int|
                0 <= j < old(self).recorded_edges(key as int).len() && old(self).memos@[old(self).recorded_edges(key as int)[j] as int]->Some_0.changed_at > old(self).verified@[key as int]) && r is Ok && final(self).execs@[key as int] == old(self).execs@[key as int]) ==> r == Ok::<bool, Signal>(true),
            final(self).execs@[key as int] == old(self).execs@[key as int] || final(self).execs@[key as int] == old(self).execs@[key as int] + 1,
        decreases old(self).n() - old(self).active@.len(), 0int,
    {
        if self.claims.holds_key(key) {
            // A held claim in a single call chain is this chain's own: a
            // re-entrant request, reported as a cycle, never retried (only
            // a foreign holder would warrant a retry, and there is none).
            proof {
                if (*old(self)).layered() {
                    lemma_layered_preserved(*old(self), *self);
                }
            }
            return Err(Signal::Cycle);
        }
        self.enter(key);
        let ghost entered = *self;
        proof {
            if (*old(self)).layered() {
                lemma_layered_preserved(*old(self), entered);
            }
            if !(*old(self)).cancelled && (*old(self)).layered() && (*old(self)).holders_above(
                key as int,
            ) {
                assert(entered.holders_above(key as int - 1)) by {
                    assert forall|j: int|
                        0 <= j < entered.n() && entered.claims.holds(j) implies j > key as int
                        - 1 by {
                        if j != key as int {
                            assert((*old(self)).claims.holds(j));
                        }
                    }
                }
            }
        }
        let result: Result<bool, Signal>;
        if self.memo_exists(key) {
            let dv = self.deep_verify_memo(key);
            match dv {
                Ok(true) => {
                    let ca = self.memo_changed_at(key);
                    proof {
                        let pre0 = *old(self);
                        let eseq = pre0.recorded_edges(key as int);
                        if pre0.memos@[key as int] is Some
                            && pre0.memos@[key as int]->Some_0.origin is Derived
                            && !pre0.shallow_ok_at(key as int) && pre0.all_edges_base(eseq) && (
                        exists|j: int|
                            0 <= j < eseq.len() && pre0.memos@[eseq[j] as int]->Some_0.changed_at
                                > pre0.verified@[key as int]) {
                            let j = choose|j: int|
                                0 <= j < eseq.len()
                                    && pre0.memos@[eseq[j] as int]->Some_0.changed_at
                                    > pre0.verified@[key as int];
                            assert(entered.recorded_edges(key as int) == eseq);
                            assert(!entered.shallow_ok_at(key as int));
                            assert(entered.all_edges_base(eseq)) by {
                                assert forall|m: int|
                                    0 <= m < eseq.len() implies (eseq[m] as int) < entered.n() && (
                                entered.memos@[eseq[m] as int] matches Some(mc) && (
                                mc.origin is BaseInput || mc.origin is Field)) by {
                                    assert(entered.memos@[eseq[m] as int] == pre0.memos@[eseq[m] as int]);
                                }
                            }
                            assert(entered.memos@[eseq[j] as int] == pre0.memos@[eseq[j] as int]);
                            assert(entered.verified@[key as int] == pre0.verified@[key as int]);
                            assert(false);
                        }
                    }
                    result = Ok(ca > revision);
                },
                Ok(false) => {
                    if self.value_present(key) {
                        let ghost after_deep = *self;
                        proof {
                            assert((*self).slot_ok(key as int));
                            assert(!(*self).pinned(key as int));
                        }
                        let ex = self.execute(key);
                        proof {
                            lemma_work_trans(entered, after_deep, *self, key as int);
                            if !(*old(self)).cancelled && (*old(self)).layered() && (*old(self)).holders_above(key as int) {
                                assert(after_deep.layered());
                                assert(after_deep.holders_above(key as int - 1)) by {
                                    assert forall|j: int|
                                        0 <= j < after_deep.n() && after_deep.claims.holds(
                                            j,
                                        ) implies j > key as int - 1 by {
                                        assert(entered.claims.holds(j));
                                    }
                                }
                                assert(ex is Ok);
                            }
                        }
                        match ex {
                            Ok(_v) => {
                                let ca = self.memo_changed_at(key);
                                result = Ok(ca > revision);
                            },
                            Err(s) => {
                                result = Err(s);
                            },
                        }
                    } else {
                        result = Ok(true);
                    }
                },
                Err(s) => {
                    proof {
                        if !(*old(self)).cancelled && (*old(self)).layered() && (*old(self)).holders_above(key as int) {
                            assert(false);
                        }
                    }
                    result = Err(s);
                },
            }
        } else {
            proof {
                assert(entered.slot_ok(key as int));
            }
            result = Ok(true);
        }
        let ghost worked = *self;
        proof {
            assert(worked.active@ == entered.active@);
            assert(worked.active@.len() > 0);
            assert(worked.active@.last() == key);
        }
        self.leave(key);
        proof {
            assert((*self).active@ =~= (*old(self)).active@);
            assert forall|j: int|
                0 <= j < (*self).claims.held@.len() implies (*self).claims.held@[j] == (*old(self)).claims.held@[j] by {
                if j != key as int {
                    assert((*self).claims.holds(j) == worked.claims.holds(j));
                    assert(worked.claims.holds(j) == entered.claims.holds(j));
                    assert(entered.claims.holds(j) == (*old(self)).claims.holds(j));
                } else {
                    assert(!(*self).claims.holds(j));
                    assert(!(*old(self)).claims.holds(j));
                }
            }
            assert((*self).claims.held@ =~= (*old(self)).claims.held@);
            lemma_frame_through_claim(*old(self), entered, worked, *self, key as int);
            if (*old(self)).layered() {
                assert(worked.layered());
                lemma_layered_preserved(worked, *self);
            }
            if result is Ok && (*self).execs@[key as int] != (*old(self)).execs@[key as int] {
                let deps = (*old(self)).rule_deps(key as int);
                assert(entered.rule_deps(key as int) == deps);
                assert((*self).dep_values(deps) =~= worked.dep_values(deps)) by {
                    assert forall|j: int|
                        0 <= j < deps.len() implies (*self).dep_values(deps)[j]
                        == worked.dep_values(deps)[j] by {
                        assert((*self).values@[deps[j] as int] == worked.values@[deps[j] as int]);
                    }
                }
                assert forall|j: int| 0 <= j < deps.len() implies (*self).pinned(
                    deps[j] as int,
                ) by {
                    assert(worked.pinned(deps[j] as int));
                }
                lemma_deps_durability_stable(worked, *self, deps);
            }
        }
        result
    }

    /// Deep verification of `key`'s memo under a held claim: retry the
    /// shallow check, then dispatch on the origin — an assigned or
    /// untracked memo cannot be revalidated here; an input or field memo
    /// cannot be stale; a derived memo's recorded edges are walked in the
    /// exact order they were read during execution, stopping at the first
    /// dependency that reports a change, since under tracked-read semantics
    /// a later edge might never have been read at all had an earlier one
    /// differed.  A walk that completes without a change marks the memo
    /// verified at the current revision.
    #[verifier::rlimit(100)]
    pub fn deep_verify_memo(&mut self, key: usize) -> (r: Result<bool, Signal>)
        requires
            old(self).wf(),
            (key as int) < old(self).n(),
            old(self).memos@[key as int] is Some,
            old(self).claims.holds(key as int),
        ensures
            final(self).wf(),
            old(self).same_config(*final(self)),
            old(self).chain_restored(*final(self)),
            old(self).memos_monotonic(*final(self)),
            old(self).pinned_preserved(*final(self)),
            old(self).claimed_preserved_except(*final(self), key as int),
            final(self).memos@[key as int] == old(self).memos@[key as int],
            final(self).values@[key as int] == old(self).values@[key as int],
            final(self).execs@[key as int] == old(self).execs@[key as int],
            final(self).verified@[key as int] == old(self).verified@[key as int] || final(self).verified@[key as int] == old(self).revision,
            old(self).shallow_ok_at(key as int) ==> r == Ok::<bool, Signal>(true),
            r == Ok::<bool, Signal>(true) ==> final(self).verified@[key as int] == final(self).revision,
            r == Ok::<bool, Signal>(false) ==> !(old(self).memos@[key as int]->Some_0.origin
                is BaseInput) && !(old(self).memos@[key as int]->Some_0.origin is Field) && final(self).verified@[key as int] == old(self).verified@[key as int],
            !old(self).shallow_ok_at(key as int) ==> {
                &&& (old(self).memos@[key as int]->Some_0.origin is Assigned ==> r == Ok::<
                    bool,
                    Signal,
                >(false))
                &&& (old(self).memos@[key as int]->Some_0.origin is DerivedUntracked ==> r == Ok::<
                    bool,
                    Signal,
                >(false))
                &&& ((old(self).memos@[key as int]->Some_0.origin is BaseInput || old(self).memos@[key as int]->Some_0.origin is Field) ==> r == Ok::<bool, Signal>(true))
            },
            ((old(self).memos@[key as int]->Some_0.origin is BaseInput || old(self).memos@[key as int]->Some_0.origin is Field || old(self).memos@[key as int]->Some_0.origin
                is Assigned || old(self).memos@[key as int]->Some_0.origin is DerivedUntracked)
                ==> {
                &&& final(self).memos@ == old(self).memos@
                &&& final(self).values@ == old(self).values@
                &&& final(self).execs@ == old(self).execs@
                &&& final(self).probes@ == old(self).probes@
                &&& forall|k2: int|
                    0 <= k2 < old(self).n() && k2 != key as int ==> final(self).verified@[k2]
                        == old(self).verified@[k2]
            }),
            (old(self).memos@[key as int]->Some_0.origin is Derived && !old(self).shallow_ok_at(
                key as int,
            ) && old(self).all_edges_base(old(self).recorded_edges(key as int)) && r == Ok::<
                bool,
                Signal,
            >(false)) ==> (exists|i: int|
                old(self).short_circuit_witness(
                    *final(self),
                    key as int,
                    old(self).recorded_edges(key as int),
                    i,
                )),
            !old(self).cancelled ==> r != Err::<bool, Signal>(Signal::Cancelled),
            old(self).layered() ==> final(self).layered(),
            !old(self).cancelled && old(self).layered() && old(self).holders_above(
                key as int - 1,
            ) ==> r is Ok,
            old(self).shallow_ok_at(key as int) ==> final(self).probes@ == old(self).probes@
                && final(self).memos@ == old(self).memos@ && final(self).values@ == old(self).values@ && final(self).execs@ == old(self).execs@,
            (old(self).memos@[key as int]->Some_0.origin is Derived && !old(self).shallow_ok_at(
                key as int,
            ) && old(self).all_edges_base(old(self).recorded_edges(key as int)) && r == Ok::<
                bool,
                Signal,
            >(true)) ==> (forall|j: int|
                0 <= j < old(self).recorded_edges(key as int).len() ==> old(self).memos@[old(self).recorded_edges(key as int)[j] as int] is Some && old(self).memos@[old(self).recorded_edges(key as int)[j] as int]->Some_0.changed_at <= old(self).verified@[key as int]),
        decreases old(self).n() - old(self).active@.len(), 3int,
    {
        let sv = self.shallow_verify_memo(key);
        if sv {
            proof {
                if (*old(self)).layered() {
                    lemma_layered_preserved(*old(self), *self);
                }
            }
            return Ok(true);
        }
        if self.origin_is_assigned(key) {
            proof {
                if (*old(self)).layered() {
                    lemma_layered_preserved(*old(self), *self);
                }
            }
            return Ok(false);
        }
        if self.origin_is_untracked(key) {
            proof {
                if (*old(self)).layered() {
                    lemma_layered_preserved(*old(self), *self);
                }
            }
            return Ok(false);
        }
        let rev = self.revision;
        if self.origin_is_base(key) {
            self.verified[key] = rev;
            proof {
                assert((*old(self)).slot_ok(key as int));
                assert forall|k: int| 0 <= k < (*self).n() implies (*self).slot_ok(k) by {
                    assert((*old(self)).slot_ok(k));
                }
                assert forall|k: int| 0 <= k < (*self).n() implies (*self).rule_ok(k) by {
                    assert((*old(self)).rule_ok(k));
                    assert((*self).rule_deps(k) == (*old(self)).rule_deps(k));
                }
                if (*old(self)).layered() {
                    lemma_layered_preserved(*old(self), *self);
                }
            }
            return Ok(true);
        }
        let edge_count = self.origin_edge_count(key);
        let last_verified = self.verified[key];
        proof {
            if (*old(self)).layered() {
                lemma_layered_preserved(*old(self), *self);
            }
        }
        let mut i: usize = 0;
        while i < edge_count
            invariant
                (*self).wf(),
                (key as int) < (*self).n(),
                i <= edge_count,
                (*old(self)).memos@[key as int] is Some,
                edge_count == origin_edges((*old(self)).memos@[key as int]->Some_0.origin).len(),
                (*old(self)).same_config(*self),
                (*old(self)).chain_restored(*self),
                (*old(self)).memos_monotonic(*self),
                (*old(self)).pinned_preserved(*self),
                (*old(self)).claimed_preserved_except(*self, key as int),
                (*self).memos@[key as int] == (*old(self)).memos@[key as int],
                (*self).values@[key as int] == (*old(self)).values@[key as int],
                (*self).execs@[key as int] == (*old(self)).execs@[key as int],
                (*self).verified@[key as int] == (*old(self)).verified@[key as int],
                last_verified == (*old(self)).verified@[key as int],
                rev == (*self).revision,
                (*self).claims.holds(key as int),
                !(*old(self)).shallow_ok_at(key as int),
                (*old(self)).memos@[key as int]->Some_0.origin is Derived,
                (*old(self)).wf(),
                (*old(self)).claims.holds(key as int),
                ((*old(self)).layered() ==> (*self).layered()),
                ((*old(self)).all_edges_base((*old(self)).recorded_edges(key as int)) ==> {
                    &&& (forall|j: int|
                        0 <= j < i as int ==> (*old(self)).memos@[(*old(self)).recorded_edges(
                            key as int,
                        )[j] as int] is Some && (*old(self)).memos@[(*old(self)).recorded_edges(
                            key as int,
                        )[j] as int]->Some_0.changed_at <= (*old(self)).verified@[key as int])
                    &&& (forall|k: int|
                        #![trigger (*old(self)).slot_untouched(*self, k)]
                        0 <= k < (*old(self)).n() && !(*old(self)).recorded_edges(
                            key as int,
                        ).take(i as int).contains(k as usize) ==> (*old(self)).slot_untouched(
                            *self,
                            k,
                        ) && (*self).probes@[k] == (*old(self)).probes@[k])
                    &&& (forall|j: int|
                        #![trigger (*old(self)).recorded_edges(key as int)[j]]
                        0 <= j < (*old(self)).recorded_edges(key as int).len()
                            ==> (*self).memos@[(*old(self)).recorded_edges(key as int)[j] as int]
                            == (*old(self)).memos@[(*old(self)).recorded_edges(
                            key as int,
                        )[j] as int] && (*self).values@[(*old(self)).recorded_edges(
                            key as int,
                        )[j] as int] == (*old(self)).values@[(*old(self)).recorded_edges(
                            key as int,
                        )[j] as int])
                }),
            decreases edge_count - i,
        {
            let e = self.edge_at(key, i);
            proof {
                assert((*self).slot_ok(key as int));
            }
            let ghost pre_iter = *self;
            let mcr = self.maybe_changed_after(e, last_verified);
            proof {
                lemma_work_trans(*old(self), pre_iter, *self, key as int);
                let pre0 = *old(self);
                let eseq = pre0.recorded_edges(key as int);
                if pre0.layered() {
                    assert(pre_iter.layered());
                    assert((*self).layered());
                }
                if mcr is Ok && pre0.all_edges_base(eseq) {
                    vstd::std_specs::vec::axiom_spec_len(&pre0.rules);
                    assert(pre_iter.memos@[e as int] == pre0.memos@[e as int]);
                    assert(pre_iter.values@[e as int] == pre0.values@[e as int]);
                    assert(pre0.memos@[e as int] is Some);
                    assert(!pre_iter.cancelled);
                    let e_claimed = pre_iter.claims.holds(e as int);
                    if e_claimed {
                        assert(pre_iter.shallow_ok_at(e as int));
                        assert((*self).memos@ == pre_iter.memos@);
                        assert((*self).values@ == pre_iter.values@);
                        assert((*self).execs@ == pre_iter.execs@);
                    }
                    assert forall|k: int|
                        0 <= k < pre0.n() && !eseq.take(i as int + 1).contains(k as usize)
                        implies #[trigger] pre0.slot_untouched(*self, k) && (*self).probes@[k]
                        == pre0.probes@[k] by {
                        assert((k as usize) as int == k);
                        assert(!eseq.take(i as int).contains(k as usize)) by {
                            if eseq.take(i as int).contains(k as usize) {
                                let m = choose|m: int|
                                    0 <= m < i as int && eseq.take(i as int)[m] == k as usize;
                                assert(eseq.take(i as int + 1)[m] == k as usize);
                            }
                        }
                        assert(pre0.slot_untouched(pre_iter, k));
                        assert(k != e as int) by {
                            assert(eseq.take(i as int + 1)[i as int] == e);
                        }
                        assert(pre_iter.slot_untouched(*self, k));
                    }
                    assert forall|j: int|
                        0 <= j < eseq.len() implies (*self).memos@[#[trigger] eseq[j] as int]
                        == pre0.memos@[eseq[j] as int] && (*self).values@[eseq[j] as int]
                        == pre0.values@[eseq[j] as int] by {
                        assert(pre_iter.memos@[eseq[j] as int] == pre0.memos@[eseq[j] as int]);
                        assert(pre_iter.values@[eseq[j] as int] == pre0.values@[eseq[j] as int]);
                        if !e_claimed && eseq[j] != e {
                            assert(pre_iter.slot_untouched(*self, eseq[j] as int));
                        }
                    }
                }
            }
            match mcr {
                Ok(true) => {
                    proof {
                        let pre0 = *old(self);
                        let eseq = pre0.recorded_edges(key as int);
                        if pre0.all_edges_base(eseq) {
                            assert(pre0.slot_ok(e as int));
                            assert((*self).values@[e as int] == pre0.values@[e as int]);
                            assert((*self).values@[e as int] is Some);
                            assert((*self).memos@[e as int] == pre0.memos@[e as int]);
                            assert((*self).memos@[e as int]->Some_0.changed_at > last_verified);
                            assert(pre0.short_circuit_witness(
                                *self,
                                key as int,
                                eseq,
                                i as int,
                            )) by {
                                assert forall|j: int|
                                    (i as int) < j && j < eseq.len() && !eseq.take(
                                        i as int + 1,
                                    ).contains(eseq[j]) implies pre0.slot_untouched(
                                    *self,
                                    eseq[j] as int,
                                ) && (*self).probes@[eseq[j] as int]
                                    == pre0.probes@[eseq[j] as int] by {
                                    assert((eseq[j] as int) < pre0.n());
                                    assert(pre0.slot_untouched(*self, eseq[j] as int));
                                }
                            }
                        }
                    }
                    return Ok(false);
                },
                Ok(false) => {
                    proof {
                        let pre0 = *old(self);
                        let eseq = pre0.recorded_edges(key as int);
                        if pre0.all_edges_base(eseq) {
                            assert((*self).memos@[e as int] == pre0.memos@[e as int]);
                            assert((*self).memos@[e as int]->Some_0.changed_at <= last_verified);
                        }
                    }
                },
                Err(s) => {
                    proof {
                        let pre0 = *old(self);
                        if !pre0.cancelled && pre0.layered() && pre0.holders_above(
                            key as int - 1,
                        ) {
                            assert(pre0.edges_below(key as int));
                            assert((e as int) < key as int);
                            assert(!pre_iter.cancelled);
                            assert(pre_iter.layered());
                            assert(pre_iter.holders_above(e as int)) by {
                                assert forall|j: int|
                                    0 <= j < pre_iter.n() && pre_iter.claims.holds(j) implies j > (
                                e as int) by {
                                    assert(pre0.claims.holds(j));
                                }
                            }
                            assert(false);
                        }
                    }
                    return Err(s);
                },
            }
            i = i + 1;
        }
        let ghost done = *self;
        self.verified[key] = rev;
        proof {
            assert((*old(self)).slot_ok(key as int));
            assert forall|k: int| 0 <= k < (*self).n() implies (*self).slot_ok(k) by {
                assert(done.slot_ok(k));
            }
            assert forall|k: int| 0 <= k < (*self).n() implies (*self).rule_ok(k) by {
                assert(done.rule_ok(k));
                assert((*self).rule_deps(k) == done.rule_deps(k));
            }
            if (*old(self)).layered() {
                assert(done.layered());
                lemma_layered_preserved(done, *self);
            }
        }
        Ok(true)
    }

    /// Re-executes `key`'s derived rule under a held claim: fetches each
    /// dependency in order, recording the edge list anew, folds the values
    /// with the rule's operation, and aggregates the minimum durability
    /// over everything read.  The fresh memo's `changed_at` is backdated to
    /// the old memo's when the recomputed value equals the prior value: a
    /// recomputation that reproduces its predecessor must not appear as a
    /// change to anyone observing this key.
    #[verifier::rlimit(100)]
    pub fn execute(&mut self, key: usize) -> (r: Result<u64, Signal>)
        requires
            old(self).wf(),
            (key as int) < old(self).n(),
            old(self).rules@[key as int] is Derived,
            old(self).claims.holds(key as int),
            !old(self).pinned(key as int),
        ensures
            final(self).wf(),
            old(self).same_config(*final(self)),
            old(self).chain_restored(*final(self)),
            old(self).memos_monotonic(*final(self)),
            old(self).pinned_preserved(*final(self)),
            old(self).claimed_preserved_except(*final(self), key as int),
            (r matches Err(_) ==> final(self).memos@[key as int] == old(self).memos@[key as int]
                && final(self).values@[key as int] == old(self).values@[key as int] && final(self).verified@[key as int] == old(self).verified@[key as int] && final(self).execs@[key as int] == old(self).execs@[key as int]),
            (r matches Ok(v) ==> {
                &&& final(self).memo_of(key as int) matches Some(m)
                &&& m.value == Some(v)
                &&& m.verified_at == old(self).revision
                &&& m.changed_at == (match old(self).memo_of(key as int) {
                    Some(om) => if om.value == Some(v) {
                        om.changed_at
                    } else {
                        old(self).revision
                    },
                    None => old(self).revision,
                })
                &&& origin_edges(m.origin) == old(self).rule_deps(key as int)
                &&& (old(self).rules@[key as int] matches QueryRule::Derived { op, untracked, .. }
                    ==> {
                    &&& v == eval_op(op, final(self).dep_values(old(self).rule_deps(key as int)))
                    &&& (m.origin is DerivedUntracked <==> untracked)
                    &&& (m.origin is Derived <==> !untracked)
                })
                &&& m.durability == final(self).deps_durability(old(self).rule_deps(key as int))
                &&& forall|j: int|
                    0 <= j < old(self).rule_deps(key as int).len() ==> final(self).pinned(
                        old(self).rule_deps(key as int)[j] as int,
                    )
                &&& final(self).execs@[key as int] == if old(self).execs@[key as int] < u64::MAX {
                    (old(self).execs@[key as int] + 1) as u64
                } else {
                    u64::MAX
                }
            }),
            !old(self).cancelled ==> r != Err::<u64, Signal>(Signal::Cancelled),
            old(self).layered() ==> final(self).layered(),
            !old(self).cancelled && old(self).layered() && old(self).holders_above(
                key as int - 1,
            ) ==> r is Ok,
        decreases old(self).n() - old(self).active@.len(), 3int,
    {
        let dep_count = self.rule_dep_count(key);
        let op = self.rule_op(key);
        let untracked = self.rule_is_untracked(key);
        let mut vals: Vec<u64> = Vec::new();
        let mut edges: Vec<usize> = Vec::new();
        let mut dur = Durability::High;
        let mut i: usize = 0;
        while i < dep_count
            invariant
                (*self).wf(),
                (key as int) < (*self).n(),
                i <= dep_count,
                (*old(self)).rules@[key as int] is Derived,
                dep_count == (*old(self)).rule_deps(key as int).len(),
                ((*old(self)).rules@[key as int] matches QueryRule::Derived { op: o2, untracked: u2, .. }
                    && op == o2 && untracked == u2),
                (*old(self)).same_config(*self),
                (*old(self)).chain_restored(*self),
                (*old(self)).memos_monotonic(*self),
                (*old(self)).pinned_preserved(*self),
                (*old(self)).claimed_preserved_except(*self, key as int),
                (*self).memos@[key as int] == (*old(self)).memos@[key as int],
                (*self).values@[key as int] == (*old(self)).values@[key as int],
                (*self).verified@[key as int] == (*old(self)).verified@[key as int],
                (*self).execs@[key as int] == (*old(self)).execs@[key as int],
                (*self).claims.holds(key as int),
                vals@.len() == i as int,
                edges@.len() == i as int,
                forall|j: int|
                    0 <= j < i as int ==> edges@[j] == (*old(self)).rule_deps(key as int)[j],
                forall|j: int|
                    0 <= j < i as int ==> ((*old(self)).rule_deps(key as int)[j] as int) < (
                    *self).n() && (*self).pinned((*old(self)).rule_deps(key as int)[j] as int)
                        && (*self).values@[(*old(self)).rule_deps(key as int)[j] as int] == Some(
                        vals@[j],
                    ) && (*old(self)).rule_deps(key as int)[j] != key,
                dur == (*self).deps_durability((*old(self)).rule_deps(key as int).take(i as int)),
                (*old(self)).wf(),
                (*old(self)).claims.holds(key as int),
                !(*old(self)).pinned(key as int),
                ((*old(self)).layered() ==> (*self).layered()),
            decreases dep_count - i,
        {
            let d = self.rule_dep_at(key, i);
            proof {
                assert((*self).rule_ok(key as int));
                assert((*self).rule_deps(key as int) == (*old(self)).rule_deps(key as int));
            }
            let ghost pre_iter = *self;
            let fr = self.fetch(d);
            proof {
                lemma_work_trans(*old(self), pre_iter, *self, key as int);
                if (*old(self)).layered() {
                    assert(pre_iter.layered());
                    assert((*self).layered());
                }
            }
            match fr {
                Ok(v) => {
                    vals.push(v);
                    edges.push(d);
                    let dd = self.memo_durability(d);
                    dur = dur.min_with(dd);
                    proof {
                        let deps = (*old(self)).rule_deps(key as int);
                        assert(!pre_iter.cancelled && pre_iter.claims.holds(key as int));
                        assert(d != key);
                        assert forall|j: int|
                            0 <= j < deps.take(i as int).len() implies (*self).memos@[deps.take(
                            i as int,
                        )[j] as int] == pre_iter.memos@[deps.take(i as int)[j] as int] by {
                            assert(deps.take(i as int)[j] == deps[j]);
                            assert(pre_iter.pinned(deps[j] as int));
                            assert(pre_iter.slot_untouched(*self, deps[j] as int));
                        }
                        lemma_deps_durability_stable(pre_iter, *self, deps.take(i as int));
                        assert(deps.take(i + 1).drop_last() =~= deps.take(i as int));
                        assert(deps.take(i + 1).last() == deps[i as int]);
                    }
                },
                Err(s) => {
                    proof {
                        let pre0 = *old(self);
                        if !pre0.cancelled && pre0.layered() && pre0.holders_above(
                            key as int - 1,
                        ) {
                            assert(pre0.edges_below(key as int));
                            assert((d as int) < key as int);
                            assert(!pre_iter.cancelled);
                            assert(pre_iter.layered());
                            assert(pre_iter.holders_above(d as int)) by {
                                assert forall|j: int|
                                    0 <= j < pre_iter.n() && pre_iter.claims.holds(j) implies j > (
                                d as int) by {
                                    assert(pre0.claims.holds(j));
                                }
                            }
                            assert(false);
                        }
                    }
                    return Err(s);
                },
            }
            i = i + 1;
        }
        let v = eval_vec(op, &vals);
        let ghost done = *self;
        let rev = self.revision;
        let prev_val = self.values[key];
        let prev_changed: u64 = match &self.memos[key] {
            Some(mc) => mc.changed_at,
            None => rev,
        };
        let changed_at: u64 = match prev_val {
            Some(pv) => if pv == v {
                prev_changed
            } else {
                rev
            },
            None => rev,
        };
        proof {
            assert((*self).slot_ok(key as int));
            assert(changed_at <= rev);
        }
        let origin = if untracked {
            QueryOrigin::DerivedUntracked(edges)
        } else {
            QueryOrigin::Derived(edges)
        };
        self.memos[key] = Some(MemoCore { changed_at, durability: dur, origin });
        self.verified[key] = rev;
        self.values[key] = Some(v);
        let e0 = self.execs[key];
        let e1 = sat_add(e0, 1);
        self.execs[key] = e1;
        proof {
            let deps = (*old(self)).rule_deps(key as int);
            let fin = *self;
            assert(deps.take(dep_count as int) =~= deps);
            assert forall|j: int| 0 <= j < deps.len() implies deps[j] != key
                && (deps[j] as int) < fin.n() && fin.pinned(deps[j] as int)
                && fin.values@[deps[j] as int] == Some(vals@[j])
                && fin.memos@[deps[j] as int] == done.memos@[deps[j] as int] by {
                assert(done.pinned(deps[j] as int));
                assert(done.values@[deps[j] as int] == Some(vals@[j]));
            }
            assert(origin_edges(fin.memos@[key as int]->Some_0.origin) =~= deps);
            assert(fin.dep_values(deps) =~= vals@) by {
                assert forall|j: int| 0 <= j < deps.len() implies fin.dep_values(deps)[j]
                    == vals@[j] by {
                    assert(fin.values@[deps[j] as int] == Some(vals@[j]));
                }
            }
            lemma_deps_durability_stable(done, fin, deps);
            assert(fin.deps_durability(deps) == dur);
            assert forall|k: int| 0 <= k < fin.n() implies fin.slot_ok(k) by {
                if k != key as int {
                    assert(done.slot_ok(k));
                }
            }
            assert forall|k: int| 0 <= k < fin.n() implies fin.rule_ok(k) by {
                assert(done.rule_ok(k));
                assert(fin.rule_deps(k) == done.rule_deps(k));
            }
            if (*old(self)).layered() {
                assert(done.layered());
                assert forall|k: int| 0 <= k < fin.n() implies fin.edges_below(k) by {
                    assert(done.edges_below(k));
                    assert(fin.rule_deps(k) == done.rule_deps(k));
                    if k != key as int {
                        assert(fin.recorded_edges(k) == done.recorded_edges(k));
                    } else {
                        assert(fin.recorded_edges(k) =~= deps);
                    }
                }
            }
        }
        Ok(v)
    }

    /// Fetches `key`'s up-to-date value, verifying or recomputing as
    /// needed: the shallow check answers from the cache when it can;
    /// otherwise the key is claimed, deep-verified and, if stale or
    /// missing a value, re-executed.  A pending cancellation or a
    /// re-entrant request surfaces as a signal instead of a value.
    #[verifier::rlimit(100)]
    pub fn fetch(&mut self, key: usize) -> (r: Result<u64, Signal>)
        requires
            old(self).wf(),
            (key as int) < old(self).n(),
        ensures
            final(self).wf(),
            old(self).engine_frame(*final(self)),
            old(self).cancelled ==> r == Err::<u64, Signal>(Signal::Cancelled) && old(self).quiet(
                *final(self),
            ),
            (!old(self).cancelled && old(self).claims.holds(key as int) && !(old(
                self,
            ).shallow_ok_at(key as int) && old(self).values@[key as int] is Some)) ==> r == Err::<
                u64,
                Signal,
            >(Signal::Cycle) && old(self).quiet(*final(self)),
            (r matches Ok(v) ==> final(self).pinned(key as int) && final(self).values@[key as int]
                == Some(v)),
            !old(self).cancelled && old(self).pinned(key as int) ==> r == Ok::<u64, Signal>(
                old(self).values@[key as int]->Some_0,
            ) && old(self).quiet(*final(self)),
            !old(self).cancelled ==> r != Err::<u64, Signal>(Signal::Cancelled),
            (r matches Ok(v) ==> old(self).memos@[key as int] is None ==> {
                &&& final(self).memos@[key as int] is Some
                &&& final(self).memos@[key as int]->Some_0.changed_at == old(self).revision
                &&& (match old(self).rules@[key as int] {
                    QueryRule::Derived { op, untracked, .. } => v == eval_op(
                        op,
                        final(self).dep_values(old(self).rule_deps(key as int)),
                    ) && (final(self).memos@[key as int]->Some_0.origin is DerivedUntracked
                        <==> untracked) && (final(self).memos@[key as int]->Some_0.origin
                        is Derived <==> !untracked) && origin_edges(
                        final(self).memos@[key as int]->Some_0.origin,
                    ) == old(self).rule_deps(key as int) && final(self).memos@[key as int]->Some_0.durability == final(self).deps_durability(
                        old(self).rule_deps(key as int),
                    ),
                    QueryRule::Input => true,
                })
                &&& forall|j: int|
                    0 <= j < old(self).rule_deps(key as int).len() ==> final(self).pinned(
                        old(self).rule_deps(key as int)[j] as int,
                    )
            }),
            old(self).layered() ==> final(self).layered(),
            !old(self).cancelled && old(self).layered() && old(self).holders_above(key as int)
                ==> r is Ok,
            r is Ok && old(self).memos@[key as int] is Some && final(self).values@[key as int]
                == old(self).values@[key as int] ==> final(self).memos@[key as int]->Some_0.changed_at
                == old(self).memos@[key as int]->Some_0.changed_at,
            r is Ok && old(self).memos@[key as int] is Some && final(self).values@[key as int]
                != old(self).values@[key as int] ==> final(self).memos@[key as int]->Some_0.changed_at
                == old(self).revision,
            (r is Ok && final(self).execs@[key as int] != old(self).execs@[key as int]) ==> (
            match old(self).rules@[key as int] {
                QueryRule::Derived { op, untracked, .. } => {
                    &&& final(self).values@[key as int] == Some(
                        eval_op(op, final(self).dep_values(old(self).rule_deps(key as int))),
                    )
                    &&& final(self).verified@[key as int] == old(self).revision
                    &&& final(self).memos@[key as int] is Some
                    &&& (final(self).memos@[key as int]->Some_0.origin is Derived <==> !untracked)
                    &&& (final(self).memos@[key as int]->Some_0.origin is DerivedUntracked
                        <==> untracked)
                    &&& origin_edges(final(self).memos@[key as int]->Some_0.origin) == old(self).rule_deps(key as int)
                    &&& final(self).memos@[key as int]->Some_0.durability == final(self).deps_durability(old(self).rule_deps(key as int))
                    &&& forall|j: int|
                        0 <= j < old(self).rule_deps(key as int).len() ==> final(self).pinned(
                            old(self).rule_deps(key as int)[j] as int,
                        )
                },
                QueryRule::Input => true,
            }),
            old(self).execs@[key as int] < u64::MAX && final(self).execs@[key as int] == old(self).execs@[key as int] ==> final(self).memos@[key as int] == old(self).memos@[key as int]
                && final(self).values@[key as int] == old(self).values@[key as int],
            final(self).execs@[key as int] == old(self).execs@[key as int] || final(self).execs@[key as int] == old(self).execs@[key as int] + 1,
        decreases old(self).n() - old(self).active@.len(), 2int,
    {
        if self.cancelled {
            proof {
                if (*old(self)).layered() {
                    lemma_layered_preserved(*old(self), *self);
                }
            }
            return Err(Signal::Cancelled);
        }
        let p0 = self.probes[key];
        let p1 = sat_add(p0, 1);
        self.probes[key] = p1;
        proof {
            assert forall|k: int| 0 <= k < (*self).n() implies (*self).slot_ok(k) by {
                assert((*old(self)).slot_ok(k));
            }
            assert forall|k: int| 0 <= k < (*self).n() implies (*self).rule_ok(k) by {
                assert((*old(self)).rule_ok(k));
                assert((*self).rule_deps(k) == (*old(self)).rule_deps(k));
            }
        }
        let ghost probed = *self;
        if self.memo_exists(key) {
            let sv = self.shallow_verify_memo(key);
            if sv {
                if self.value_present(key) {
                    let v = self.value_get(key);
                    proof {
                        if (*old(self)).verified@[key as int] == (*old(self)).revision {
                            assert((*self).verified@ =~= (*old(self)).verified@);
                        }
                        if (*old(self)).layered() {
                            lemma_layered_preserved(*old(self), *self);
                        }
                    }
                    return Ok(v);
                }
            }
        }
        if self.claims.holds_key(key) {
            // Only computing needs the claim; a cached, durably verified
            // value was already served above.  A held claim here is this
            // chain's own: a re-entrant request, reported as a cycle.
            proof {
                assert((*old(self)).claims.holds(key as int));
                assert forall|j: int|
                    0 <= j < (*self).verified@.len() implies (*self).verified@[j] == (*old(
                    self,
                )).verified@[j] by {
                    if j == key as int && (*old(self)).memos@[key as int] is Some && (*old(
                        self,
                    )).shallow_ok_at(key as int) {
                        // A claimed key that passes the shallow check was
                        // already verified at the current revision, so the
                        // hot path's bump wrote the value it read.
                        assert((*old(self)).verified@[j] == (*old(self)).revision);
                    }
                }
                assert((*self).verified@ =~= (*old(self)).verified@);
                if (*old(self)).layered() {
                    lemma_layered_preserved(*old(self), *self);
                }
            }
            return Err(Signal::Cycle);
        }
        let ghost mid = *self;
        self.enter(key);
        let ghost entered = *self;
        proof {
            if (*old(self)).layered() {
                lemma_layered_preserved(*old(self), probed);
                lemma_layered_preserved(probed, mid);
                lemma_layered_preserved(mid, entered);
            }
            if !(*old(self)).cancelled && (*old(self)).layered() && (*old(self)).holders_above(
                key as int,
            ) {
                assert(entered.holders_above(key as int - 1)) by {
                    assert forall|j: int|
                        0 <= j < entered.n() && entered.claims.holds(j) implies j > key as int
                        - 1 by {
                        if j != key as int {
                            assert(mid.claims.holds(j));
                            assert((*old(self)).claims.holds(j));
                        }
                    }
                }
            }
        }
        let result: Result<u64, Signal>;
        if self.memo_exists(key) {
            let dv = self.deep_verify_memo(key);
            match dv {
                Ok(true) => {
                    if self.value_present(key) {
                        let v = self.value_get(key);
                        result = Ok(v);
                    } else {
                        let ghost after_deep = *self;
                        proof {
                            assert((*self).slot_ok(key as int));
                            assert(!(*self).pinned(key as int));
                        }
                        let ex = self.execute(key);
                        proof {
                            lemma_work_trans(entered, after_deep, *self, key as int);
                            if !(*old(self)).cancelled && (*old(self)).layered() && (*old(self)).holders_above(key as int) {
                                assert(after_deep.layered());
                                assert(after_deep.holders_above(key as int - 1)) by {
                                    assert forall|j: int|
                                        0 <= j < after_deep.n() && after_deep.claims.holds(
                                            j,
                                        ) implies j > key as int - 1 by {
                                        assert(entered.claims.holds(j));
                                    }
                                }
                                assert(ex is Ok);
                            }
                        }
                        result = ex;
                    }
                },
                Ok(false) => {
                    let ghost after_deep = *self;
                    proof {
                        assert((*self).slot_ok(key as int));
                        assert(!(*self).pinned(key as int));
                    }
                    let ex = self.execute(key);
                    proof {
                        lemma_work_trans(entered, after_deep, *self, key as int);
                        if !(*old(self)).cancelled && (*old(self)).layered() && (*old(self)).holders_above(key as int) {
                            assert(after_deep.layered());
                            assert(after_deep.holders_above(key as int - 1)) by {
                                assert forall|j: int|
                                    0 <= j < after_deep.n() && after_deep.claims.holds(
                                        j,
                                    ) implies j > key as int - 1 by {
                                    assert(entered.claims.holds(j));
                                }
                            }
                            assert(ex is Ok);
                        }
                    }
                    result = ex;
                },
                Err(s) => {
                    proof {
                        if !(*old(self)).cancelled && (*old(self)).layered() && (*old(self)).holders_above(key as int) {
                            assert(false);
                        }
                    }
                    result = Err(s);
                },
            }
        } else {
            proof {
                assert(entered.slot_ok(key as int));
                assert(!entered.pinned(key as int));
            }
            let ex = self.execute(key);
            proof {
                if !(*old(self)).cancelled && (*old(self)).layered() && (*old(self)).holders_above(key as int) {
                    assert(ex is Ok);
                }
            }
            result = ex;
        }
        let ghost worked = *self;
        proof {
            assert(worked.active@ == entered.active@);
            assert(worked.active@.len() > 0);
            assert(worked.active@.last() == key);
        }
        self.leave(key);
        proof {
            assert((*self).active@ =~= mid.active@);
            assert forall|j: int|
                0 <= j < (*self).claims.held@.len() implies (*self).claims.held@[j]
                == mid.claims.held@[j] by {
                if j != key as int {
                    assert((*self).claims.holds(j) == worked.claims.holds(j));
                    assert(worked.claims.holds(j) == entered.claims.holds(j));
                    assert(entered.claims.holds(j) == mid.claims.holds(j));
                } else {
                    assert(!(*self).claims.holds(j));
                    assert(!mid.claims.holds(j));
                }
            }
            assert((*self).claims.held@ =~= mid.claims.held@);
            lemma_frame_through_claim(mid, entered, worked, *self, key as int);
            lemma_work_trans(probed, mid, *self, key as int);
            lemma_work_trans(*old(self), probed, *self, key as int);
            if (*old(self)).layered() {
                assert(worked.layered());
                lemma_layered_preserved(worked, *self);
            }
            assert(entered.memos@[key as int] == (*old(self)).memos@[key as int]);
            assert(entered.values@[key as int] == (*old(self)).values@[key as int]);
            if result is Ok && ((*old(self)).memos@[key as int] is None || (
            *self).execs@[key as int] != (*old(self)).execs@[key as int]) {
                let deps = (*old(self)).rule_deps(key as int);
                assert(entered.rule_deps(key as int) == deps);
                assert((*self).dep_values(deps) =~= worked.dep_values(deps)) by {
                    assert forall|j: int|
                        0 <= j < deps.len() implies (*self).dep_values(deps)[j]
                        == worked.dep_values(deps)[j] by {
                        assert((*self).values@[deps[j] as int] == worked.values@[deps[j] as int]);
                    }
                }
                assert forall|j: int| 0 <= j < deps.len() implies (*self).pinned(
                    deps[j] as int,
                ) by {
                    assert(worked.pinned(deps[j] as int));
                }
                lemma_deps_durability_stable(worked, *self, deps);
            }
        }
        result
    }

    /// The present revision (monotonic, wait-free read).
    pub fn current_revision(&self) -> (r: u64)
        ensures
            r == self.revision,
    {
        self.revision
    }

    /// The most recent revision at which an input of durability `d` or
    /// higher was mutated.
    pub fn last_changed(&self, d: Durability) -> (r: u64)
        ensures
            r == self.last_changed_spec(d),
    {
        match d {
            Durability::Low => self.last_low,
            Durability::Medium => self.last_medium,
            Durability::High => self.last_high,
        }
    }
}





/// An idle, well-formed database holds no claim at all: nothing is being
/// computed, so no key has a holder and every verification is owed an
/// answer (no cycle signal) as long as the dependency graph is layered.
pub proof fn lemma_idle_holders(db: Database, k: int)
    requires
        db.wf(),
        db.active@.len() == 0,
    ensures
        db.holders_above(k),
{
    assert forall|j: int| 0 <= j < db.n() && db.claims.holds(j) implies j > k by {
        assert(db.active@.contains(j as usize));
    }
}


/// The claimed-key shallow invariant depends only on the claims, the memo
/// cores, the `verified_at` slots and the clocks; two states that agree on
/// those agree on it.
proof fn lemma_claim_frame_same(a: Database, b: Database)
    requires
        a.claim_frame_ok(),
        b.claims.held@ == a.claims.held@,
        b.memos@ == a.memos@,
        b.verified@ == a.verified@,
        b.revision == a.revision,
        b.last_low == a.last_low,
        b.last_medium == a.last_medium,
        b.last_high == a.last_high,
        b.n() == a.n(),
    ensures
        b.claim_frame_ok(),
{
    assert forall|k: int|
        0 <= k < b.n() && b.claims.holds(k) implies (b.memos@[k] is None || !b.shallow_ok_at(k)
        || b.verified@[k] == b.revision) by {
        assert(a.claims.holds(k));
    }
}

/// A database with the same rules and memos is layered whenever the
/// first one is: the dependency graph lives in those two stores alone.
proof fn lemma_layered_preserved(a: Database, b: Database)
    requires
        a.layered(),
        b.memos@ == a.memos@,
        b.rules == a.rules,
    ensures
        b.layered(),
{
    assert forall|k: int| 0 <= k < b.n() implies b.edges_below(k) by {
        assert(a.edges_below(k));
        assert(b.rule_deps(k) == a.rule_deps(k));
        assert(b.recorded_edges(k) == a.recorded_edges(k));
    }
}

/// Monotonicity of a memo's timestamps: at any time, a memo's `changed_at`
/// never exceeds its `verified_at`, which never exceeds the current
/// revision.  That `verified_at` and `changed_at` also never move backward
/// across any engine operation is the `memos_monotonic` clause each
/// operation ensures.
pub proof fn lemma_memo_bounds(db: Database, k: int)
    requires
        db.wf(),
        0 <= k < db.n(),
        db.memo_of(k) is Some,
    ensures
        db.memo_of(k)->Some_0.changed_at <= db.memo_of(k)->Some_0.verified_at,
        db.memo_of(k)->Some_0.verified_at <= db.revision,
{
    assert(db.slot_ok(k));
}

/// Transitivity of the engine frame across two steps that both keep the
/// call-chain state.
proof fn lemma_work_trans(a: Database, b: Database, c: Database, except: int)
    requires
        a.same_config(b),
        b.same_config(c),
        a.chain_restored(b),
        b.chain_restored(c),
        a.memos_monotonic(b),
        b.memos_monotonic(c),
        a.pinned_preserved(b),
        b.pinned_preserved(c),
        a.claimed_preserved_except(b, except),
        b.claimed_preserved_except(c, except),
    ensures
        a.same_config(c),
        a.chain_restored(c),
        a.memos_monotonic(c),
        a.pinned_preserved(c),
        a.claimed_preserved_except(c, except),
{
    assert(a.memos_monotonic(c)) by {
        assert forall|k: int|
            0 <= k < a.n() implies ((a.memos@[k] is Some ==> #[trigger] c.memos@[k] is Some) && (
            a.memos@[k] is Some ==> c.verified@[k] >= a.verified@[k]) && (a.memos@[k] is Some
            ==> c.memos@[k]->Some_0.changed_at >= a.memos@[k]->Some_0.changed_at) && c.execs@[k]
            >= a.execs@[k]) by {
            assert(b.memos@[k] == b.memos@[k]);
        }
    }
    assert(a.pinned_preserved(c)) by {
        assert forall|k: int| 0 <= k < a.n() && #[trigger] a.pinned(k) implies a.slot_untouched(
            c,
            k,
        ) by {
            assert(a.slot_untouched(b, k));
            assert(b.pinned(k));
            assert(b.slot_untouched(c, k));
        }
    }
    assert(a.claimed_preserved_except(c, except)) by {
        assert forall|k: int|
            0 <= k < a.n() && k != except && #[trigger] a.claims.holds(k) implies a.slot_untouched(
            c,
            k,
        ) by {
            assert(a.slot_untouched(b, k));
            assert(b.claims.holds(k));
            assert(b.slot_untouched(c, k));
        }
    }
}

/// The engine frame carried through a claim's whole lifetime: entering
/// (claim and push, stores untouched), working under the claim, and
/// leaving (pop and release, stores untouched).
proof fn lemma_frame_through_claim(a: Database, b: Database, c: Database, d: Database, key: int)
    requires
        a.same_config(b),
        b.memos@ == a.memos@,
        b.verified@ == a.verified@,
        b.values@ == a.values@,
        b.execs@ == a.execs@,
        b.claims.held@.len() == a.claims.held@.len(),
        forall|j: int| 0 <= j < a.n() && j != key ==> b.claims.holds(j) == a.claims.holds(j),
        !a.claims.holds(key),
        b.same_config(c),
        b.chain_restored(c),
        b.memos_monotonic(c),
        b.pinned_preserved(c),
        b.claimed_preserved_except(c, key),
        c.same_config(d),
        d.memos@ == c.memos@,
        d.verified@ == c.verified@,
        d.values@ == c.values@,
        d.execs@ == c.execs@,
    ensures
        a.same_config(d),
        a.memos_monotonic(d),
        a.pinned_preserved(d),
        a.claimed_preserved_except(d, -1),
{
    assert(a.memos_monotonic(d)) by {
        assert forall|k: int|
            0 <= k < a.n() implies ((a.memos@[k] is Some ==> #[trigger] d.memos@[k] is Some) && (
            a.memos@[k] is Some ==> d.verified@[k] >= a.verified@[k]) && (a.memos@[k] is Some
            ==> d.memos@[k]->Some_0.changed_at >= a.memos@[k]->Some_0.changed_at) && d.execs@[k]
            >= a.execs@[k]) by {
            assert(b.memos@[k] == a.memos@[k]);
            assert(c.memos@[k] == d.memos@[k]);
        }
    }
    assert(a.pinned_preserved(d)) by {
        assert forall|k: int| 0 <= k < a.n() && #[trigger] a.pinned(k) implies a.slot_untouched(
            d,
            k,
        ) by {
            assert(b.memos@[k] == a.memos@[k]);
            assert(b.pinned(k));
            assert(b.slot_untouched(c, k));
        }
    }
    assert(a.claimed_preserved_except(d, -1)) by {
        assert forall|k: int|
            0 <= k < a.n() && k != -1 && #[trigger] a.claims.holds(k) implies a.slot_untouched(
            d,
            k,
        ) by {
            assert(k != key);
            assert(b.claims.holds(k));
            assert(b.slot_untouched(c, k));
        }
    }
}

/// A stack of distinct keys drawn from `n` keys has at most `n` entries.
proof fn lemma_stack_len_bound(s: Seq<usize>, n: int)
    requires
        s.no_duplicates(),
        forall|i: int| 0 <= i < s.len() ==> (s[i] as int) < n,
        n >= 0,
    ensures
        s.len() <= n,
{
    broadcast use vstd::seq_lib::group_seq_properties;

    let si = s.map_values(|x: usize| x as int);
    assert(si.no_duplicates()) by {
        assert forall|p: int, q: int|
            0 <= p < si.len() && 0 <= q < si.len() && p != q implies si[p] != si[q] by {
            assert(s[p] != s[q]);
        }
    }
    si.unique_seq_to_set();
    assert(si.to_set().subset_of(vstd::set_lib::set_int_range(0, n))) by {
        assert forall|e: int| si.to_set().contains(e) implies vstd::set_lib::set_int_range(
            0,
            n,
        ).contains(e) by {
            assert(si.contains(e));
            let i = choose|i: int| 0 <= i < si.len() && si[i] == e;
            assert((s[i] as int) < n);
        }
    }
    vstd::set_lib::lemma_int_range(0, n);
    vstd::set_lib::lemma_len_subset(si.to_set(), vstd::set_lib::set_int_range(0, n));
}

/// The aggregate durability of a dependency list depends only on the
/// dependencies' stored memos.
proof fn lemma_deps_durability_stable(a: Database, b: Database, deps: Seq<usize>)
    requires
        forall|j: int| 0 <= j < deps.len() ==> b.memos@[deps[j] as int] == a.memos@[deps[j] as int],
    ensures
        b.deps_durability(deps) == a.deps_durability(deps),
    decreases deps.len(),
{
    if deps.len() > 0 {
        assert forall|j: int|
            0 <= j < deps.drop_last().len() implies b.memos@[deps.drop_last()[j] as int]
            == a.memos@[deps.drop_last()[j] as int] by {
            assert(deps.drop_last()[j] == deps[j]);
        }
        lemma_deps_durability_stable(a, b, deps.drop_last());
    }
}

} // verus!
