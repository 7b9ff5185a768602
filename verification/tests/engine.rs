use requery::Database;
use requery::Durability;
use requery::Op;
use requery::QueryOrigin;
use requery::Signal;

#[test]
fn fresh_database_is_empty() {
    let db = Database::new();
    assert_eq!(db.current_revision(), 1);
    assert_eq!(db.rules.len(), 0);
}

#[test]
fn input_registration_installs_memo() {
    let mut db = Database::new();
    let x = db.register_input(41, Durability::Low);
    assert_eq!(x, 0);
    assert_eq!(db.values[x], Some(41));
    let core = db.memos[x].as_ref().unwrap();
    assert_eq!(core.changed_at, 1);
    assert!(matches!(core.origin, QueryOrigin::BaseInput));
    assert_eq!(db.verified[x], 1);
}

#[test]
fn unknown_key_counts_as_changed() {
    let mut db = Database::new();
    let x = db.register_input(1, Durability::Low);
    let y = db.register_derived(vec![x], Op::Sum, false);
    // Never computed: no memo, so the key is reported changed, and no memo
    // is created by the question alone.
    assert_eq!(db.maybe_changed_after(y, 1), Ok(true));
    assert!(db.memos[y].is_none());
    assert_eq!(db.execs[y], 0);
}

#[test]
fn scenario_backdating_round() {
    // Base input X = 1; derived Y = X + X (value 2).
    let mut db = Database::new();
    let x = db.register_input(1, Durability::Low);
    let y = db.register_derived(vec![x, x], Op::Sum, false);
    let r0 = db.current_revision();
    assert_eq!(db.fetch(y), Ok(2));
    assert_eq!(db.maybe_changed_after(y, r0), Ok(false));

    // Rewrite X with the same value: a new revision, but Y's recomputed
    // output is equal, so backdating keeps Y's changed_at and the caller
    // still sees "unchanged since r0".
    db.set_input(x, 1, Durability::Low);
    let r1 = db.current_revision();
    assert_eq!(db.maybe_changed_after(y, r0), Ok(false));
    assert_eq!(db.memos[y].as_ref().unwrap().changed_at, r0);

    // A real change: Y = 10, stamped at the new revision.
    db.set_input(x, 5, Durability::Low);
    let r2 = db.current_revision();
    assert_eq!(db.maybe_changed_after(y, r1), Ok(true));
    assert_eq!(db.fetch(y), Ok(10));
    assert_eq!(db.memos[y].as_ref().unwrap().changed_at, r2);
}

#[test]
fn idempotent_checks_do_not_reexecute() {
    let mut db = Database::new();
    let x = db.register_input(7, Durability::Low);
    let y = db.register_derived(vec![x], Op::Sum, false);
    assert_eq!(db.fetch(y), Ok(7));
    assert_eq!(db.execs[y], 1);
    let r = db.current_revision();
    let first = db.maybe_changed_after(y, r);
    let execs_after_first = db.execs[y];
    let second = db.maybe_changed_after(y, r);
    assert_eq!(first, second);
    assert_eq!(db.execs[y], execs_after_first);
    // Fetching again is also free.
    assert_eq!(db.fetch(y), Ok(7));
    assert_eq!(db.execs[y], 1);
}

#[test]
fn short_circuit_skips_later_edges() {
    let mut db = Database::new();
    let a = db.register_input(1, Durability::Low);
    let b = db.register_input(2, Durability::Low);
    let c = db.register_input(3, Durability::Low);
    let d = db.register_derived(vec![a, b, c], Op::Sum, false);
    assert_eq!(db.fetch(d), Ok(6));
    // Drop the cached value so that the failed walk is not followed by a
    // re-execution (which would legitimately read every dependency again).
    db.evict_value(d);
    let r = db.current_revision();
    db.set_input(a, 10, Durability::Low);
    let probes_b = db.probes[b];
    let probes_c = db.probes[c];
    // A is walked first, reports a change, and the walk stops: B and C are
    // never queried during this verification pass.
    assert_eq!(db.maybe_changed_after(d, r), Ok(true));
    assert_eq!(db.probes[b], probes_b);
    assert_eq!(db.probes[c], probes_c);
    // A itself was queried.
    assert!(db.probes[a] > 0);
}

#[test]
fn repeated_fetch_runs_executor_once() {
    let mut db = Database::new();
    let x = db.register_input(4, Durability::Low);
    let y = db.register_derived(vec![x, x, x], Op::Sum, false);
    assert_eq!(db.fetch(y), Ok(12));
    assert_eq!(db.fetch(y), Ok(12));
    assert_eq!(db.fetch(y), Ok(12));
    assert_eq!(db.execs[y], 1);
}

#[test]
fn direct_cycle_is_a_signal_not_a_hang() {
    let mut db = Database::new();
    let y_index = db.rules.len();
    let y = db.register_derived(vec![y_index], Op::Sum, false);
    assert_eq!(db.fetch(y), Err(Signal::Cycle));
    // The claim and the stack entry were released on the failure path.
    assert!(db.active.is_empty());
    assert!(!db.claims.held[y]);
    // The engine is still usable afterwards.
    let x = db.register_input(9, Durability::Low);
    let z = db.register_derived(vec![x], Op::Sum, false);
    assert_eq!(db.fetch(z), Ok(9));
}

#[test]
fn cancellation_unwinds_without_an_answer() {
    let mut db = Database::new();
    let x = db.register_input(1, Durability::Low);
    let y = db.register_derived(vec![x], Op::Sum, false);
    db.set_cancelled(true);
    assert_eq!(db.maybe_changed_after(y, 1), Err(Signal::Cancelled));
    assert_eq!(db.fetch(y), Err(Signal::Cancelled));
    assert_eq!(db.execs[y], 0);
    // The mutation that was pending clears the flag; the retried call
    // succeeds.
    db.set_input(x, 2, Durability::Low);
    assert_eq!(db.fetch(y), Ok(2));
}

#[test]
fn durability_shortcut_avoids_the_walk() {
    let mut db = Database::new();
    let stable = db.register_input(100, Durability::High);
    let noisy = db.register_input(1, Durability::Low);
    let y = db.register_derived(vec![stable], Op::Sum, false);
    assert_eq!(db.fetch(y), Ok(100));
    let r = db.current_revision();
    // A low-durability mutation does not move the high tier's clock, so
    // Y's memo shallow-verifies without touching its dependency.
    db.set_input(noisy, 2, Durability::Low);
    let probes_stable = db.probes[stable];
    assert_eq!(db.maybe_changed_after(y, r), Ok(false));
    assert_eq!(db.probes[stable], probes_stable);
    assert_eq!(db.execs[y], 1);
}

#[test]
fn untracked_memo_is_always_recomputed() {
    let mut db = Database::new();
    let x = db.register_input(5, Durability::Low);
    let u = db.register_derived(vec![x], Op::Sum, true);
    assert_eq!(db.fetch(u), Ok(5));
    assert_eq!(db.execs[u], 1);
    let core = db.memos[u].as_ref().unwrap();
    assert!(matches!(core.origin, QueryOrigin::DerivedUntracked(_)));
    let r0 = db.current_revision();
    // Any mutation at or above its durability forces re-execution: the
    // untracked inputs can never be proven unchanged.  The equal result is
    // still backdated.
    db.set_input(x, 5, Durability::Low);
    assert_eq!(db.maybe_changed_after(u, r0), Ok(false));
    assert_eq!(db.execs[u], 2);
    assert_eq!(db.memos[u].as_ref().unwrap().changed_at, r0);
}

#[test]
fn evicted_value_forces_reexecution_on_fetch() {
    let mut db = Database::new();
    let x = db.register_input(3, Durability::Low);
    let y = db.register_derived(vec![x, x], Op::Product, false);
    assert_eq!(db.fetch(y), Ok(9));
    db.evict_value(y);
    assert_eq!(db.values[y], None);
    assert_eq!(db.fetch(y), Ok(9));
    assert_eq!(db.execs[y], 2);
}

#[test]
fn evicted_value_with_changed_inputs_reports_changed_without_executing() {
    let mut db = Database::new();
    let x = db.register_input(3, Durability::Low);
    let y = db.register_derived(vec![x], Op::Sum, false);
    assert_eq!(db.fetch(y), Ok(3));
    db.evict_value(y);
    let r = db.current_revision();
    db.set_input(x, 4, Durability::Low);
    // Deep verification fails and there is no prior value to compare
    // against, so the answer is unconditionally "changed" with no
    // re-execution.
    assert_eq!(db.maybe_changed_after(y, r), Ok(true));
    assert_eq!(db.execs[y], 1);
}

#[test]
fn assigned_memo_serves_until_its_tier_moves() {
    let mut db = Database::new();
    let x = db.register_input(2, Durability::Low);
    let high = db.register_input(1, Durability::High);
    let y = db.register_derived(vec![x], Op::Sum, false);
    db.assign(y, x, 7, Durability::High);
    // The assigned value is served as long as the durability clock vouches
    // for it.
    assert_eq!(db.fetch(y), Ok(7));
    assert_eq!(db.execs[y], 0);
    db.set_input(x, 3, Durability::Low);
    assert_eq!(db.fetch(y), Ok(7));
    assert_eq!(db.execs[y], 0);
    // Once an input at its tier moves, an assigned memo cannot be
    // revalidated here: the query is re-executed from its rule.
    db.set_input(high, 1, Durability::High);
    assert_eq!(db.fetch(y), Ok(3));
    assert_eq!(db.execs[y], 1);
}

#[test]
fn field_memo_revalidates_without_reexecution() {
    let mut db = Database::new();
    let f = db.register_field(11, Durability::Low);
    let low = db.register_input(0, Durability::Low);
    let y = db.register_derived(vec![f], Op::Sum, false);
    assert_eq!(db.fetch(y), Ok(11));
    let r = db.current_revision();
    db.set_input(low, 1, Durability::Low);
    // The field's own deep verification says "cannot be stale"; Y walks to
    // it, finds it unchanged, and revalidates without executing anything.
    assert_eq!(db.maybe_changed_after(y, r), Ok(false));
    assert_eq!(db.execs[y], 1);
    assert_eq!(db.execs[f], 0);
}

#[test]
fn monotonic_timestamps_throughout() {
    let mut db = Database::new();
    let x = db.register_input(1, Durability::Low);
    let y = db.register_derived(vec![x], Op::Sum, false);
    let z = db.register_derived(vec![y, x], Op::Sum, false);
    let mut last_verified_y = 0u64;
    let mut steps: Vec<u64> = vec![1, 2, 2, 3, 5];
    steps.drain(..).for_each(|v| {
        db.set_input(x, v, Durability::Low);
        let _ = db.fetch(z);
        for k in 0..db.rules.len() {
            if let Some(core) = db.memos[k].as_ref() {
                assert!(core.changed_at <= db.verified[k]);
                assert!(db.verified[k] <= db.revision);
            }
        }
        if db.memos[y].is_some() {
            assert!(db.verified[y] >= last_verified_y);
            last_verified_y = db.verified[y];
        }
    });
}

#[test]
fn derived_over_derived_propagates() {
    let mut db = Database::new();
    let x = db.register_input(2, Durability::Low);
    let y = db.register_derived(vec![x, x], Op::Sum, false);
    let z = db.register_derived(vec![y, x], Op::Product, false);
    assert_eq!(db.fetch(z), Ok(8));
    db.set_input(x, 3, Durability::Low);
    assert_eq!(db.fetch(z), Ok(18));
    // Equal rewrite of the input backdates all the way up.
    let r = db.current_revision();
    db.set_input(x, 3, Durability::Low);
    assert_eq!(db.maybe_changed_after(z, r), Ok(false));
}

#[test]
fn min_rule_and_empty_dependency_list() {
    let mut db = Database::new();
    let a = db.register_input(9, Durability::Low);
    let b = db.register_input(4, Durability::Low);
    let m = db.register_derived(vec![a, b], Op::Min, false);
    assert_eq!(db.fetch(m), Ok(4));
    let none = db.register_derived(vec![], Op::Sum, false);
    assert_eq!(db.fetch(none), Ok(0));
    let one = db.register_derived(vec![], Op::Product, false);
    assert_eq!(db.fetch(one), Ok(1));
    let max = db.register_derived(vec![], Op::Min, false);
    assert_eq!(db.fetch(max), Ok(u64::MAX));
}

#[test]
fn input_changes_are_visible_directly() {
    let mut db = Database::new();
    let x = db.register_input(1, Durability::Low);
    let r0 = db.current_revision();
    assert_eq!(db.maybe_changed_after(x, r0), Ok(false));
    db.set_input(x, 2, Durability::Low);
    let r1 = db.current_revision();
    assert_eq!(db.maybe_changed_after(x, r0), Ok(true));
    assert_eq!(db.maybe_changed_after(x, r1), Ok(false));
}

#[test]
fn medium_tier_sits_between_low_and_high() {
    let mut db = Database::new();
    let low = db.register_input(1, Durability::Low);
    let medium = db.register_input(2, Durability::Medium);
    let y = db.register_derived(vec![medium], Op::Sum, false);
    assert_eq!(db.fetch(y), Ok(2));
    let r = db.current_revision();
    // A low mutation leaves the medium tier's clock alone: the memo
    // shallow-verifies.
    db.set_input(low, 9, Durability::Low);
    let probes_medium = db.probes[medium];
    assert_eq!(db.maybe_changed_after(y, r), Ok(false));
    assert_eq!(db.probes[medium], probes_medium);
    // A medium mutation moves both the medium and the low tier's clocks,
    // so the memo has to be deep-verified; its input is walked.
    let r2 = db.current_revision();
    db.set_input(medium, 2, Durability::Medium);
    assert_eq!(db.maybe_changed_after(y, r2), Ok(false));
    assert!(db.probes[medium] > probes_medium);
}

#[test]
fn repeated_checks_agree_even_without_a_value() {
    let mut db = Database::new();
    let x = db.register_input(3, Durability::Low);
    let y = db.register_derived(vec![x], Op::Sum, false);
    assert_eq!(db.fetch(y), Ok(3));
    db.evict_value(y);
    let r = db.current_revision();
    db.set_input(x, 4, Durability::Low);
    // Two consecutive checks with no mutation in between give the same
    // answer, and neither runs the executor.
    let first = db.maybe_changed_after(y, r);
    let second = db.maybe_changed_after(y, r);
    assert_eq!(first, Ok(true));
    assert_eq!(first, second);
    assert_eq!(db.execs[y], 1);
}

#[test]
fn claimed_key_still_answers_from_a_verified_memo() {
    let mut db = Database::new();
    let x = db.register_input(1, Durability::Low);
    let y = db.register_derived(vec![x], Op::Sum, false);
    assert_eq!(db.fetch(y), Ok(1));
    let r = db.current_revision();
    // Simulate a chain that currently holds y, as during its own
    // recomputation.
    db.claims.held[y] = true;
    db.active.push(y);
    // The hot path answers from the memo without consulting the claim
    // table: a durably verified memo is served, claim or no claim.
    assert_eq!(db.maybe_changed_after(y, r), Ok(false));
    assert_eq!(db.fetch(y), Ok(1));
    db.active.pop();
    db.claims.held[y] = false;
    // With the value evicted, answering the check still needs no claim --
    // the validity metadata suffices -- but fetching does, so only the
    // fetch reports the re-entrant claim as a cycle.
    db.evict_value(y);
    db.claims.held[y] = true;
    db.active.push(y);
    assert_eq!(db.maybe_changed_after(y, r), Ok(false));
    assert_eq!(db.fetch(y), Err(Signal::Cycle));
}
