//! Tests of the in-process coordination: registry, serial/parallel
//! acquisition, introspection, and guard release.

use serial_test::acquire::{local_parallel_core, local_serial_core, local_serial_core_with_return};
use serial_test::registry::{is_locked_serially, Registry};

const ME: u64 = 7;
const OTHER: u64 = 8;

const NAME1: &str = "NAME1";
const NAME2: &str = "NAME2";

#[test]
fn assert_serially_locked_without_name() {
    let mut reg = Registry::new();
    let names: Vec<&str> = vec![""];
    let mut g = reg.enter_serial(ME, &names);
    assert!(is_locked_serially(&reg, ME, None));
    assert!(!is_locked_serially(&reg, ME, Some("no_such_name")));
    g.release(&mut reg);
}

#[test]
fn assert_serially_locked_with_multiple_names() {
    let mut reg = Registry::new();
    let names: Vec<&str> = vec![NAME1, NAME2];
    let mut g = reg.enter_serial(ME, &names);
    assert!(is_locked_serially(&reg, ME, Some(NAME1)));
    assert!(is_locked_serially(&reg, ME, Some(NAME2)));
    assert!(!is_locked_serially(&reg, ME, Some("no_such_name")));
    assert!(!is_locked_serially(&reg, ME, None));
    g.release(&mut reg);
}

#[test]
fn assert_serially_locked_when_actually_locked_parallel() {
    let mut reg = Registry::new();
    let names: Vec<&str> = vec![NAME1, NAME2];
    let mut g = reg.enter_parallel(ME, &names);
    assert!(!is_locked_serially(&reg, ME, Some(NAME1)));
    assert!(!is_locked_serially(&reg, ME, Some(NAME2)));
    assert!(!is_locked_serially(&reg, ME, Some("no_such_name")));
    assert!(!is_locked_serially(&reg, ME, None));
    g.release(&mut reg);
}

#[test]
fn assert_serially_locked_outside_serial_lock() {
    let mut reg = Registry::new();
    assert!(!is_locked_serially(&reg, ME, Some(NAME1)));
    assert!(!is_locked_serially(&reg, ME, Some(NAME2)));
    assert!(!is_locked_serially(&reg, ME, None));

    local_serial_core(&mut reg, ME, vec![NAME1], None, || {
        // ...
    });

    assert!(!is_locked_serially(&reg, ME, Some(NAME1)));
    assert!(!is_locked_serially(&reg, ME, Some(NAME2)));
    assert!(!is_locked_serially(&reg, ME, None));
}

#[test]
fn assert_serially_locked_in_different_identity() {
    let mut reg = Registry::new();
    let names: Vec<&str> = vec![NAME1, NAME2];
    let mut g = reg.enter_serial(ME, &names);
    assert!(!is_locked_serially(&reg, OTHER, Some(NAME2)));
    g.release(&mut reg);
}

#[test]
fn test_empty_serial_call() {
    let mut reg = Registry::new();
    local_serial_core(&mut reg, ME, vec!["beta"], None, || {
        println!("Bar");
    });
}

#[test]
fn tests_test_serial_with_inner_timeout() {
    let mut reg = Registry::new();
    local_serial_core(&mut reg, ME, vec!["inner_attrs_test"], None, || {
        // complete instantly
    });
}

#[test]
fn tests_test_parallel_with_inner_timeout() {
    let mut reg = Registry::new();
    local_parallel_core(&mut reg, ME, vec!["inner_attrs_test"], None, || {
        // complete instantly
    });
}

#[test]
fn tests_test_serial_with_key_and_inner_timeout() {
    let mut reg = Registry::new();
    local_serial_core(&mut reg, ME, vec!["my_key"], None, || {
        // complete instantly
    });
}

#[test]
fn tests_test_serial_with_multiple_inner_attrs() {
    let mut reg = Registry::new();
    local_serial_core(&mut reg, ME, vec![""], None, || {
        // complete instantly
    });
}

#[test]
fn inner_attrs_test_serial_with_inner_timeout() {
    let mut reg = Registry::new();
    local_serial_core(&mut reg, ME, vec!["inner_attrs_test"], None, || {
        // complete instantly
    });
}

#[test]
fn inner_attrs_test_parallel_with_inner_timeout() {
    let mut reg = Registry::new();
    local_parallel_core(&mut reg, ME, vec!["inner_attrs_test"], None, || {
        // complete instantly
    });
}

#[test]
fn inner_attrs_test_serial_with_key_and_inner_timeout() {
    let mut reg = Registry::new();
    local_serial_core(&mut reg, ME, vec!["my_key"], None, || {
        // complete instantly
    });
}

#[test]
fn inner_attrs_test_serial_with_multiple_inner_attrs() {
    let mut reg = Registry::new();
    local_serial_core(&mut reg, ME, vec![""], None, || {
        // complete instantly
    });
}

#[test]
fn test_serial_with_inner_allow() {
    let mut reg = Registry::new();
    local_serial_core(&mut reg, ME, vec![""], None, || {
        let _unused = 42;
    });
}

#[test]
fn test_serial_no_arg() {
    let mut reg = Registry::new();
    local_serial_core(&mut reg, ME, vec![""], None, || {});
}

#[test]
fn test_serial_multi_arg() {
    let mut reg = Registry::new();
    local_serial_core(&mut reg, ME, vec!["one", "two"], None, || {});
}

#[test]
fn test_with_key() {
    let mut reg = Registry::new();
    local_serial_core(&mut reg, ME, vec!["test_key"], None, || {});
}

#[test]
fn test_reentrant_fun() {
    let mut reg = Registry::new();
    let names: Vec<&str> = vec![""];
    let mut outer = reg.enter_serial(ME, &names);
    // The same identity may re-enter the serial section it holds.
    let mut inner = reg.enter_serial(ME, &names);
    assert!(is_locked_serially(&reg, ME, None));
    inner.release(&mut reg);
    // Still held: the outer acquisition is not yet released.
    assert!(is_locked_serially(&reg, ME, None));
    outer.release(&mut reg);
    assert!(!is_locked_serially(&reg, ME, None));
}

#[test]
fn test_can_return() {
    let mut reg = Registry::new();
    let r = local_serial_core_with_return(&mut reg, ME, vec![""], None, || -> Result<(), ()> {
        Ok(())
    });
    assert_eq!(r, Ok(()));
}

#[test]
fn work_failure_propagates_unchanged() {
    let mut reg = Registry::new();
    let work = || -> Result<(), &'static str> { Err("boom") };
    let r = local_serial_core_with_return(&mut reg, ME, vec!["err_key"], None, work);
    assert_eq!(r, Err("boom"));
    // The failure did not turn into a lock failure: the key is free again.
    assert!(!reg.is_locked("err_key"));
}

#[test]
fn registry_single_entry_under_repeated_first_use() {
    let mut reg = Registry::new();
    reg.ensure("foo");
    let first = reg.lookup("foo").unwrap();
    let mut tokens: Vec<usize> = Vec::new();
    for _ in 0..100 {
        reg.ensure("foo");
        tokens.push(reg.lookup("foo").unwrap());
    }
    assert_eq!(tokens.len(), 100);
    assert!(tokens.iter().all(|t| *t == first));
    assert_eq!(reg.slot_count(), 1);
}

#[test]
fn serial_admission_records_one_identity() {
    let mut reg = Registry::new();
    let names: Vec<&str> = vec!["foo"];
    let mut tokens: Vec<usize> = Vec::new();
    for i in 0..100u64 {
        reg.ensure("foo");
        let mut g = reg.enter_serial(i, &names);
        tokens.push(reg.lookup("foo").unwrap());
        g.release(&mut reg);
    }
    assert_eq!(tokens.len(), 100);
    assert!(tokens.iter().all(|t| *t == tokens[0]));
}

#[test]
fn canonical_order_is_independent_of_request_order() {
    let mut reg = Registry::new();
    let ab: Vec<&str> = vec!["a", "b"];
    let ba: Vec<&str> = vec!["b", "a"];
    let first = serial_test::acquire::get_locks(&mut reg, &ab);
    let second = serial_test::acquire::get_locks(&mut reg, &ba);
    assert_eq!(first, second);
}

#[test]
fn overlapping_key_sets_complete() {
    // Requests over {a,b} and {b,a}, interleaved as two callers would
    // issue them, both complete: each acquires in the one canonical
    // order, so neither can hold one key while waiting for the other.
    let mut reg = Registry::new();
    let ab: Vec<&str> = vec!["a", "b"];
    let ba: Vec<&str> = vec!["b", "a"];
    let mut g1 = reg.enter_serial(1, &ab);
    g1.release(&mut reg);
    let mut g2 = reg.enter_serial(2, &ba);
    g2.release(&mut reg);
    assert!(!reg.is_locked("a"));
    assert!(!reg.is_locked("b"));
}

#[test]
fn parallel_count_reaches_three_and_blocks_serial() {
    let mut reg = Registry::new();
    let names: Vec<&str> = vec!["x"];
    let mut g1 = reg.enter_parallel(1, &names);
    let mut g2 = reg.enter_parallel(2, &names);
    let mut g3 = reg.enter_parallel(3, &names);
    assert_eq!(reg.parallel_count("x"), 3);
    // A serial acquisition issued in this window is not admitted.
    assert!(!reg.can_enter_serial(4, "x"));
    g1.release(&mut reg);
    assert!(!reg.can_enter_serial(4, "x"));
    g2.release(&mut reg);
    assert!(!reg.can_enter_serial(4, "x"));
    g3.release(&mut reg);
    // Only once all three released may the serial acquirer proceed.
    assert!(reg.can_enter_serial(4, "x"));
    let mut gs = reg.enter_serial(4, &names);
    assert!(is_locked_serially(&reg, 4, Some("x")));
    assert_eq!(reg.parallel_count("x"), 0);
    gs.release(&mut reg);
}

#[test]
fn guard_release_is_idempotent() {
    let mut reg = Registry::new();
    let names: Vec<&str> = vec!["idem"];
    let before = reg.parallel_count("idem");
    let mut g = reg.enter_parallel(ME, &names);
    assert_eq!(reg.parallel_count("idem"), 1);
    g.release(&mut reg);
    assert_eq!(reg.parallel_count("idem"), before);
    // Releasing again changes nothing.
    g.release(&mut reg);
    assert_eq!(reg.parallel_count("idem"), before);
}

#[test]
fn release_restores_state_when_work_is_abandoned() {
    // The protected work is never run: the guard alone restores the
    // pre-acquisition state, as it would while a failure unwinds.
    let mut reg = Registry::new();
    let names: Vec<&str> = vec!["abandon"];
    let mut g = reg.enter_parallel(ME, &names);
    g.release(&mut reg);
    assert_eq!(reg.parallel_count("abandon"), 0);
    let mut g2 = reg.enter_serial(ME, &names);
    g2.release(&mut reg);
    assert!(!reg.is_locked("abandon"));
}

#[test]
fn balanced_parallel_pairs_drain_to_zero() {
    let mut reg = Registry::new();
    let names: Vec<&str> = vec!["drain"];
    let mut guards = Vec::new();
    for i in 0..5u64 {
        guards.push(reg.enter_parallel(i, &names));
        assert_eq!(reg.parallel_count("drain"), (i + 1) as u32);
    }
    for (i, g) in guards.iter_mut().enumerate().rev() {
        g.release(&mut reg);
        assert_eq!(reg.parallel_count("drain"), i as u32);
    }
    assert_eq!(reg.parallel_count("drain"), 0);
}

#[test]
fn serial_hold_blocks_parallel_admission() {
    let mut reg = Registry::new();
    let names: Vec<&str> = vec!["s"];
    let mut g = reg.enter_serial(ME, &names);
    assert!(!reg.can_enter_parallel("s"));
    // Reentrant serial admission for the holder, none for anyone else.
    assert!(reg.can_enter_serial(ME, "s"));
    assert!(!reg.can_enter_serial(OTHER, "s"));
    g.release(&mut reg);
    assert!(reg.can_enter_parallel("s"));
    assert!(reg.can_enter_serial(OTHER, "s"));
}

#[test]
fn repeated_names_resolve_to_one_acquisition() {
    let mut reg = Registry::new();
    let names: Vec<&str> = vec!["dup", "dup", "other"];
    let slots = serial_test::acquire::get_locks(&mut reg, &names);
    assert_eq!(slots.len(), 2);
    let mut g = reg.enter_serial(ME, &names);
    assert_eq!(reg.parallel_count("dup"), 0);
    assert!(is_locked_serially(&reg, ME, Some("dup")));
    assert!(is_locked_serially(&reg, ME, Some("other")));
    g.release(&mut reg);
    assert!(!is_locked_serially(&reg, ME, Some("dup")));
    assert!(!is_locked_serially(&reg, ME, Some("other")));
}

#[test]
fn distinct_keys_are_independent() {
    let mut reg = Registry::new();
    let a: Vec<&str> = vec!["ka"];
    let b: Vec<&str> = vec!["kb"];
    let mut ga = reg.enter_serial(1, &a);
    // A serial hold on one key admits both modes on another.
    assert!(reg.can_enter_serial(2, "kb"));
    assert!(reg.can_enter_parallel("kb"));
    let mut gb = reg.enter_parallel(2, &b);
    assert!(reg.is_locked("ka"));
    assert_eq!(reg.parallel_count("kb"), 1);
    gb.release(&mut reg);
    ga.release(&mut reg);
}
