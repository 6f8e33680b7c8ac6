//! The generator, and the faults it decides.
use credsync::fault::{decide_response, decide_storage, Fault, FaultRates};
use credsync::rng::Rng;

/// The same seed produces the same sequence.
#[test]
fn a_seed_reproduces_its_sequence() {
    let mut a = Rng::new(0x4f21_a9c3);
    let mut b = Rng::new(0x4f21_a9c3);
    for _ in 0..1000 {
        assert_eq!(a.next_u64(), b.next_u64());
    }
}

#[test]
fn different_seeds_diverge() {
    let mut a = Rng::new(1);
    let mut b = Rng::new(2);
    let differs = (0..64).any(|_| a.next_u64() != b.next_u64());
    assert!(differs, "two seeds produced identical output");
}

#[test]
fn below_stays_in_range_and_covers_it() {
    let mut rng = Rng::new(7);
    let mut seen = [false; 5];
    for _ in 0..500 {
        let v = rng.below(5);
        assert!(v < 5);
        seen[v as usize] = true;
    }
    assert!(seen.iter().all(|s| *s), "some values were never produced");
}

#[test]
fn signed_spans_both_directions() {
    let mut rng = Rng::new(99);
    let mut negative = false;
    let mut positive = false;
    for _ in 0..500 {
        let v = rng.signed(3 * 24 * 60 * 60 * 1000);
        assert!(v.abs() <= 3 * 24 * 60 * 60 * 1000);
        if v < 0 {
            negative = true;
        }
        if v > 0 {
            positive = true;
        }
    }
    assert!(negative && positive, "skew must go both ways");
}

#[test]
fn chance_respects_its_bounds() {
    let mut rng = Rng::new(5);
    for _ in 0..100 {
        assert!(!rng.chance(0), "0% must never fire");
        assert!(rng.chance(100), "100% must always fire");
    }
}

/// The words are those of the 32-bit output permutation over a 64-bit congruential step.
#[test]
fn the_words_are_those_of_the_permutation() {
    const MULTIPLIER: u64 = 6_364_136_223_846_793_005;
    const INCREMENT: u64 = 1_442_695_040_888_963_407;
    let mut state = 42u64
        .wrapping_add(INCREMENT)
        .wrapping_mul(MULTIPLIER)
        .wrapping_add(INCREMENT);
    let mut rng = Rng::new(42);
    assert_eq!(rng.seed(), 42);
    for _ in 0..100 {
        let shifted = (((state >> 18) ^ state) >> 27) as u32;
        let word = shifted.rotate_right((state >> 59) as u32);
        state = state.wrapping_mul(MULTIPLIER).wrapping_add(INCREMENT);
        assert_eq!(rng.next_u32(), word);
    }
}

#[test]
fn an_empty_range_gives_its_low_end() {
    let mut rng = Rng::new(3);
    assert_eq!(rng.range(9, 9), 9);
    assert_eq!(rng.range(9, 2), 9);
    assert_eq!(rng.below(0), 0);
    assert_eq!(rng.signed(0), 0);
    assert_eq!(rng.index(0), None);
    // None of those drew anything.
    assert_eq!(rng.next_u64(), Rng::new(3).next_u64());
    assert!(rng.index(3).is_some_and(|i| i < 3));
}

/// The whole range is a range: a word of it each time.
#[test]
fn the_full_range_is_a_word() {
    let mut rng = Rng::new(3);
    let mut words = Rng::new(3);
    for _ in 0..100 {
        assert_eq!(rng.range(0, u32::MAX), words.next_u32());
    }
    assert!(rng.range(1, u32::MAX) >= 1);
}

#[test]
fn a_quiet_world_produces_no_faults() {
    let rates = FaultRates::none();
    let mut rng = Rng::new(1);
    for i in 1..500 {
        assert_eq!(decide_response(&mut rng, &rates, i), None);
        assert_eq!(decide_storage(&mut rng, &rates), None);
    }
}

/// Every fault in the menu is reachable. A fault that cannot fire is a fault you do not have.
#[test]
fn every_network_and_storage_fault_can_fire() {
    let mut seen = std::collections::BTreeSet::new();
    let rates = FaultRates::default();
    let mut rng = Rng::new(0xdead_beef);
    for i in 1..20_000 {
        if let Some(f) = decide_response(&mut rng, &rates, i) {
            seen.insert(f.name());
        }
        if let Some(f) = decide_storage(&mut rng, &rates) {
            seen.insert(f.name());
        }
    }
    for expected in [
        "dropped",
        "duplicated",
        "reordered",
        "severed",
        "malformed",
        "storage-failed",
        "storage-committed-then-killed",
    ] {
        assert!(seen.contains(expected), "{expected} never fired");
    }
}

/// A storage transaction costs two draws, whatever becomes of it, and failing comes first.
#[test]
fn a_storage_decision_is_two_draws() {
    let rates = FaultRates {
        storage_fail_before_commit: 3,
        storage_commit_then_kill: 2,
        ..FaultRates::none()
    };
    let mut decided = Rng::new(5);
    let mut drawn = Rng::new(5);
    for _ in 0..500 {
        let fault = decide_storage(&mut decided, &rates);
        let fail = drawn.chance(3);
        let kill = drawn.chance(2);
        let expected = if fail {
            Some(Fault::StorageFailed)
        } else if kill {
            Some(Fault::StorageCommittedThenKilled)
        } else {
            None
        };
        assert_eq!(fault, expected);
    }
    assert_eq!(decided.next_u64(), drawn.next_u64());
}

/// The number of draws must not depend on the outcome.
#[test]
fn a_decision_costs_the_same_number_of_draws_either_way() {
    let rates = FaultRates::default();

    let mut a = Rng::new(42);
    for i in 1..200 {
        let _ = decide_response(&mut a, &rates, i);
    }

    let mut b = Rng::new(42);
    for _ in 1..200 {
        // Same call count, different request indices: only the periodic drop differs, and it
        // consumes no draws.
        let _ = decide_response(&mut b, &rates, 3);
    }

    assert_eq!(
        a.next_u64(),
        b.next_u64(),
        "the generator advanced by different amounts down different paths"
    );
}

/// Every seventh request is dropped under the default rates, whatever else was drawn for it.
#[test]
fn the_period_drops_every_seventh_request() {
    let rates = FaultRates::default();
    let mut rng = Rng::new(11);
    for index in 1..=70u64 {
        let fault = decide_response(&mut rng, &rates, index);
        assert_eq!(fault == Some(Fault::Dropped), index % 7 == 0);
    }
}

#[test]
fn the_menu_has_no_name_twice() {
    let all = Fault::all();
    let names: std::collections::BTreeSet<&str> = all.iter().map(|f| f.name()).collect();
    assert_eq!(names.len(), all.len());
    for (i, f) in all.iter().enumerate() {
        assert_eq!(f.place(), i);
    }
}
