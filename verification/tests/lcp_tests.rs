use lcp_finder::compat::{check, CheckResult};
use lcp_finder::relation::Relation;
use lcp_finder::search::find_lcp;

fn rows(data: &[&[&str]]) -> Vec<Vec<String>> {
    data.iter()
        .map(|row| row.iter().map(|s| s.to_string()).collect())
        .collect()
}

fn labels(data: &[&str]) -> Vec<String> {
    data.iter().map(|s| s.to_string()).collect()
}

#[test]
fn scenario_identity_like_reduction_succeeds() {
    // A trivial identity-like reduction: the map must send [a,b] to a
    // permutation of [x,y].
    let active_source = rows(&[&["a", "b"]]);
    let passive_source = rows(&[&["a", "a"], &["a", "b"], &["b", "b"]]);
    let active_target = rows(&[&["x", "y"]]);
    let passive_target = rows(&[&["x", "x"], &["x", "y"], &["y", "y"]]);

    let result = find_lcp(&active_source, &passive_source, &active_target, &passive_target);
    let map = result.expect("an LCP-map must exist");
    assert_eq!(map.entries.len(), 1);
    let (key, image) = &map.entries[0];
    assert_eq!(key, &labels(&["a", "b"]));
    // The fixed exploration order pairs b with x first, then a with y.
    assert_eq!(image, &labels(&["y", "x"]));
    // The image is a permutation of the active target configuration.
    let mut sorted = image.clone();
    sorted.sort();
    assert_eq!(sorted, labels(&["x", "y"]));
}

#[test]
fn scenario_missing_target_pair_fails() {
    // With [y,y] missing from the passive target set, any mapping eventually
    // needs it, so no LCP-map exists.
    let active_source = rows(&[&["a", "b"]]);
    let passive_source = rows(&[&["a", "a"], &["a", "b"], &["b", "b"]]);
    let active_target = rows(&[&["x", "y"]]);
    let passive_target = rows(&[&["x", "x"], &["x", "y"]]);

    let result = find_lcp(&active_source, &passive_source, &active_target, &passive_target);
    assert!(result.is_none());
}

/// Brute-force validity of a single-configuration map [a,b] -> [p0,p1]: the
/// image must be a permutation of an active target configuration, and the
/// induced relation {a -> p0, b -> p1} must keep every passive source pair,
/// after substitution, inside the passive target set.
fn assignment_valid(
    p0: &str,
    p1: &str,
    active_target: &[(&str, &str)],
    passive_source: &[(&str, &str)],
    passive_target: &[(&str, &str)],
) -> bool {
    let mut image_sorted = [p0.to_string(), p1.to_string()];
    image_sorted.sort();
    let is_permutation = active_target.iter().any(|(s, t)| {
        let mut target = [s.to_string(), t.to_string()];
        target.sort();
        target == image_sorted
    });
    let image = |l: &str| if l == "a" { p0.to_string() } else { p1.to_string() };
    is_permutation
        && passive_source.iter().all(|(u, v)| {
            let mut pair = [image(u), image(v)];
            pair.sort();
            passive_target
                .iter()
                .any(|(s, t)| *s == pair[0] && *t == pair[1])
        })
}

#[test]
fn no_witness_matches_brute_force() {
    // On the small alphabet of the failing scenario, exhaustive enumeration of
    // all total assignments confirms that none is valid, matching the
    // "no mapping" verdict.
    let at = [("x", "y")];
    let passive_source = [("a", "a"), ("a", "b"), ("b", "b")];
    let passive_target = [("x", "x"), ("x", "y")];
    for (p0, p1) in [("x", "y"), ("y", "x"), ("x", "x"), ("y", "y")] {
        assert!(!assignment_valid(p0, p1, &at, &passive_source, &passive_target));
    }

    let active_source = rows(&[&["a", "b"]]);
    let ps = rows(&[&["a", "a"], &["a", "b"], &["b", "b"]]);
    let active_target = rows(&[&["x", "y"]]);
    let pt = rows(&[&["x", "x"], &["x", "y"]]);
    assert!(find_lcp(&active_source, &ps, &active_target, &pt).is_none());
}

#[test]
fn shared_label_reuses_one_relation() {
    // Two active source configurations share the label b.  The diagonal
    // passive sets force the relation to be functional, so the image of b
    // chosen for [b,c] must be reused when solving [a,b].
    let active_source = rows(&[&["a", "b"], &["b", "c"]]);
    let passive_source = rows(&[&["a", "a"], &["b", "b"], &["c", "c"]]);
    let active_target = rows(&[&["x", "y"]]);
    let passive_target = rows(&[&["x", "x"], &["y", "y"]]);

    let result = find_lcp(&active_source, &passive_source, &active_target, &passive_target);
    let map = result.expect("an LCP-map must exist");
    assert_eq!(map.entries.len(), 2);
    assert_eq!(map.entries[0].0, labels(&["a", "b"]));
    assert_eq!(map.entries[0].1, labels(&["x", "y"]));
    assert_eq!(map.entries[1].0, labels(&["b", "c"]));
    assert_eq!(map.entries[1].1, labels(&["y", "x"]));
    // b occupies slot 1 of [a,b] and slot 0 of [b,c]: both images agree.
    assert_eq!(map.entries[0].1[1], map.entries[1].1[0]);
}

#[test]
fn find_lcp_is_deterministic() {
    let active_source = rows(&[&["a", "b"], &["b", "c"]]);
    let passive_source = rows(&[&["a", "a"], &["b", "b"], &["c", "c"]]);
    let active_target = rows(&[&["x", "y"]]);
    let passive_target = rows(&[&["x", "x"], &["y", "y"]]);

    let first = find_lcp(&active_source, &passive_source, &active_target, &passive_target);
    let second = find_lcp(&active_source, &passive_source, &active_target, &passive_target);
    match (first, second) {
        (Some(m1), Some(m2)) => assert_eq!(m1.entries, m2.entries),
        (None, None) => {}
        _ => panic!("two runs on equal inputs disagreed"),
    }
}

#[test]
fn recheck_of_present_addition_is_noop() {
    // Re-checking an addition the relation already admits never changes the
    // relation and never rejects.
    let passive_source = rows(&[&["a", "a"], &["a", "b"], &["b", "b"]]);
    let passive_target = rows(&[&["x", "x"], &["x", "y"], &["y", "y"]]);
    let a = "a".to_string();
    let x = "x".to_string();

    let empty = Relation::empty();
    let extended = empty.insert_pair(&a, &x);
    assert!(extended.maps(&a, &x));
    let outcome = check(&extended, &a, &x, &passive_source, &passive_target, 2);
    assert!(matches!(outcome, CheckResult::NoOp));
    // The inspected relation is untouched: the pair is still its only entry.
    assert_eq!(extended.entries.len(), 1);
    assert_eq!(extended.entries[0].0, "a".to_string());
    assert_eq!(extended.entries[0].1, labels(&["x"]));
}

#[test]
fn rejected_addition_leaves_relation_usable() {
    // An addition that breaks a passive constraint is rejected, and the
    // original relation can drive further checks unchanged.
    let passive_source = rows(&[&["a", "a"], &["b", "b"]]);
    let passive_target = rows(&[&["x", "x"], &["y", "y"]]);
    let a = "a".to_string();
    let x = "x".to_string();
    let y = "y".to_string();

    let rel = Relation::empty().insert_pair(&a, &x);
    // a -> y beside a -> x would need the pair [x,y] among the targets.
    let outcome = check(&rel, &a, &y, &passive_source, &passive_target, 2);
    assert!(matches!(outcome, CheckResult::Reject));
    let again = check(&rel, &a, &x, &passive_source, &passive_target, 2);
    assert!(matches!(again, CheckResult::NoOp));
}

#[test]
fn accepted_addition_extends_relation() {
    let passive_source = rows(&[&["a", "a"], &["a", "b"], &["b", "b"]]);
    let passive_target = rows(&[&["x", "x"], &["x", "y"], &["y", "y"]]);
    let b = "b".to_string();
    let x = "x".to_string();

    let outcome = check(&Relation::empty(), &b, &x, &passive_source, &passive_target, 2);
    match outcome {
        CheckResult::Accept(extended) => {
            assert_eq!(extended.entries.len(), 1);
            assert_eq!(extended.entries[0].0, "b".to_string());
            assert_eq!(extended.entries[0].1, labels(&["x"]));
        }
        _ => panic!("a fresh compatible addition must be accepted"),
    }
}

#[test]
fn multi_character_labels_are_atomic() {
    // Labels are opaque tokens: multi-character labels work like any other.
    let active_source = rows(&[&["alpha", "beta"]]);
    let passive_source = rows(&[
        &["alpha", "alpha"],
        &["alpha", "beta"],
        &["beta", "beta"],
    ]);
    let active_target = rows(&[&["u", "v"]]);
    let passive_target = rows(&[&["u", "u"], &["u", "v"], &["v", "v"]]);

    let map = find_lcp(&active_source, &passive_source, &active_target, &passive_target)
        .expect("an LCP-map must exist");
    assert_eq!(map.entries.len(), 1);
    assert_eq!(map.entries[0].0, labels(&["alpha", "beta"]));
    let mut sorted = map.entries[0].1.clone();
    sorted.sort();
    assert_eq!(sorted, labels(&["u", "v"]));
}

#[test]
fn degree_three_passive_configurations() {
    // A passive degree of 3: reductions leave two slots to expand.
    let active_source = rows(&[&["a", "b"]]);
    let passive_source = rows(&[
        &["a", "a", "a"],
        &["a", "a", "b"],
        &["a", "b", "b"],
        &["b", "b", "b"],
    ]);
    let active_target = rows(&[&["x", "y"]]);
    let passive_target = rows(&[
        &["x", "x", "x"],
        &["x", "x", "y"],
        &["x", "y", "y"],
        &["y", "y", "y"],
    ]);

    let map = find_lcp(&active_source, &passive_source, &active_target, &passive_target)
        .expect("an LCP-map must exist");
    assert_eq!(map.entries.len(), 1);
    let mut sorted = map.entries[0].1.clone();
    sorted.sort();
    assert_eq!(sorted, labels(&["x", "y"]));
}
