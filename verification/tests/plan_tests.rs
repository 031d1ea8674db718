use tend::graph::{DepEntry, DepsMap};
use tend::plan::{compute_update_chain, PlanError};

fn map_of(entries: &[(&str, &[&str])]) -> DepsMap {
    let mut v: Vec<DepEntry> = Vec::new();
    for (repo, deps) in entries {
        v.push(DepEntry {
            repo: repo.to_string(),
            deps: deps.iter().map(|d| d.to_string()).collect(),
        });
    }
    DepsMap { entries: v }
}

fn names(steps: &[tend::UpdateStep]) -> Vec<String> {
    steps.iter().map(|s| s.repo.clone()).collect()
}

#[test]
fn diamond_map_orders_dependents_after_their_dependencies() {
    let dm = map_of(&[("A", &[]), ("B", &["A"]), ("C", &["B"]), ("D", &["A"])]);
    assert!(dm.is_well_formed());
    let chain = compute_update_chain("A", &dm).unwrap();
    let repos = names(&chain);
    assert_eq!(repos.len(), 3);
    let pos = |n: &str| repos.iter().position(|r| r == n).unwrap();
    // B and D directly follow A; C must come after B
    assert!(pos("C") > pos("B"));
    assert!(repos.contains(&"B".to_string()));
    assert!(repos.contains(&"D".to_string()));
    for step in &chain {
        match step.repo.as_str() {
            "B" | "D" => assert_eq!(step.inputs, vec!["A".to_string()]),
            "C" => assert_eq!(step.inputs, vec!["B".to_string()]),
            other => panic!("unexpected step {other}"),
        }
    }
}

#[test]
fn shared_dependency_keeps_declaration_order_of_inputs() {
    let dm = map_of(&[("A", &[]), ("B", &["A"]), ("C", &["B", "A"])]);
    let chain = compute_update_chain("A", &dm).unwrap();
    assert_eq!(names(&chain), vec!["B".to_string(), "C".to_string()]);
    assert_eq!(chain[0].inputs, vec!["A".to_string()]);
    // C lists both updated inputs, in its own declaration order
    assert_eq!(chain[1].inputs, vec!["B".to_string(), "A".to_string()]);
}

#[test]
fn cycle_reachable_from_changed_is_reported_not_partially_planned() {
    let dm = map_of(&[("A", &[]), ("B", &["A", "C"]), ("C", &["B"])]);
    match compute_update_chain("A", &dm) {
        Err(PlanError::Cycle { nodes }) => {
            assert_eq!(nodes, vec!["B".to_string(), "C".to_string()]);
        }
        Ok(_) => panic!("a cycle must not produce a chain"),
    }
}

#[test]
fn planning_twice_gives_identical_chains() {
    let dm = map_of(&[
        ("lib", &[]),
        ("mid", &["lib"]),
        ("app", &["mid", "lib"]),
        ("tool", &["lib"]),
    ]);
    let a = compute_update_chain("lib", &dm).unwrap();
    let b = compute_update_chain("lib", &dm).unwrap();
    assert_eq!(names(&a), names(&b));
    for (x, y) in a.iter().zip(b.iter()) {
        assert_eq!(x.inputs, y.inputs);
    }
}

#[test]
fn no_dependents_gives_an_empty_chain() {
    let dm = map_of(&[("A", &[]), ("B", &["X"])]);
    let chain = compute_update_chain("A", &dm).unwrap();
    assert!(chain.is_empty());
}

#[test]
fn unrelated_cycle_does_not_block_planning() {
    // the cycle between X and Y is not reachable from A
    let dm = map_of(&[("A", &[]), ("B", &["A"]), ("X", &["Y"]), ("Y", &["X"])]);
    let chain = compute_update_chain("A", &dm).unwrap();
    assert_eq!(names(&chain), vec!["B".to_string()]);
}

#[test]
fn chain_repos_are_unique_and_inputs_point_backwards() {
    let dm = map_of(&[
        ("a", &[]),
        ("b", &["a"]),
        ("c", &["a", "b"]),
        ("d", &["c", "b"]),
    ]);
    let chain = compute_update_chain("a", &dm).unwrap();
    let repos = names(&chain);
    for (i, step) in chain.iter().enumerate() {
        for input in &step.inputs {
            let earlier = input == "a"
                || repos[..i].contains(input);
            assert!(earlier, "input {input} of {} is not earlier", step.repo);
        }
    }
    let mut sorted = repos.clone();
    sorted.sort();
    sorted.dedup();
    assert_eq!(sorted.len(), repos.len());
}

#[test]
fn duplicate_repository_names_are_detected() {
    let dm = map_of(&[("A", &[]), ("A", &["B"])]);
    assert!(!dm.is_well_formed());
    let ok = map_of(&[("A", &[]), ("B", &["A"])]);
    assert!(ok.is_well_formed());
}
