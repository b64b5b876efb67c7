use conformator::packages::{construct_package_tree, construct_staged_list, graph_validation, visitor, PackageError};
use conformator::types::Package;

fn package<'a>(name: &'a str, deps: &[&'a str]) -> Package<'a> {
    Package { name, dependency: deps.to_vec(), optional: vec![], processor: None }
}

fn stage_names(stage: &[Package]) -> Vec<String> {
    let mut names: Vec<String> = stage.iter().map(|p| p.name.to_string()).collect();
    names.sort();
    names
}

#[test]
fn stages_follow_dependencies() {
    let packages = vec![package("zoxide", &["cargo", "fzf"]), package("cargo", &["curl"])];
    let stages = construct_staged_list(packages).unwrap();
    let names: Vec<Vec<String>> = stages.iter().map(|s| stage_names(s)).collect();
    assert_eq!(names, vec![vec!["curl", "fzf"], vec!["cargo"], vec!["zoxide"]]);
    // Names that only occur as dependencies get a package of their own.
    let curl = stages[0].iter().find(|p| p.name == "curl").unwrap();
    assert!(curl.dependency.is_empty());
    assert_eq!(curl.processor, None);
    let zoxide = &stages[2][0];
    assert_eq!(zoxide.dependency, vec!["cargo", "fzf"]);
}

#[test]
fn cycles_are_refused() {
    let packages = vec![package("a", &["b"]), package("b", &["a"])];
    assert!(matches!(construct_staged_list(packages), Err(PackageError::CyclesPresent)));
    let packages = vec![package("a", &["a"])];
    assert!(matches!(construct_staged_list(packages), Err(PackageError::CyclesPresent)));
}

#[test]
fn shared_dependency_below_one_name_is_refused() {
    // The walk from `a` meets `d` twice, through `b` and through `c`.
    let packages = vec![package("a", &["b", "c"]), package("b", &["d"]), package("c", &["d"])];
    assert!(matches!(construct_staged_list(packages), Err(PackageError::CyclesPresent)));
}

#[test]
fn shared_dependency_of_separate_names_is_staged() {
    let packages = vec![package("x", &["v"]), package("y", &["v"])];
    let stages = construct_staged_list(packages).unwrap();
    let names: Vec<Vec<String>> = stages.iter().map(|s| stage_names(s)).collect();
    assert_eq!(names, vec![vec!["v"], vec!["x", "y"]]);
}

#[test]
fn later_package_of_a_name_decides() {
    let packages = vec![package("a", &["b"]), Package { name: "a", dependency: vec![], optional: vec![], processor: Some("p") }];
    let stages = construct_staged_list(packages).unwrap();
    let names: Vec<Vec<String>> = stages.iter().map(|s| stage_names(s)).collect();
    assert_eq!(names, vec![vec!["a", "b"]]);
    let a = stages[0].iter().find(|p| p.name == "a").unwrap();
    assert_eq!(a.processor, Some("p"));
}

#[test]
fn empty_packages_give_no_stages() {
    let stages = construct_staged_list(Vec::new()).unwrap();
    assert!(stages.is_empty());
}

#[test]
fn package_tree_names_every_name_once() {
    let packages = vec![package("zoxide", &["cargo", "fzf", "cargo"]), package("cargo", &["curl"])];
    let tree = construct_package_tree(&packages);
    let mut names: Vec<&str> = tree.nodes.iter().map(|n| n.name).collect();
    names.sort();
    assert_eq!(names, vec!["cargo", "curl", "fzf", "zoxide"]);
    let zoxide = tree.nodes.iter().find(|n| n.name == "zoxide").unwrap();
    assert_eq!(zoxide.dependencies, vec!["cargo", "fzf"]);
    assert!(!graph_validation(&tree));
}

#[test]
fn visitor_marks_what_it_reaches() {
    let packages = vec![package("a", &["b"]), package("b", &["c"]), package("d", &["a"])];
    let tree = construct_package_tree(&packages);
    let mut stack = Vec::new();
    assert!(!visitor("a", &tree, &mut stack));
    let mut seen = stack.clone();
    seen.sort();
    assert_eq!(seen, vec!["a", "b", "c"]);
    // A walk from `d` now meets `a`, already marked.
    assert!(visitor("d", &tree, &mut stack));
    // A name already on the stack is met at once.
    let mut stack = vec!["x"];
    assert!(visitor("x", &tree, &mut stack));
    assert_eq!(stack, vec!["x"]);
    // A name outside the graph is marked and met once.
    let mut stack = Vec::new();
    assert!(!visitor("zzz", &tree, &mut stack));
    assert_eq!(stack, vec!["zzz"]);
}

#[test]
fn optional_dependencies_are_staged_too() {
    let packages = vec![Package { name: "zoxide", dependency: vec!["cargo", "fzf"], optional: vec!["fzf"], processor: None }];
    let stages = construct_staged_list(packages).unwrap();
    let names: Vec<Vec<String>> = stages.iter().map(|s| stage_names(s)).collect();
    assert_eq!(names, vec![vec!["cargo", "fzf"], vec!["zoxide"]]);
    assert_eq!(stages[1][0].optional, vec!["fzf"]);
}
