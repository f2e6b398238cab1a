//! The publish-order solver, the dependency closures, the selection and
//! the validation.

use subpub::crate_details::{CrateDetails, DependencyKind, DependencyMeta, PackageMeta};
use subpub::crates::{Crates, WorkspaceError};
use subpub::order::get_publish_order;
use subpub::publish::{
    choose_bump_heuristic, default_candidates, expand_exclusions, select_from_start,
    validate_crate, BumpRecord, ValidationError,
};
use subpub::version::{Version, VersionBumpHeuristic};

fn testing_crate(name: &str, deps: &[&str]) -> CrateDetails {
    let mut c = CrateDetails::new_for_testing(name.to_owned());
    for d in deps {
        c.deps.push((*d).to_owned());
    }
    c
}

#[test]
fn test_get_publish_order() {
    /*
       Case: BA depends on A, thus the order becomes A -> BA
    */
    let crate_a = testing_crate("A", &[]);
    let crate_ba = testing_crate("BA", &["A"]);

    assert_eq!(
        get_publish_order(&vec![crate_a, crate_ba]),
        vec!["A".to_owned(), "BA".to_owned()]
    );

    /*
       Case: BB and BA both depend on A; tiebreak between BB and BA by name,
       thus the order becomes A -> BA -> BB
    */
    let crate_a = testing_crate("A", &[]);
    let crate_ba = testing_crate("BA", &["A"]);
    let crate_bb = testing_crate("BB", &["A"]);

    assert_eq!(
        get_publish_order(&vec![crate_a, crate_ba, crate_bb]),
        vec!["A".to_owned(), "BA".to_owned(), "BB".to_owned()]
    );

    /*
       Case: C depends on BA, thus the order becomes A -> BA -> BB -> C
    */
    let crate_a = testing_crate("A", &[]);
    let crate_ba = testing_crate("BA", &["A"]);
    let crate_bb = testing_crate("BB", &["A"]);
    let crate_c = testing_crate("C", &["BA"]);

    assert_eq!(
        get_publish_order(&vec![crate_a, crate_ba, crate_bb, crate_c]),
        vec![
            "A".to_owned(),
            "BA".to_owned(),
            "BB".to_owned(),
            "C".to_owned()
        ]
    );
}

#[test]
fn tiebreak_is_alphabetical_at_equal_rank() {
    // Two dependents of one root rank equally and fall back to name order.
    let root = testing_crate("Root", &[]);
    let ba = testing_crate("BA", &["Root"]);
    let bb = testing_crate("BB", &["Root"]);
    assert_eq!(
        get_publish_order(&vec![bb, ba, root]),
        vec!["Root".to_owned(), "BA".to_owned(), "BB".to_owned()]
    );
}

#[test]
fn publish_order_is_identical_across_runs() {
    let build = || {
        vec![
            testing_crate("zeta", &[]),
            testing_crate("alpha", &["zeta"]),
            testing_crate("beta", &["zeta", "alpha"]),
        ]
    };
    assert_eq!(get_publish_order(&build()), get_publish_order(&build()));
}

#[test]
fn cycle_members_are_left_unordered() {
    let a = testing_crate("A", &["B"]);
    let b = testing_crate("B", &["A"]);
    let c = testing_crate("C", &[]);
    assert_eq!(get_publish_order(&vec![a, b, c]), vec!["C".to_owned()]);
}

#[test]
fn exclusions_close_over_dependents() {
    // Excluding A also excludes B, which depends on it, and C above B.
    let a = testing_crate("A", &[]);
    let b = testing_crate("B", &["A"]);
    let c = testing_crate("C", &["B"]);
    let d = testing_crate("D", &[]);
    let excluded = expand_exclusions(&vec![a, b, c, d], &vec!["A".to_owned()]);
    assert!(excluded.contains(&"A".to_owned()));
    assert!(excluded.contains(&"B".to_owned()));
    assert!(excluded.contains(&"C".to_owned()));
    assert!(!excluded.contains(&"D".to_owned()));
}

#[test]
fn excluded_dependency_rejects_the_candidate() {
    // The user excludes A and selects B, which depends on A: validation
    // names the excluded dependency.
    let details = vec![testing_crate("A", &[]), testing_crate("B", &["A"])];
    let crates = Crates {
        root: String::new(),
        crates_map: details,
    };
    let result = validate_crate(&crates, &"B".to_owned(), &vec!["A".to_owned()]);
    assert!(matches!(result, Err(ValidationError::Excluded(d)) if d == "A"));
}

#[test]
fn unpublishable_dependency_rejects_the_candidate() {
    let a = {
        let mut c = testing_crate("A", &[]);
        c.should_be_published = false;
        c
    };
    let b = testing_crate("B", &["A"]);
    let crates = Crates {
        root: String::new(),
        crates_map: vec![a, b],
    };
    let result = validate_crate(&crates, &"B".to_owned(), &vec![]);
    assert!(matches!(result, Err(ValidationError::ShouldNotBePublished(d)) if d == "A"));
    let ok = validate_crate(&crates, &"A".to_owned(), &vec![]);
    assert!(matches!(ok, Err(ValidationError::ShouldNotBePublished(d)) if d == "A"));
}

#[test]
fn validation_accepts_a_clean_candidate() {
    let details = vec![testing_crate("A", &[]), testing_crate("B", &["A"])];
    let crates = Crates {
        root: String::new(),
        crates_map: details,
    };
    assert!(validate_crate(&crates, &"B".to_owned(), &vec![]).is_ok());
}

#[test]
fn default_candidates_skip_excluded_and_unpublishable() {
    let a = testing_crate("A", &[]);
    let b = {
        let mut c = testing_crate("B", &[]);
        c.should_be_published = false;
        c
    };
    let c = testing_crate("C", &[]);
    let details = vec![a, b, c];
    let order = get_publish_order(&details);
    let candidates = default_candidates(
        &details,
        &order,
        &None,
        &vec!["C".to_owned()],
    );
    assert_eq!(candidates, vec!["A".to_owned()]);
}

#[test]
fn resume_drops_everything_before_the_anchor() {
    let candidates = vec!["A".to_owned(), "B".to_owned(), "C".to_owned()];
    assert_eq!(
        select_from_start(&candidates, &"B".to_owned(), &vec![]),
        vec!["B".to_owned(), "C".to_owned()]
    );
    // An excluded anchor is itself dropped, but publishing still resumes
    // after it.
    assert_eq!(
        select_from_start(&candidates, &"B".to_owned(), &vec!["B".to_owned()]),
        vec!["C".to_owned()]
    );
    // An absent anchor selects nothing.
    assert_eq!(
        select_from_start(&candidates, &"Z".to_owned(), &vec![]),
        Vec::<String>::new()
    );
}

#[test]
fn what_needs_publishing_returns_the_dependency_cone_in_order() {
    let details = vec![
        testing_crate("A", &[]),
        testing_crate("B", &["A"]),
        testing_crate("C", &["B"]),
        testing_crate("D", &[]),
    ];
    let order = get_publish_order(&details);
    let crates = Crates {
        root: String::new(),
        crates_map: details,
    };
    let list = crates.what_needs_publishing(&"C".to_owned(), &order).unwrap();
    assert_eq!(list, vec!["A".to_owned(), "B".to_owned(), "C".to_owned()]);
}

#[test]
fn workspace_load_rejects_duplicates_and_missing_members() {
    let pkg = |name: &str, deps: Vec<DependencyMeta>| PackageMeta {
        name: name.to_owned(),
        version: Version::new(0, 1, 0),
        manifest_path: String::new(),
        dependencies: deps,
        publish: None,
        readme: None,
        description: None,
    };
    let duplicate = Crates::load_workspace_crates(
        String::new(),
        &vec![pkg("A", vec![]), pkg("A", vec![])],
    );
    assert!(matches!(duplicate, Err(WorkspaceError::DuplicatePackage(n)) if n == "A"));

    let missing = Crates::load_workspace_crates(
        String::new(),
        &vec![pkg(
            "A",
            vec![DependencyMeta {
                name: "ghost".to_owned(),
                kind: DependencyKind::Normal,
                has_path: true,
            }],
        )],
    );
    assert!(
        matches!(missing, Err(WorkspaceError::MissingWorkspaceMember(c, d)) if c == "A" && d == "ghost")
    );

    let ok = Crates::load_workspace_crates(
        String::new(),
        &vec![pkg(
            "A",
            vec![
                DependencyMeta {
                    name: "external".to_owned(),
                    kind: DependencyKind::Normal,
                    has_path: false,
                },
                DependencyMeta {
                    name: "B".to_owned(),
                    kind: DependencyKind::Development,
                    has_path: true,
                },
            ],
        ), pkg("B", vec![])],
    )
    .unwrap();
    // Only path-based dependencies of the plain kind are publish-relevant.
    assert!(ok.crates_map[0].deps.is_empty());
    assert_eq!(ok.crates_map[0].dev_deps, vec!["B".to_owned()]);
}

#[test]
fn bump_heuristic_propagates_breaking_changes() {
    let b = testing_crate("B", &["A", "X"]);
    let records = vec![
        BumpRecord {
            name: "A".to_owned(),
            heuristic: VersionBumpHeuristic::Compatible,
        },
        BumpRecord {
            name: "X".to_owned(),
            heuristic: VersionBumpHeuristic::Breaking,
        },
    ];
    // A compatible dependency alone would default to compatible, but a
    // breaking dependency forces a breaking bump.
    assert_eq!(
        choose_bump_heuristic(&b, &vec![], &vec![], &records),
        VersionBumpHeuristic::Breaking
    );
    let only_compatible = vec![BumpRecord {
        name: "A".to_owned(),
        heuristic: VersionBumpHeuristic::Compatible,
    }];
    assert_eq!(
        choose_bump_heuristic(&b, &vec![], &vec![], &only_compatible),
        VersionBumpHeuristic::Compatible
    );
    // No recorded dependency bumps default to breaking.
    assert_eq!(
        choose_bump_heuristic(&b, &vec![], &vec![], &vec![]),
        VersionBumpHeuristic::Breaking
    );
    // Explicit listings win.
    assert_eq!(
        choose_bump_heuristic(&b, &vec!["B".to_owned()], &vec![], &only_compatible),
        VersionBumpHeuristic::Breaking
    );
    assert_eq!(
        choose_bump_heuristic(&b, &vec![], &vec!["B".to_owned()], &vec![]),
        VersionBumpHeuristic::Compatible
    );
}
