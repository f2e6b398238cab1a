//! End-to-end decision flows: change detection, the bump-and-propagate
//! chain, manifest synchronization and the pull-request re-application.

use subpub::crate_details::{write_dependency_version, CrateDetails};
use subpub::crates_io::CratesIoCrateVersion;
use subpub::dependencies::{
    filter_workspace_dependencies, strip_dev_dependency_versions, write_dependency_field_value,
    CrateDependencyKey, DepEntry, DepEntryValue, DepField, DepSection, FieldValue, Manifest,
    ManifestError,
};
use subpub::order::get_publish_order;
use subpub::publish::{parse_name_value_arg, parse_name_version_arg, OptsError, StepToStopAt};
use subpub::version::{maybe_bump_for_breaking_change, parse_version, Version};

fn manifest_with(entries: Vec<DepEntry>, kind: CrateDependencyKey) -> Manifest {
    Manifest {
        package_name: "pkg".to_owned(),
        version: "0.1.0".to_owned(),
        description: None,
        readme: None,
        sections: vec![DepSection {
            kind,
            target: None,
            entries,
        }],
    }
}

fn shorthand(key: &str, version: &str) -> DepEntry {
    DepEntry {
        key: key.to_owned(),
        value: DepEntryValue::Shorthand(version.to_owned()),
    }
}

fn table(key: &str, fields: Vec<(&str, FieldValue)>) -> DepEntry {
    DepEntry {
        key: key.to_owned(),
        value: DepEntryValue::Table(
            fields
                .into_iter()
                .map(|(k, v)| DepField {
                    key: k.to_owned(),
                    value: v,
                })
                .collect(),
        ),
    }
}

fn s(v: &str) -> FieldValue {
    FieldValue::Str(v.to_owned())
}

fn fields_of(m: &Manifest, section: usize, entry: usize) -> Vec<(String, String)> {
    match &m.sections[section].entries[entry].value {
        DepEntryValue::Table(fs) => fs
            .iter()
            .map(|f| {
                let v = match &f.value {
                    FieldValue::Str(x) => x.clone(),
                    FieldValue::Opaque(x) => x.clone(),
                };
                (f.key.clone(), v)
            })
            .collect(),
        DepEntryValue::Shorthand(_) => panic!("expected a table entry"),
    }
}

#[test]
fn setting_a_version_overwrites_a_shorthand_whole() {
    let mut m = manifest_with(vec![shorthand("a", "0.1.0")], CrateDependencyKey::Dependencies);
    let modified = write_dependency_version(
        &mut m,
        &"a".to_owned(),
        &Version::new(0, 2, 0),
        &vec![],
    )
    .unwrap();
    assert!(modified);
    assert!(matches!(
        &m.sections[0].entries[0].value,
        DepEntryValue::Shorthand(v) if v == "0.2.0"
    ));
}

#[test]
fn setting_another_field_promotes_a_shorthand_and_keeps_its_version() {
    let mut m = manifest_with(vec![shorthand("a", "0.1.0")], CrateDependencyKey::Dependencies);
    let modified = write_dependency_field_value(
        &mut m,
        &vec!["a".to_owned()],
        &vec![],
        &"registry".to_owned(),
        &"local".to_owned(),
        false,
    )
    .unwrap();
    assert!(modified);
    assert_eq!(
        fields_of(&m, 0, 0),
        vec![
            ("version".to_owned(), "0.1.0".to_owned()),
            ("registry".to_owned(), "local".to_owned())
        ]
    );
}

#[test]
fn edits_preserve_untargeted_fields_and_drop_the_named_ones() {
    let mut m = manifest_with(
        vec![table(
            "a",
            vec![
                ("path", s("../a")),
                ("version", s("0.1.0")),
                ("features", FieldValue::Opaque("[\"x\"]".to_owned())),
            ],
        )],
        CrateDependencyKey::Dependencies,
    );
    let modified = write_dependency_version(
        &mut m,
        &"a".to_owned(),
        &Version::new(0, 2, 0),
        &vec!["path".to_owned()],
    )
    .unwrap();
    assert!(modified);
    // The path is dropped, the version is rewritten in place, and the
    // opaque features field is untouched.
    assert_eq!(
        fields_of(&m, 0, 0),
        vec![
            ("version".to_owned(), "0.2.0".to_owned()),
            ("features".to_owned(), "[\"x\"]".to_owned())
        ]
    );
}

#[test]
fn edits_match_renamed_dependencies_by_package() {
    let mut m = manifest_with(
        vec![table("alias", vec![("package", s("a")), ("version", s("0.1.0"))])],
        CrateDependencyKey::Dependencies,
    );
    let modified =
        write_dependency_version(&mut m, &"a".to_owned(), &Version::new(9, 0, 0), &vec![])
            .unwrap();
    assert!(modified);
    assert_eq!(
        fields_of(&m, 0, 0),
        vec![
            ("package".to_owned(), "a".to_owned()),
            ("version".to_owned(), "9.0.0".to_owned())
        ]
    );
}

#[test]
fn edits_refuse_workspace_inherited_entries() {
    let mut m = manifest_with(
        vec![table("a", vec![("workspace", FieldValue::Opaque("true".to_owned()))])],
        CrateDependencyKey::Dependencies,
    );
    let r = write_dependency_version(&mut m, &"a".to_owned(), &Version::new(0, 2, 0), &vec![]);
    assert!(matches!(r, Err(ManifestError::WorkspaceNotSupported(k)) if k == "a"));
    // The manifest is left untouched.
    assert_eq!(
        fields_of(&m, 0, 0),
        vec![("workspace".to_owned(), "true".to_owned())]
    );
}

#[test]
fn edits_refuse_a_non_string_package_field() {
    let mut m = manifest_with(
        vec![table("a", vec![("package", FieldValue::Opaque("3".to_owned()))])],
        CrateDependencyKey::Dependencies,
    );
    let r = write_dependency_version(&mut m, &"a".to_owned(), &Version::new(0, 2, 0), &vec![]);
    assert!(matches!(r, Err(ManifestError::PackageNotString(k)) if k == "a"));
}

#[test]
fn dev_dependency_stripping_removes_only_path_based_versions() {
    let mut m = Manifest {
        package_name: "pkg".to_owned(),
        version: "0.1.0".to_owned(),
        description: None,
        readme: None,
        sections: vec![
            DepSection {
                kind: CrateDependencyKey::DevDependencies,
                target: None,
                entries: vec![
                    table("a", vec![("path", s("../a")), ("version", s("0.1.0"))]),
                    table("b", vec![("version", s("0.1.0"))]),
                    shorthand("c", "0.1.0"),
                ],
            },
            DepSection {
                kind: CrateDependencyKey::Dependencies,
                target: None,
                entries: vec![table("a", vec![("path", s("../a")), ("version", s("0.1.0"))])],
            },
        ],
    };
    let strip = vec!["a".to_owned(), "b".to_owned(), "c".to_owned()];
    let modified = strip_dev_dependency_versions(&mut m, &strip).unwrap();
    assert!(modified);
    // Stripping again finds nothing left to strip.
    assert!(!strip_dev_dependency_versions(&mut m, &strip).unwrap());
    // The path-based dev entry loses its version…
    assert_eq!(fields_of(&m, 0, 0), vec![("path".to_owned(), "../a".to_owned())]);
    // …a registry dev entry and a shorthand are untouched…
    assert_eq!(fields_of(&m, 0, 1), vec![("version".to_owned(), "0.1.0".to_owned())]);
    assert!(matches!(
        &m.sections[0].entries[2].value,
        DepEntryValue::Shorthand(v) if v == "0.1.0"
    ));
    // …and plain dependencies tables are not dev tables.
    assert_eq!(
        fields_of(&m, 1, 0),
        vec![
            ("path".to_owned(), "../a".to_owned()),
            ("version".to_owned(), "0.1.0".to_owned())
        ]
    );
}

#[test]
fn filter_workspace_dependencies_keeps_path_entries_under_their_package_names() {
    let entries = vec![
        table("x", vec![("path", s("../x"))]),
        table("renamed", vec![("package", s("y")), ("path", s("../y"))]),
        table("registry-only", vec![("version", s("1.0.0"))]),
        shorthand("plain", "1.0.0"),
    ];
    let names = filter_workspace_dependencies(&entries).unwrap();
    assert_eq!(names, vec!["x".to_owned(), "y".to_owned()]);

    let broken = vec![table("x", vec![("path", FieldValue::Opaque("3".to_owned()))])];
    assert!(matches!(
        filter_workspace_dependencies(&broken),
        Err(ManifestError::PathNotString(k)) if k == "x"
    ));
}

#[test]
fn test_crate_not_published_if_unchanged() {
    let details = CrateDetails::new_for_testing("lib".to_owned());
    let local = vec![1u8, 2, 3];
    let registry = vec![1u8, 2, 3];
    assert!(!details.needs_publishing(None, &local, Some(&registry)));
    // Detecting again on the unchanged source gives the same verdict.
    assert_eq!(
        details.needs_publishing(None, &local, Some(&registry)),
        details.needs_publishing(None, &local, Some(&registry))
    );
}

#[test]
fn test_crate_published_if_changed() {
    let details = CrateDetails::new_for_testing("lib".to_owned());
    let local = vec![1u8, 2, 3];
    let registry = vec![1u8, 2, 4];
    assert!(details.needs_publishing(None, &local, Some(&registry)));
}

#[test]
fn test_crate_published_if_not_published() {
    let details = CrateDetails::new_for_testing("lib".to_owned());
    let local = vec![1u8, 2, 3];
    assert!(details.needs_publishing(None, &local, None));
}

#[test]
fn unchanged_published_crate_is_skipped() {
    // Workspace {A@1.0.0}; the registry has A@1.0.0 with identical bytes:
    // nothing needs publishing.
    let mut a = CrateDetails::new_for_testing("A".to_owned());
    a.version = Version::new(1, 0, 0);
    let order = get_publish_order(&vec![a]);
    assert_eq!(order, vec!["A".to_owned()]);
    let a = {
        let mut c = CrateDetails::new_for_testing("A".to_owned());
        c.version = Version::new(1, 0, 0);
        c
    };
    let known = vec![CratesIoCrateVersion {
        version: Version::new(1, 0, 0),
        yanked: false,
    }];
    let artifact = vec![7u8, 7, 7];
    let registry_copy = vec![7u8, 7, 7];
    assert!(!a.needs_publishing(Some(&known), &artifact, Some(&registry_copy)));
}

#[test]
fn fresh_crate_is_published_at_its_own_version() {
    // Workspace {A@0.1.0}; the registry has no A: publish A@0.1.0.
    let a = CrateDetails::new_for_testing("A".to_owned());
    let known: Vec<CratesIoCrateVersion> = vec![];
    let artifact = vec![7u8];
    assert!(a.needs_publishing(Some(&known), &artifact, None));
    // With no previous versions and no pre-release tag, the bump step
    // leaves the version alone.
    assert_eq!(maybe_bump_for_breaking_change(vec![], a.version), None);
}

#[test]
fn linear_chain_bumps_and_rewrites_the_dependency() {
    // Workspace {A@0.1.0, B@0.1.0} with B depending on A; the registry has
    // both at 0.1.0 with stale bytes.
    let a = CrateDetails::new_for_testing("A".to_owned());
    let mut b = CrateDetails::new_for_testing("B".to_owned());
    b.deps.push("A".to_owned());
    let order = get_publish_order(&vec![a, b]);
    assert_eq!(order, vec!["A".to_owned(), "B".to_owned()]);

    // A needs publishing (stale bytes) and bumps 0.1.0 -> 0.2.0.
    let a = CrateDetails::new_for_testing("A".to_owned());
    let local = vec![1u8];
    let stale = vec![2u8];
    let known = vec![CratesIoCrateVersion {
        version: Version::new(0, 1, 0),
        yanked: false,
    }];
    assert!(a.needs_publishing(Some(&known), &local, Some(&stale)));
    let bumped = maybe_bump_for_breaking_change(vec![Version::new(0, 1, 0)], a.version).unwrap();
    assert_eq!(bumped, Version::new(0, 2, 0));

    // B's manifest entry for A is rewritten to the new version, then B
    // bumps the same way.
    let mut manifest_b = Manifest {
        package_name: "B".to_owned(),
        version: "0.1.0".to_owned(),
        description: None,
        readme: None,
        sections: vec![DepSection {
            kind: CrateDependencyKey::Dependencies,
            target: None,
            entries: vec![shorthand("A", "0.1.0")],
        }],
    };
    write_dependency_version(&mut manifest_b, &"A".to_owned(), &bumped, &vec![]).unwrap();
    assert!(matches!(
        &manifest_b.sections[0].entries[0].value,
        DepEntryValue::Shorthand(v) if v == "0.2.0"
    ));
    let b = CrateDetails::new_for_testing("B".to_owned());
    let b_bumped =
        maybe_bump_for_breaking_change(vec![Version::new(0, 1, 0)], b.version).unwrap();
    assert_eq!(b_bumped, Version::new(0, 2, 0));
}

#[test]
fn pull_request_mode_reapplies_only_the_final_versions() {
    // After publishing A@0.2.0 and B@0.2.0, the re-application on a fresh
    // tree sets both manifests' own versions and every cross-reference,
    // and nothing else.
    let final_a = Version::new(0, 2, 0);
    let final_b = Version::new(0, 2, 0);
    let mut a = CrateDetails::new_for_testing("A".to_owned());
    let mut manifest_a = Manifest {
        package_name: "A".to_owned(),
        version: "0.1.0".to_owned(),
        description: Some("a".to_owned()),
        readme: None,
        sections: vec![],
    };
    a.write_own_version(&mut manifest_a, final_a);
    assert_eq!(manifest_a.version, "0.2.0".to_owned());
    assert_eq!(a.version, Version::new(0, 2, 0));
    assert_eq!(manifest_a.description, Some("a".to_owned()));

    let mut b = CrateDetails::new_for_testing("B".to_owned());
    b.deps.push("A".to_owned());
    let mut manifest_b = Manifest {
        package_name: "B".to_owned(),
        version: "0.1.0".to_owned(),
        description: Some("b".to_owned()),
        readme: None,
        sections: vec![DepSection {
            kind: CrateDependencyKey::Dependencies,
            target: None,
            entries: vec![table("A", vec![("path", s("../a")), ("version", s("0.1.0"))])],
        }],
    };
    b.write_own_version(&mut manifest_b, final_b);
    write_dependency_version(&mut manifest_b, &"A".to_owned(), &Version::new(0, 2, 0), &vec![])
        .unwrap();
    assert_eq!(manifest_b.version, "0.2.0".to_owned());
    assert_eq!(
        fields_of(&manifest_b, 0, 0),
        vec![
            ("path".to_owned(), "../a".to_owned()),
            ("version".to_owned(), "0.2.0".to_owned())
        ]
    );
}

#[test]
fn adjust_version_takes_the_highest_non_yanked_version() {
    let a = CrateDetails::new_for_testing("A".to_owned());
    let prevs = vec![
        CratesIoCrateVersion {
            version: Version::new(0, 3, 0),
            yanked: false,
        },
        CratesIoCrateVersion {
            version: Version::new(9, 0, 0),
            yanked: true,
        },
    ];
    assert_eq!(a.adjust_version(&prevs), Some(Version::new(0, 3, 0)));
    // Nothing to adjust when the current version is already the highest.
    let unchanged = vec![CratesIoCrateVersion {
        version: Version::new(0, 1, 0),
        yanked: false,
    }];
    assert_eq!(a.adjust_version(&unchanged), None);
}

#[test]
fn needs_version_bump_to_publish_checks_the_known_versions() {
    let a = CrateDetails::new_for_testing("A".to_owned());
    let known = vec![Version::new(0, 1, 0)];
    assert!(!a.needs_version_bump_to_publish(&known));
    assert!(a.needs_version_bump_to_publish(&vec![]));
    let mut pre = CrateDetails::new_for_testing("A".to_owned());
    pre.version = parse_version("0.1.0-dev").unwrap();
    assert!(pre.needs_version_bump_to_publish(&vec![parse_version("0.1.0-dev").unwrap()]));
}

#[test]
fn option_arguments_parse_name_and_version() {
    assert_eq!(
        parse_name_value_arg("a=b").unwrap(),
        ("a".to_owned(), "b".to_owned())
    );
    assert!(matches!(
        parse_name_value_arg("a=b=c"),
        Err(OptsError::MalformedArgument(m)) if m == "a=b=c"
    ));
    let (name, version) = parse_name_version_arg("my-crate=1.2.3").unwrap();
    assert_eq!(name, "my-crate".to_owned());
    assert_eq!(version, Version::new(1, 2, 3));
    assert!(matches!(
        parse_name_version_arg("my-crate=not.a.version"),
        Err(OptsError::InvalidVersion(_))
    ));
    assert!(matches!(StepToStopAt::from_str("validation"), Some(StepToStopAt::Validation)));
    assert!(StepToStopAt::from_str("packaging").is_none());
}

#[test]
fn edits_are_idempotent() {
    let mut m = manifest_with(
        vec![
            shorthand("a", "0.1.0"),
            table("b", vec![("path", s("../b")), ("version", s("0.1.0"))]),
        ],
        CrateDependencyKey::Dependencies,
    );
    let deps = vec!["a".to_owned(), "b".to_owned()];
    write_dependency_field_value(
        &mut m,
        &deps,
        &vec!["path".to_owned()],
        &"version".to_owned(),
        &"0.2.0".to_owned(),
        true,
    )
    .unwrap();
    let once = (fields_of(&m, 0, 1), format!("{:?}", matches!(&m.sections[0].entries[0].value, DepEntryValue::Shorthand(v) if v == "0.2.0")));
    write_dependency_field_value(
        &mut m,
        &deps,
        &vec!["path".to_owned()],
        &"version".to_owned(),
        &"0.2.0".to_owned(),
        true,
    )
    .unwrap();
    let twice = (fields_of(&m, 0, 1), format!("{:?}", matches!(&m.sections[0].entries[0].value, DepEntryValue::Shorthand(v) if v == "0.2.0")));
    assert_eq!(once, twice);
}

#[test]
fn strip_dev_deps_removes_the_top_level_table() {
    let mut m = Manifest {
        package_name: "pkg".to_owned(),
        version: "0.1.0".to_owned(),
        description: None,
        readme: None,
        sections: vec![
            DepSection {
                kind: CrateDependencyKey::DevDependencies,
                target: None,
                entries: vec![shorthand("a", "0.1.0")],
            },
            DepSection {
                kind: CrateDependencyKey::DevDependencies,
                target: Some("cfg(unix)".to_owned()),
                entries: vec![shorthand("b", "0.1.0")],
            },
        ],
    };
    assert!(m.strip_dev_deps());
    assert_eq!(m.sections.len(), 1);
    assert_eq!(m.sections[0].target, Some("cfg(unix)".to_owned()));
    assert!(!m.strip_dev_deps());
}

#[test]
fn descriptions_default_to_the_package_name() {
    let details = CrateDetails::new_for_testing("named".to_owned());
    // The testing record carries a description, so nothing changes.
    let mut m = manifest_with(vec![], CrateDependencyKey::Dependencies);
    details.tweak_description_for_publishing(&mut m);
    assert_eq!(m.description, None);
    let mut blank = CrateDetails::new_for_testing("named".to_owned());
    blank.description = None;
    blank.tweak_description_for_publishing(&mut m);
    assert_eq!(m.description, Some("named".to_owned()));
    assert!(blank.needs_synthetic_readme(false));
    assert!(!blank.needs_synthetic_readme(true));
    assert_eq!(
        blank.synthetic_readme(),
        "# named\n\nAuto-generated README.md for publishing to crates.io".to_owned()
    );
}

#[test]
fn loading_from_a_manifest_reads_name_version_and_path_deps() {
    let m = Manifest {
        package_name: "pkg".to_owned(),
        version: "1.2.3".to_owned(),
        description: Some("what it does".to_owned()),
        readme: None,
        sections: vec![
            DepSection {
                kind: CrateDependencyKey::Dependencies,
                target: None,
                entries: vec![
                    table("x", vec![("path", s("../x"))]),
                    shorthand("serde-like", "1.0"),
                ],
            },
            DepSection {
                kind: CrateDependencyKey::Dependencies,
                target: Some("cfg(unix)".to_owned()),
                entries: vec![table("renamed", vec![("package", s("y")), ("path", s("../y"))])],
            },
            DepSection {
                kind: CrateDependencyKey::DevDependencies,
                target: None,
                entries: vec![table("x", vec![("path", s("../x"))])],
            },
        ],
    };
    let c = CrateDetails::load_from_manifest(&m).unwrap();
    assert_eq!(c.name, "pkg".to_owned());
    assert_eq!(c.version, Version::new(1, 2, 3));
    let mut deps = c.deps.clone();
    deps.sort();
    assert_eq!(deps, vec!["x".to_owned(), "y".to_owned()]);
    assert_eq!(c.dev_deps, vec!["x".to_owned()]);
    assert!(c.build_deps.is_empty());
    assert_eq!(c.description, Some("what it does".to_owned()));

    let bad = Manifest {
        package_name: "pkg".to_owned(),
        version: "one.two".to_owned(),
        description: None,
        readme: None,
        sections: vec![],
    };
    assert!(matches!(
        CrateDetails::load_from_manifest(&bad),
        Err(ManifestError::VersionNotParsable(v)) if v == "one.two"
    ));
}
