use redox_installer::config::PackageConfig;
use redox_installer::package::{classify, install_actions, packages_to_build, requires_cookbook_key, InstallAction};

fn build(rule: &str) -> PackageConfig {
    PackageConfig::Build(rule.to_string())
}

fn spec_none() -> PackageConfig {
    PackageConfig::Spec { version: None, git: None, path: None, pkg_path: None }
}

#[test]
fn default_package_with_repo_binary_is_prebuilt() {
    assert_eq!(classify(&PackageConfig::Empty, true, true), InstallAction::RemotePrebuilt);
    assert_eq!(classify(&spec_none(), true, true), InstallAction::RemotePrebuilt);
    assert_eq!(classify(&PackageConfig::Empty, false, true), InstallAction::Build);
}

#[test]
fn binary_rule_is_prebuilt_regardless() {
    assert_eq!(classify(&build("binary"), false, true), InstallAction::RemotePrebuilt);
    assert_eq!(classify(&build("binary"), true, true), InstallAction::RemotePrebuilt);
}

#[test]
fn ignore_rule_does_nothing() {
    assert_eq!(classify(&build("ignore"), false, true), InstallAction::Ignore);
    assert_eq!(classify(&build("ignore"), true, false), InstallAction::Ignore);
}

#[test]
fn recipe_needs_local_source() {
    assert_eq!(classify(&build("recipe"), true, true), InstallAction::Build);
    assert_eq!(classify(&build("source"), false, false), InstallAction::RemotePrebuilt);
    assert_eq!(classify(&PackageConfig::Empty, false, false), InstallAction::RemotePrebuilt);
}

#[test]
fn build_list_and_actions() {
    let pkgs = vec![
        ("a".to_string(), PackageConfig::Empty),
        ("b".to_string(), build("binary")),
        ("c".to_string(), build("recipe")),
        ("d".to_string(), build("ignore")),
    ];
    assert_eq!(packages_to_build(&pkgs, false), vec!["a".to_string(), "c".to_string()]);
    assert_eq!(packages_to_build(&pkgs, true), vec!["c".to_string()]);
    assert_eq!(
        install_actions(&pkgs, true, true),
        vec![InstallAction::RemotePrebuilt, InstallAction::RemotePrebuilt, InstallAction::Build, InstallAction::Ignore]
    );
}

#[test]
fn cookbook_key_needed_only_for_explicit_packages() {
    let plain = vec![("a".to_string(), PackageConfig::Empty), ("b".to_string(), spec_none())];
    assert!(!requires_cookbook_key(&plain));
    let explicit = vec![("a".to_string(), PackageConfig::Empty), ("c".to_string(), build("binary"))];
    assert!(requires_cookbook_key(&explicit));
    let versioned = vec![(
        "v".to_string(),
        PackageConfig::Spec { version: Some("1".to_string()), git: None, path: None, pkg_path: None },
    )];
    assert!(requires_cookbook_key(&versioned));
}

use redox_installer::package::install_order;

#[test]
fn dependencies_come_first() {
    // 0 depends on 1 and 2, 1 depends on 2, 3 is installed already.
    let deps = vec![vec![1, 2], vec![2], vec![], vec![0]];
    let installed = vec![false, false, false, true];
    assert_eq!(install_order(&deps, &installed), Ok(vec![2, 1, 0]));
}

#[test]
fn installed_dependencies_are_skipped() {
    let deps = vec![vec![1], vec![2], vec![]];
    let installed = vec![false, true, false];
    let order = install_order(&deps, &installed).unwrap();
    assert_eq!(order, vec![0, 2]);
}

#[test]
fn dependency_cycle_is_reported() {
    let deps = vec![vec![1], vec![0], vec![], vec![0]];
    let installed = vec![false, false, false, false];
    assert_eq!(install_order(&deps, &installed), Err(vec![0, 1, 3]));
}
