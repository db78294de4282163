use fmods::factorio_api::{FactorioApi, Registry, RegistryMod};
use fmods::instance::{InstalledMod, Instance};
use fmods::mod_info::{
    Dependency, DependencyType, ModInfo, ModRelease, ModReleaseInfoJson, Version,
};
use fmods::utils::{process_dependencies, Changes, Error};

fn v(a: i64, b: i64, c: i64) -> Version {
    Version::new(a, b, c)
}

fn instance_with(mods: Vec<(&str, Version)>) -> Instance {
    Instance {
        version: v(1, 1, 0),
        game_content_versions: vec![InstalledMod { name: "base".to_string(), version: v(1, 1, 0) }],
        mods: mods
            .into_iter()
            .map(|(n, ver)| InstalledMod { name: n.to_string(), version: ver })
            .collect(),
    }
}

fn release(ver: Version, deps: &[&str]) -> ModRelease {
    ModRelease {
        version: ver,
        info_json: ModReleaseInfoJson {
            dependencies: deps.iter().map(|s| Dependency::parse(s).unwrap()).collect(),
            factorio_version: v(1, 1, 0),
        },
    }
}

fn registry_with(entries: Vec<(&str, Vec<ModRelease>)>) -> Registry {
    Registry {
        mods: entries
            .into_iter()
            .map(|(n, releases)| RegistryMod {
                name: n.to_string(),
                info: ModInfo { releases },
            })
            .collect(),
    }
}

#[test]
fn e2e_install_two_mods() {
    // Nothing installed; X 1.0.0 requires Y >= 1.0.0; Y's only release is 1.0.0.
    let instance = instance_with(vec![]);
    let registry = registry_with(vec![
        ("x", vec![release(v(1, 0, 0), &["y >= 1.0.0"])]),
        ("y", vec![release(v(1, 0, 0), &[])]),
    ]);
    let deps =
        process_dependencies(&registry, &instance, "x".to_string(), v(1, 0, 0)).unwrap();
    let changes = Changes::compute(&instance, &deps);
    assert_eq!(changes.install.len(), 2);
    assert_eq!(changes.install[0].id, "x");
    assert_eq!(changes.install[0].version, v(1, 0, 0));
    assert_eq!(changes.install[1].id, "y");
    assert_eq!(changes.install[1].version, v(1, 0, 0));
    assert_eq!(changes.update.len(), 0);
    assert_eq!(changes.conflicts.len(), 0);
}

#[test]
fn e2e_update_installed() {
    // Y installed at 1.0.0; X 1.0.0 demands Y >= 2.0.0; the registry has Y 2.0.0.
    let instance = instance_with(vec![("y", v(1, 0, 0))]);
    let registry = registry_with(vec![
        ("x", vec![release(v(1, 0, 0), &["y >= 2.0.0"])]),
        ("y", vec![release(v(1, 0, 0), &[]), release(v(2, 0, 0), &[])]),
    ]);
    let deps =
        process_dependencies(&registry, &instance, "x".to_string(), v(1, 0, 0)).unwrap();
    let changes = Changes::compute(&instance, &deps);
    assert_eq!(changes.install.len(), 1);
    assert_eq!(changes.install[0].id, "x");
    assert_eq!(changes.update.len(), 1);
    assert_eq!(changes.update[0].id, "y");
    assert_eq!(changes.update[0].old_version, v(1, 0, 0));
    assert_eq!(changes.update[0].new_version, v(2, 0, 0));
    assert_eq!(changes.conflicts.len(), 0);
}

#[test]
fn e2e_conflict_reported() {
    // Z installed at 1.0.0; X declares a conflict with Z at or above 2.0.0,
    // which the installed 1.0.0 does not answer, so the spec survives to the
    // resolved set and Z is reported as a conflict.
    let instance = instance_with(vec![("z", v(1, 0, 0))]);
    let registry = registry_with(vec![(
        "x",
        vec![release(v(1, 0, 0), &["! z >= 2.0.0"])],
    )]);
    let deps =
        process_dependencies(&registry, &instance, "x".to_string(), v(1, 0, 0)).unwrap();
    let changes = Changes::compute(&instance, &deps);
    assert_eq!(changes.conflicts, vec!["z".to_string()]);
    assert_eq!(changes.install.len(), 1);
    assert_eq!(changes.install[0].id, "x");
    assert_eq!(changes.update.len(), 0);
}

#[test]
fn satisfied_by_installed_needs_no_registry() {
    // X installed at 3.0.0 answers "x >= 2.0.0" outright: the registry holds
    // no response for X at all, and the run still succeeds without an action
    // for X.
    let instance = instance_with(vec![("x", v(3, 0, 0))]);
    let registry = registry_with(vec![(
        "r",
        vec![release(v(1, 0, 0), &["x >= 2.0.0"])],
    )]);
    let deps =
        process_dependencies(&registry, &instance, "r".to_string(), v(1, 0, 0)).unwrap();
    let changes = Changes::compute(&instance, &deps);
    assert_eq!(changes.install.len(), 1);
    assert_eq!(changes.install[0].id, "r");
    assert_eq!(changes.update.len(), 0);
    assert_eq!(changes.conflicts.len(), 0);
}

#[test]
fn upgrade_takes_maximum() {
    // A is demanded at 1.0.0 via one path and at 2.0.0 via another: the
    // resolved version is exactly 2.0.0.
    let instance = instance_with(vec![]);
    let registry = registry_with(vec![
        ("r", vec![release(v(1, 0, 0), &["a >= 1.0.0", "c >= 1.0.0"])]),
        ("a", vec![release(v(1, 0, 0), &[]), release(v(2, 0, 0), &[])]),
        ("c", vec![release(v(1, 0, 0), &["a >= 2.0.0"])]),
    ]);
    let deps =
        process_dependencies(&registry, &instance, "r".to_string(), v(1, 0, 0)).unwrap();
    let a = deps.iter().find(|d| d.mod_id == "a").unwrap();
    assert_eq!(a.version, Some(v(2, 0, 0)));
}

#[test]
fn cascade_drops_stale_requirement() {
    // A 1.0.0 pulls in B; A is then superseded by 2.0.0, which no longer
    // declares B, and no other live path needs B: B leaves the resolved set.
    let instance = instance_with(vec![]);
    let registry = registry_with(vec![
        ("r", vec![release(v(1, 0, 0), &["a >= 1.0.0", "c >= 1.0.0"])]),
        (
            "a",
            vec![release(v(1, 0, 0), &["b >= 1.0.0"]), release(v(2, 0, 0), &[])],
        ),
        ("b", vec![release(v(1, 0, 0), &[])]),
        ("c", vec![release(v(1, 0, 0), &["a >= 2.0.0"])]),
    ]);
    let deps =
        process_dependencies(&registry, &instance, "r".to_string(), v(1, 0, 0)).unwrap();
    assert!(deps.iter().all(|d| d.mod_id != "b"));
    let a = deps.iter().find(|d| d.mod_id == "a").unwrap();
    assert_eq!(a.version, Some(v(2, 0, 0)));
    let changes = Changes::compute(&instance, &deps);
    assert!(changes.install.iter().all(|c| c.id != "b"));
}

#[test]
fn identical_inputs_identical_plans() {
    let instance = instance_with(vec![("y", v(1, 0, 0))]);
    let registry = registry_with(vec![
        ("x", vec![release(v(1, 0, 0), &["y >= 2.0.0", "?w", "! q >= 1.0"])]),
        ("y", vec![release(v(2, 0, 0), &[])]),
    ]);
    let d1 = process_dependencies(&registry, &instance, "x".to_string(), v(1, 0, 0)).unwrap();
    let d2 = process_dependencies(&registry, &instance, "x".to_string(), v(1, 0, 0)).unwrap();
    let c1 = Changes::compute(&instance, &d1);
    let c2 = Changes::compute(&instance, &d2);
    assert_eq!(c1.install.len(), c2.install.len());
    for (a, b) in c1.install.iter().zip(c2.install.iter()) {
        assert_eq!(a.id, b.id);
        assert_eq!(a.version, b.version);
    }
    assert_eq!(c1.update.len(), c2.update.len());
    for (a, b) in c1.update.iter().zip(c2.update.iter()) {
        assert_eq!(a.id, b.id);
        assert_eq!(a.old_version, b.old_version);
        assert_eq!(a.new_version, b.new_version);
    }
    assert_eq!(c1.conflicts, c2.conflicts);
}

#[test]
fn planner_conflict_iff_installed() {
    // A Conflict spec in the resolved set yields exactly one conflict action
    // when the id is installed, and none otherwise.
    let deps = vec![Dependency::new("y".to_string(), None, DependencyType::Conflict)];
    let with_y = instance_with(vec![("y", v(1, 0, 0))]);
    let without_y = instance_with(vec![]);
    let c1 = Changes::compute(&with_y, &deps);
    assert_eq!(c1.conflicts, vec!["y".to_string()]);
    assert_eq!(c1.install.len(), 0);
    assert_eq!(c1.update.len(), 0);
    let c2 = Changes::compute(&without_y, &deps);
    assert_eq!(c2.conflicts.len(), 0);
}

#[test]
fn planner_skips_optional_and_game_content() {
    let deps = vec![
        Dependency::new("w".to_string(), Some(v(1, 0, 0)), DependencyType::Optional),
        Dependency::new("base".to_string(), Some(v(2, 0, 0)), DependencyType::Require),
    ];
    let instance = instance_with(vec![]);
    let c = Changes::compute(&instance, &deps);
    assert_eq!(c.install.len(), 0);
    assert_eq!(c.update.len(), 0);
    assert_eq!(c.conflicts.len(), 0);
}

#[test]
fn planner_no_action_when_installed_is_enough() {
    let deps = vec![Dependency::new("x".to_string(), Some(v(2, 0, 0)), DependencyType::Require)];
    let instance = instance_with(vec![("x", v(3, 0, 0))]);
    let c = Changes::compute(&instance, &deps);
    assert_eq!(c.install.len(), 0);
    assert_eq!(c.update.len(), 0);
    assert_eq!(c.conflicts.len(), 0);
}

#[test]
fn error_mod_not_found() {
    let instance = instance_with(vec![]);
    let registry = registry_with(vec![]);
    let r = process_dependencies(&registry, &instance, "ghost".to_string(), v(1, 0, 0));
    match r {
        Err(Error::ModNotFound(id, _)) => assert_eq!(id, "ghost"),
        _ => panic!("expected a lookup failure"),
    }
}

#[test]
fn error_no_suitable_release() {
    // The exact requested version is absent from the registry's response.
    let instance = instance_with(vec![]);
    let registry = registry_with(vec![("x", vec![release(v(1, 0, 0), &[])])]);
    let r = process_dependencies(&registry, &instance, "x".to_string(), v(9, 9, 9));
    match r {
        Err(Error::CantFoundSuitableRelease(id, requested)) => {
            assert_eq!(id, "x");
            assert_eq!(requested, Some(v(9, 9, 9)));
        }
        _ => panic!("expected a release selection failure"),
    }
}

#[test]
fn bare_require_picks_highest_compatible() {
    // "y" without a version picks the highest compatible release, and a
    // release for another environment version is never considered.
    let instance = instance_with(vec![]);
    let incompatible = ModRelease {
        version: v(3, 0, 0),
        info_json: ModReleaseInfoJson { dependencies: vec![], factorio_version: v(2, 0, 0) },
    };
    let registry = registry_with(vec![
        ("x", vec![release(v(1, 0, 0), &["y"])]),
        (
            "y",
            vec![release(v(2, 0, 0), &[]), release(v(1, 0, 0), &[]), incompatible],
        ),
    ]);
    let deps =
        process_dependencies(&registry, &instance, "x".to_string(), v(1, 0, 0)).unwrap();
    let y = deps.iter().find(|d| d.mod_id == "y").unwrap();
    assert_eq!(y.version, Some(v(2, 0, 0)));
}

#[test]
fn prepare_releases_filters_and_sorts() {
    let instance = instance_with(vec![]);
    let api = FactorioApi::new(&instance);
    let wrong_env = ModRelease {
        version: v(0, 5, 0),
        info_json: ModReleaseInfoJson { dependencies: vec![], factorio_version: v(9, 0, 0) },
    };
    let needs_missing_content = release(v(0, 7, 0), &["space-age >= 1.0"]);
    let raw = vec![release(v(2, 0, 0), &[]), wrong_env, release(v(1, 0, 0), &[]), needs_missing_content];
    let prepared = api.prepare_releases(&raw);
    let versions: Vec<Version> = prepared.iter().map(|r| r.version).collect();
    assert_eq!(versions, vec![v(1, 0, 0), v(2, 0, 0)]);
}

#[test]
fn release_compatibility_checks_game_content() {
    let instance = instance_with(vec![]);
    let api = FactorioApi::new(&instance);
    // base is bundled at 1.1.0: a requirement at or below that passes, one
    // above it fails, and missing content fails.
    assert!(api.is_release_compatible(&release(v(1, 0, 0), &["base >= 1.1"])));
    assert!(!api.is_release_compatible(&release(v(1, 0, 0), &["base >= 1.2"])));
    assert!(!api.is_release_compatible(&release(v(1, 0, 0), &["quality >= 1.0"])));
    // non-Require relations to game content do not constrain compatibility
    assert!(api.is_release_compatible(&release(v(1, 0, 0), &["?quality >= 1.0"])));
}

#[test]
fn resolver_merges_root_into_output() {
    // The root's entry carries the chosen release's version and survives to
    // the output exactly once.
    let instance = instance_with(vec![]);
    let registry = registry_with(vec![("x", vec![release(v(1, 2, 3), &[])])]);
    let deps =
        process_dependencies(&registry, &instance, "x".to_string(), v(1, 2, 3)).unwrap();
    assert_eq!(deps.len(), 1);
    assert_eq!(deps[0].mod_id, "x");
    assert_eq!(deps[0].version, Some(v(1, 2, 3)));
    assert_eq!(deps[0].dependency_type, DependencyType::Require);
}

#[test]
fn optional_and_conflict_never_expand() {
    // "?y" and "!w" are recorded but never looked up: neither id is in the
    // registry, and the run still succeeds.
    let instance = instance_with(vec![]);
    let registry = registry_with(vec![("x", vec![release(v(1, 0, 0), &["?y", "! w"])])]);
    let deps =
        process_dependencies(&registry, &instance, "x".to_string(), v(1, 0, 0)).unwrap();
    let y = deps.iter().find(|d| d.mod_id == "y").unwrap();
    assert_eq!(y.dependency_type, DependencyType::Optional);
    assert_eq!(y.version, None);
    let w = deps.iter().find(|d| d.mod_id == "w").unwrap();
    assert_eq!(w.dependency_type, DependencyType::Conflict);
}

#[test]
fn game_content_require_makes_no_lookup_and_no_action() {
    // A Require on bundled content is a version assertion: the registry is
    // never consulted for it and the plan never acts on it.
    let instance = instance_with(vec![]);
    let registry = registry_with(vec![(
        "x",
        vec![release(v(1, 0, 0), &["base >= 1.0"])],
    )]);
    let deps =
        process_dependencies(&registry, &instance, "x".to_string(), v(1, 0, 0)).unwrap();
    assert!(deps.iter().any(|d| d.mod_id == "base"));
    let changes = Changes::compute(&instance, &deps);
    assert_eq!(changes.install.len(), 1);
    assert_eq!(changes.install[0].id, "x");
}
