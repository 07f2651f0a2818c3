use vrc_get_vpm::context::ResolutionContext;
use vrc_get_vpm::entry::{DependencyInfo, RequirementSource};
use vrc_get_vpm::package::{Dependency, PackageCollection, PackageInfo, VersionSelector};
use vrc_get_vpm::queue::PackageQueue;
use vrc_get_vpm::resolution::{
    collect_adding_packages, lookup_outcome, root_range, AddPackageErr, LockedDependencyInfo,
    PackageResolutionResult, RootDependency,
};
use vrc_get_vpm::version::{Bound, DependencyRange, Interval, UnityVersion, Version, VersionRange};

/// Package records, each with the lowest platform major version it supports.
struct Env {
    packages: Vec<(PackageInfo, u64)>,
}

impl PackageCollection for Env {
    fn find_package_by_name(&self, name: &String, selector: &VersionSelector) -> Option<PackageInfo> {
        let mut best: Option<&PackageInfo> = None;
        for (p, min_unity) in &self.packages {
            if &p.name != name {
                continue;
            }
            let ok = match selector {
                VersionSelector::Specific(v) => p.version == *v,
                VersionSelector::Range(unity, range) => {
                    range.match_pre(&p.version, range.contains_pre())
                        && unity.map_or(true, |u| u.major >= *min_unity)
                }
            };
            if ok && best.map_or(true, |b| b.version.is_less_than(&p.version)) {
                best = Some(p);
            }
        }
        best.map(|p| p.duplicate())
    }
}

fn v(major: u64, minor: u64, patch: u64) -> Version {
    Version::new(major, minor, patch)
}

/// `^major.minor.patch`: at or after the version, before the next major.
fn caret(major: u64, minor: u64, patch: u64) -> VersionRange {
    VersionRange::from_intervals(vec![Interval {
        lower: Some(Bound { version: v(major, minor, patch), inclusive: true }),
        upper: Some(Bound { version: Version::new_pre(major + 1, 0, 0, 0), inclusive: false }),
    }])
}

fn dep(name: &str, range: VersionRange) -> Dependency {
    Dependency { name: name.to_string(), range }
}

fn pkg(name: &str, version: Version, deps: Vec<Dependency>, legacy: Vec<&str>) -> PackageInfo {
    PackageInfo {
        name: name.to_string(),
        version,
        dependencies: deps,
        legacy_packages: legacy.into_iter().map(|s| s.to_string()).collect(),
    }
}

fn root(name: &str, version: Version) -> RootDependency {
    RootDependency { name: name.to_string(), range: DependencyRange::Version(version) }
}

fn installed(r: &PackageResolutionResult) -> Vec<(String, Version)> {
    let mut out: Vec<(String, Version)> =
        r.new_packages.iter().map(|p| (p.name.clone(), p.version)).collect();
    out.sort_by(|a, b| a.0.cmp(&b.0));
    out
}

#[test]
fn resolves_latest_matching_dependency() {
    let env = Env {
        packages: vec![
            (pkg("A", v(1, 0, 0), vec![dep("B", caret(1, 0, 0))], vec![]), 0),
            (pkg("B", v(1, 0, 0), vec![], vec![]), 0),
            (pkg("B", v(1, 1, 0), vec![], vec![]), 0),
        ],
    };
    let roots = vec![root("A", v(1, 0, 0))];
    let candidates = vec![env.find_package_by_name(&"A".to_string(), &VersionSelector::specific_version(v(1, 0, 0))).unwrap()];
    let r = collect_adding_packages(&roots, &vec![], None, &env, candidates, false).unwrap();
    assert_eq!(installed(&r), vec![("A".to_string(), v(1, 0, 0)), ("B".to_string(), v(1, 1, 0))]);
    assert!(r.conflicts.is_empty());
    assert!(r.found_legacy_packages.is_empty());
}

#[test]
fn superseded_locked_package_is_reported_legacy() {
    let env = Env {
        packages: vec![
            (pkg("A", v(1, 0, 0), vec![], vec!["B"]), 0),
            (pkg("B", v(1, 0, 0), vec![], vec![]), 0),
        ],
    };
    let locked = vec![LockedDependencyInfo { name: "B".to_string(), version: v(1, 0, 0), dependencies: vec![] }];
    let candidates = vec![pkg("A", v(1, 0, 0), vec![], vec!["B"])];
    let r = collect_adding_packages(&vec![root("A", v(1, 0, 0))], &locked, None, &env, candidates, false).unwrap();
    assert_eq!(r.found_legacy_packages, vec!["B".to_string()]);
    assert_eq!(installed(&r), vec![("A".to_string(), v(1, 0, 0))]);
}

#[test]
fn missing_dependency_fails_whole_resolution() {
    let env = Env { packages: vec![(pkg("A", v(1, 0, 0), vec![dep("C", caret(1, 0, 0))], vec![]), 0)] };
    let candidates = vec![pkg("A", v(1, 0, 0), vec![dep("C", caret(1, 0, 0))], vec![])];
    let r = collect_adding_packages(&vec![], &vec![], None, &env, candidates, false);
    match r {
        Err(AddPackageErr::DependencyNotFound { dependency_name }) => assert_eq!(dependency_name, "C"),
        other => panic!("unexpected {:?}", other),
    }
}

#[test]
fn platform_restricted_lookup_falls_back() {
    // B 1.1.0 needs platform 2022; on 2019 the restricted lookup picks 1.0.0.
    let env = Env {
        packages: vec![
            (pkg("B", v(1, 0, 0), vec![], vec![]), 2019),
            (pkg("B", v(1, 1, 0), vec![], vec![]), 2022),
            (pkg("C", v(1, 0, 0), vec![], vec![]), 2030),
        ],
    };
    let a = pkg("A", v(1, 0, 0), vec![dep("B", caret(1, 0, 0)), dep("C", caret(1, 0, 0))], vec![]);
    let unity = Some(UnityVersion { major: 2019, minor: 4 });
    let r = collect_adding_packages(&vec![], &vec![], unity, &env, vec![a], false).unwrap();
    assert_eq!(
        installed(&r),
        vec![("A".to_string(), v(1, 0, 0)), ("B".to_string(), v(1, 0, 0)), ("C".to_string(), v(1, 0, 0))]
    );
}

#[test]
fn unmet_requirement_is_reported_as_conflict() {
    let env = Env { packages: vec![(pkg("B", v(1, 0, 0), vec![], vec![]), 0)] };
    // A needs B ^2.0.0, but the root pins B at 1.0.0 and only that version is pending.
    let a = pkg("A", v(1, 0, 0), vec![dep("B", caret(2, 0, 0))], vec![]);
    let b = pkg("B", v(1, 0, 0), vec![], vec![]);
    let r = collect_adding_packages(&vec![], &vec![], None, &env, vec![b, a], false);
    match r {
        Err(AddPackageErr::DependencyNotFound { dependency_name }) => assert_eq!(dependency_name, "B"),
        other => panic!("unexpected {:?}", other),
    }
    let a = pkg("A", v(1, 0, 0), vec![dep("B", caret(1, 0, 0))], vec![]);
    let b = pkg("B", v(1, 0, 0), vec![], vec![]);
    let roots = vec![RootDependency { name: "B".to_string(), range: DependencyRange::Range(caret(3, 0, 0)) }];
    let r = collect_adding_packages(&roots, &vec![], None, &env, vec![a, b], false).unwrap();
    assert_eq!(r.conflicts.len(), 1);
    assert_eq!(r.conflicts[0].name, "B");
    assert_eq!(r.conflicts[0].sources.len(), 1);
    assert!(matches!(r.conflicts[0].sources[0], RequirementSource::Root));
}

#[test]
fn duplicate_dependency_name_is_rejected() {
    let env = Env { packages: vec![] };
    let a = pkg("A", v(1, 0, 0), vec![dep("B", caret(1, 0, 0)), dep("B", caret(2, 0, 0))], vec![]);
    match collect_adding_packages(&vec![], &vec![], None, &env, vec![a], false) {
        Err(AddPackageErr::DuplicateDependency { package_name }) => assert_eq!(package_name, "A"),
        other => panic!("unexpected {:?}", other),
    }
}

#[test]
fn empty_input_gives_empty_result() {
    let env = Env { packages: vec![] };
    let r = collect_adding_packages(&vec![], &vec![], None, &env, vec![], false).unwrap();
    assert!(r.new_packages.is_empty());
    assert!(r.conflicts.is_empty());
    assert!(r.found_legacy_packages.is_empty());
}

#[test]
fn root_floor_keeps_greater_locked_version() {
    let (range, allow_pre) = root_range(&DependencyRange::Version(v(1, 0, 0)), Some(v(1, 2, 0)));
    assert!(!allow_pre);
    assert_eq!(range.alternatives.len(), 1);
    assert_eq!(range.alternatives[0].lower, Some(Bound { version: v(1, 2, 0), inclusive: true }));
    assert_eq!(range.alternatives[0].upper, None);
    let (range, _) = root_range(&DependencyRange::Version(v(2, 0, 0)), Some(v(1, 2, 0)));
    assert_eq!(range.alternatives[0].lower, Some(Bound { version: v(2, 0, 0), inclusive: true }));
    let (_, allow_pre) = root_range(&DependencyRange::Version(v(2, 0, 0)), Some(Version::new_pre(1, 2, 0, 1)));
    assert!(allow_pre);
    let (range, allow_pre) = root_range(&DependencyRange::Range(caret(1, 0, 0)), None);
    assert!(allow_pre);
    assert_eq!(range.alternatives, caret(1, 0, 0).alternatives);
}

#[test]
fn lookup_outcome_prefers_restricted_answer() {
    let name = "B".to_string();
    let r = lookup_outcome(Some(pkg("B", v(1, 0, 0), vec![], vec![])), Some(pkg("B", v(2, 0, 0), vec![], vec![])), &name);
    assert_eq!(r.unwrap().version, v(1, 0, 0));
    let r = lookup_outcome(None, Some(pkg("B", v(2, 0, 0), vec![], vec![])), &name);
    assert_eq!(r.unwrap().version, v(2, 0, 0));
    match lookup_outcome(None, None, &name) {
        Err(AddPackageErr::DependencyNotFound { dependency_name }) => assert_eq!(dependency_name, "B"),
        other => panic!("unexpected {:?}", other),
    }
}

#[test]
fn pending_push_replaces_same_name() {
    let mut q = PackageQueue::new(vec![pkg("A", v(1, 0, 0), vec![], vec![]), pkg("B", v(1, 0, 0), vec![], vec![])]);
    q.add_pending_package(pkg("A", v(2, 0, 0), vec![], vec![]));
    assert_eq!(q.pending_queue.len(), 2);
    let first = q.next_package().unwrap();
    assert_eq!((first.name.as_str(), first.version), ("A", v(2, 0, 0)));
    assert_eq!(q.next_package().unwrap().name, "B");
    assert!(q.next_package().is_none());
    let q = PackageQueue::new(vec![pkg("A", v(1, 0, 0), vec![], vec![])]);
    assert_eq!(q.find_pending_package(&"A".to_string()).unwrap().version, v(1, 0, 0));
    assert!(q.find_pending_package(&"Z".to_string()).is_none());
}

#[test]
fn legacy_iff_superseding_packages() {
    let mut e = DependencyInfo::empty("B".to_string());
    assert!(!e.is_legacy());
    e.add_modern_package(&"A".to_string());
    e.add_modern_package(&"A".to_string());
    assert!(e.is_legacy());
    assert!(e.touched);
    e.remove_modern_package(&"A".to_string());
    assert!(!e.is_legacy());
}

#[test]
fn requirement_replaced_per_source() {
    let mut e = DependencyInfo::new_dependency("B".to_string(), caret(1, 0, 0), false);
    e.add_range(RequirementSource::Package("A".to_string()), caret(1, 0, 0));
    e.add_range(RequirementSource::Package("A".to_string()), caret(2, 0, 0));
    assert_eq!(e.requirements.len(), 2);
    e.remove_range(&RequirementSource::Root);
    assert_eq!(e.requirements.len(), 1);
    assert_eq!(e.requirements[0].range.alternatives, caret(2, 0, 0).alternatives);
}

#[test]
fn reinstall_moves_edges() {
    let mut c = ResolutionContext::new(false, vec![]);
    assert!(c.add_package(pkg("A", v(1, 0, 0), vec![dep("B", caret(1, 0, 0)), dep("C", caret(1, 0, 0))], vec!["L"])));
    assert!(c.add_package(pkg("A", v(2, 0, 0), vec![dep("C", caret(2, 0, 0)), dep("D", caret(1, 0, 0))], vec![])));
    let entry = |n: &str| c.dependencies.iter().find(|e| e.name == n).unwrap();
    assert!(entry("B").requirements.is_empty());
    assert_eq!(entry("C").requirements.len(), 1);
    assert_eq!(entry("C").requirements[0].range.alternatives, caret(2, 0, 0).alternatives);
    assert_eq!(entry("D").requirements.len(), 1);
    assert!(!entry("L").is_legacy());
    assert_eq!(entry("A").current, Some(v(2, 0, 0)));
}

#[test]
fn legacy_entry_is_not_installed_or_fetched() {
    let mut c = ResolutionContext::new(false, vec![]);
    assert!(c.add_package(pkg("A", v(1, 0, 0), vec![], vec!["B"])));
    assert!(!c.add_package(pkg("B", v(1, 0, 0), vec![], vec![])));
    assert!(!c.should_add_package(&"B".to_string(), &caret(1, 0, 0)));
    let r = c.build_result();
    assert_eq!(r.found_legacy_packages, vec!["B".to_string()]);
    assert_eq!(r.new_packages.len(), 1);
}

#[test]
fn fetch_decision_uses_pending_then_current() {
    let mut c = ResolutionContext::new(false, vec![pkg("B", v(1, 5, 0), vec![], vec![])]);
    c.add_root_dependency(&"X".to_string(), caret(1, 0, 0), false);
    assert!(!c.should_add_package(&"B".to_string(), &caret(1, 0, 0)));
    assert!(c.should_add_package(&"B".to_string(), &caret(2, 0, 0)));
    let b = c.pending_queue.next_package().unwrap();
    assert!(c.add_package(b));
    assert!(!c.should_add_package(&"B".to_string(), &caret(1, 0, 0)));
    assert!(c.should_add_package(&"X".to_string(), &caret(1, 0, 0)));
}

#[test]
fn version_order_and_ranges() {
    assert!(Version::new_pre(1, 0, 0, 1).is_less_than(&v(1, 0, 0)));
    assert!(Version::new_pre(1, 0, 0, 1).is_less_than(&Version::new_pre(1, 0, 0, 2)));
    assert!(v(1, 9, 9).is_less_than(&v(2, 0, 0)));
    assert!(!v(2, 0, 0).is_less_than(&v(2, 0, 0)));
    let r = caret(1, 0, 0);
    assert!(r.match_pre(&v(1, 4, 2), false));
    assert!(!r.match_pre(&v(2, 0, 0), false));
    assert!(!r.match_pre(&Version::new_pre(1, 5, 0, 1), false));
    assert!(r.match_pre(&Version::new_pre(1, 5, 0, 1), true));
    assert!(VersionRange::exactly(v(1, 0, 0)).match_pre(&v(1, 0, 0), false));
    assert!(!VersionRange::same_or_later(v(1, 0, 0)).contains_pre());
    assert_eq!(DependencyRange::Version(v(3, 1, 0)).as_single_version(), Some(v(3, 1, 0)));
    assert_eq!(DependencyRange::Range(caret(1, 0, 0)).as_single_version(), None);
}

#[test]
fn root_requirement_merges_into_existing_entry() {
    let mut c = ResolutionContext::new(false, vec![pkg("B", v(1, 0, 0), vec![], vec![])]);
    assert!(c.add_package(pkg("A", v(1, 0, 0), vec![dep("B", caret(1, 0, 0))], vec![])));
    c.add_root_dependency(&"B".to_string(), caret(1, 2, 0), false);
    let b = c.dependencies.iter().find(|e| e.name == "B").unwrap();
    assert!(b.allow_pre);
    assert_eq!(b.requirements.len(), 2);
    assert!(b.requirements.iter().any(|r| matches!(r.source, RequirementSource::Root)));
    assert!(b.requirements.iter().any(|r| matches!(&r.source, RequirementSource::Package(n) if n == "A")));
}

#[test]
fn duplicate_name_in_locked_record_is_rejected() {
    let env = Env { packages: vec![] };
    let locked = vec![LockedDependencyInfo {
        name: "L".to_string(),
        version: v(1, 0, 0),
        dependencies: vec![dep("X", caret(1, 0, 0)), dep("X", caret(1, 0, 0))],
    }];
    match collect_adding_packages(&vec![], &locked, None, &env, vec![], false) {
        Err(AddPackageErr::DuplicateDependency { package_name }) => assert_eq!(package_name, "L"),
        other => panic!("unexpected {:?}", other),
    }
}

#[test]
fn conflict_sources_are_listed_once() {
    let mut c = ResolutionContext::new(false, vec![]);
    assert!(c.add_package(pkg("B", v(1, 0, 0), vec![], vec![])));
    c.add_root_dependency(&"B".to_string(), caret(2, 0, 0), false);
    c.add_root_dependency(&"B".to_string(), caret(3, 0, 0), false);
    let r = c.build_result();
    assert_eq!(r.conflicts.len(), 1);
    assert_eq!(r.conflicts[0].sources.len(), 1);
}
