use vstd::prelude::*;

use crate::context::{lemma_at, lemma_pending_kept, ResolutionContext};
use crate::entry::{has_name, DependencyInfo, Requirement, RequirementSource};
use crate::package::{
    copy_dependencies, declared_in, deps_view, has_unique_names, named_in, unique_names, Dependency, PackageCollection, PackageInfo,
    PackageView, VersionSelector,
};
use crate::version::{
    range_has_pre, range_matches, version_lt, Bound, DependencyRange, Interval, UnityVersion, Version,
    VersionRange,
};

verus! {

/// A package as a previous resolution recorded it.
#[derive(Debug)]
pub struct LockedDependencyInfo {
    pub name: String,
    pub version: Version,
    pub dependencies: Vec<Dependency>,
}

/// The requirements on one package that its current version does not meet.
#[derive(Debug)]
pub struct Conflict {
    pub name: String,
    pub sources: Vec<RequirementSource>,
}

/// What a resolution produces.
#[derive(Debug)]
pub struct PackageResolutionResult {
    /// The records to install.
    pub new_packages: Vec<PackageInfo>,
    /// For each package in conflict, the sources whose requirement it fails.
    pub conflicts: Vec<Conflict>,
    /// The names of the packages found superseded.
    pub found_legacy_packages: Vec<String>,
}

/// Why a resolution fails.
#[derive(Debug)]
pub enum AddPackageErr {
    /// No version of a required dependency could be found.
    DependencyNotFound { dependency_name: String },
    /// A package record lists two dependencies under one name.
    DuplicateDependency { package_name: String },
    /// The worklist did not run empty within the step budget.
    NotConverged,
}

/// The requirement of `s` on the entry is not met by its current version.
pub open spec fn edge_fails(e: DependencyInfo, global_pre: bool, s: Option<Seq<char>>) -> bool {
    &&& e.current is Some
    &&& exists|k: int|
        0 <= k < e.requirements@.len() && (#[trigger] e.requirements@[k]).source.key() == s
            && !range_matches(e.requirements@[k].range@, e.current->0, e.allow_pre || global_pre)
}

/// The entry is installed or updated, not superseded, and fails the requirement of `s`.
pub open spec fn entry_conflicts(e: DependencyInfo, global_pre: bool, s: Option<Seq<char>>) -> bool {
    !e.spec_is_legacy() && e.touched && edge_fails(e, global_pre, s)
}

/// Among the first `k` requirements, one of `s` is not met by `v`.
pub open spec fn fails_before(
    reqs: Seq<Requirement>,
    v: Version,
    allow: bool,
    k: int,
    s: Option<Seq<char>>,
) -> bool {
    exists|j: int|
        0 <= j < k && (#[trigger] reqs[j]).source.key() == s && !range_matches(reqs[j].range@, v, allow)
}

/// Some entry among the first `i` is installed with the record `p` and not superseded.
pub open spec fn installs(deps: Seq<DependencyInfo>, i: int, p: PackageView) -> bool {
    exists|x: int|
        0 <= x < i && !(#[trigger] deps[x]).spec_is_legacy() && deps[x].using is Some && deps[x].using->0@ == p
}

/// The list holds a record whose content is `p`.
pub open spec fn lists(v: Seq<PackageInfo>, p: PackageView) -> bool {
    exists|j: int| 0 <= j < v.len() && (#[trigger] v[j])@ == p
}

pub open spec fn has_source(v: Seq<RequirementSource>, s: Option<Seq<char>>) -> bool {
    exists|k: int| 0 <= k < v.len() && (#[trigger] v[k]).key() == s
}

/// The conflict list names the package `n` with the source `s`.
pub open spec fn conflict_listed(c: Seq<Conflict>, n: Seq<char>, s: Option<Seq<char>>) -> bool {
    exists|j: int| 0 <= j < c.len() && (#[trigger] c[j]).name@ == n && has_source(c[j].sources@, s)
}

impl ResolutionContext {
    /// The package `n` is in conflict with the requirement of `s`.
    pub open spec fn conflicting(&self, n: Seq<char>, s: Option<Seq<char>>) -> bool {
        exists|i: int|
            0 <= i < self.dependencies@.len() && (#[trigger] self.dependencies@[i]).name@ == n
                && entry_conflicts(self.dependencies@[i], self.allow_prerelease, s)
    }
}

/// No source occurs twice in the list.
pub open spec fn distinct_sources(v: Seq<RequirementSource>) -> bool {
    forall|a: int, b: int| 0 <= a < v.len() && 0 <= b < v.len() && a != b ==> (#[trigger] v[a]).key() != (#[trigger] v[b]).key()
}

/// Whether the list holds the source `s`.
pub fn contains_source(v: &Vec<RequirementSource>, s: &RequirementSource) -> (r: bool)
    ensures
        r == has_source(v@, s.key()),
{
    let mut i: usize = 0;
    while i < v.len()
        invariant
            i <= v@.len(),
            forall|j: int| 0 <= j < i ==> (#[trigger] v@[j]).key() != s.key(),
        decreases v@.len() - i,
    {
        if v[i].same_as(s) {
            return true;
        }
        i += 1;
    }
    false
}

/// The sources whose requirement the entry's current version fails, each once.
pub fn failing_sources(e: &DependencyInfo, global_pre: bool) -> (r: Vec<RequirementSource>)
    ensures
        forall|s: Option<Seq<char>>| has_source(r@, s) <==> edge_fails(*e, global_pre, s),
        distinct_sources(r@),
{
    let mut out: Vec<RequirementSource> = Vec::new();
    match e.current {
        None => {
            return out;
        },
        Some(v) => {
            let allow = e.allow_pre || global_pre;
            let mut k: usize = 0;
            while k < e.requirements.len()
                invariant
                    k <= e.requirements@.len(),
                    e.current == Some(v),
                    allow == (e.allow_pre || global_pre),
                    distinct_sources(out@),
                    forall|s: Option<Seq<char>>|
                        has_source(out@, s) <==> fails_before(e.requirements@, v, allow, k as int, s),
                decreases e.requirements@.len() - k,
            {
                let ghost before = out@;
                let fits = e.requirements[k].range.match_pre(&v, allow);
                if !fits && !contains_source(&out, &e.requirements[k].source) {
                    out.push(e.requirements[k].source.duplicate());
                    proof {
                        assert forall|s: Option<Seq<char>>| has_source(out@, s) <==> (has_source(before, s)
                            || e.requirements@[k as int].source.key() == s) by {
                            if has_source(before, s) {
                                let j = choose|j: int| 0 <= j < before.len() && (#[trigger] before[j]).key() == s;
                                assert(out@[j] == before[j]);
                            }
                            if has_source(out@, s) && e.requirements@[k as int].source.key() != s {
                                let j = choose|j: int| 0 <= j < out@.len() && (#[trigger] out@[j]).key() == s;
                                assert(out@[j] == before[j]);
                            }
                            if e.requirements@[k as int].source.key() == s {
                                assert(out@[before.len() as int].key() == s);
                            }
                        }
                        assert forall|a: int, b: int|
                            0 <= a < out@.len() && 0 <= b < out@.len() && a != b implies (
                            #[trigger] out@[a]).key() != (#[trigger] out@[b]).key() by {
                            if a < before.len() {
                                assert(out@[a] == before[a]);
                            }
                            if b < before.len() {
                                assert(out@[b] == before[b]);
                            }
                        }
                    }
                }
                proof {
                    assert forall|s: Option<Seq<char>>|
                        #[trigger] fails_before(e.requirements@, v, allow, k as int + 1, s) <==> (fails_before(
                            e.requirements@,
                            v,
                            allow,
                            k as int,
                            s,
                        ) || (e.requirements@[k as int].source.key() == s && !range_matches(
                            e.requirements@[k as int].range@,
                            v,
                            allow,
                        ))) by {
                        if fails_before(e.requirements@, v, allow, k as int + 1, s) {
                            let j = choose|j: int|
                                0 <= j < k + 1 && (#[trigger] e.requirements@[j]).source.key() == s
                                    && !range_matches(e.requirements@[j].range@, v, allow);
                        }
                        if e.requirements@[k as int].source.key() == s && !range_matches(
                            e.requirements@[k as int].range@,
                            v,
                            allow,
                        ) {
                            assert(e.requirements@[k as int].source.key() == s);
                        }
                        if fails_before(e.requirements@, v, allow, k as int, s) {
                            let j = choose|j: int|
                                0 <= j < k && (#[trigger] e.requirements@[j]).source.key() == s
                                    && !range_matches(e.requirements@[j].range@, v, allow);
                            assert(0 <= j < k + 1);
                        }
                    }
                    assert forall|s: Option<Seq<char>>|
                        has_source(out@, s) <==> #[trigger] fails_before(
                            e.requirements@,
                            v,
                            allow,
                            k as int + 1,
                            s,
                        ) by {
                        if has_source(out@, s) {
                            let j = choose|j: int| 0 <= j < out@.len() && (#[trigger] out@[j]).key() == s;
                            if j < before.len() {
                                assert(out@[j] == before[j]);
                            } else {
                                assert(e.requirements@[k as int].source.key() == s);
                            }
                        }
                        if has_source(before, s) {
                            let j = choose|j: int| 0 <= j < before.len() && (#[trigger] before[j]).key() == s;
                            assert(out@[j] == before[j]);
                        }
                        if out@.len() > before.len() && e.requirements@[k as int].source.key() == s {
                            assert(out@[before.len() as int].key() == s);
                        }
                        if out@.len() == before.len() && e.requirements@[k as int].source.key() == s
                            && !range_matches(e.requirements@[k as int].range@, v, allow) {
                            assert(has_source(before, s));
                        }
                    }
                }
                k += 1;
            }
            out
        },
    }
}

impl ResolutionContext {
    /// The failed requirements of the touched entries that are not superseded.
    pub fn collect_conflicts(&self) -> (r: Vec<Conflict>)
        requires
            self.wf(),
        ensures
            forall|j: int| 0 <= j < r@.len() ==> distinct_sources((#[trigger] r@[j]).sources@),
            forall|a: int, b: int|
                0 <= a < r@.len() && 0 <= b < r@.len() && a != b ==> (#[trigger] r@[a]).name@ != (
                #[trigger] r@[b]).name@,
            forall|n: Seq<char>, s: Option<Seq<char>>|
                conflict_listed(r@, n, s) <==> self.conflicting(n, s),
            forall|j: int| 0 <= j < r@.len() ==> (#[trigger] r@[j]).sources@.len() > 0,
    {
        let mut conflicts: Vec<Conflict> = Vec::new();
        let mut i: usize = 0;
        while i < self.dependencies.len()
            invariant
                i <= self.dependencies@.len(),
                self.wf(),
                forall|j: int| 0 <= j < conflicts@.len() ==> (#[trigger] conflicts@[j]).sources@.len() > 0,
                forall|j: int| 0 <= j < conflicts@.len() ==> distinct_sources((#[trigger] conflicts@[j]).sources@),
                forall|a: int, b: int|
                    0 <= a < conflicts@.len() && 0 <= b < conflicts@.len() && a != b ==> (
                    #[trigger] conflicts@[a]).name@ != (#[trigger] conflicts@[b]).name@,
                forall|j: int|
                    0 <= j < conflicts@.len() ==> exists|x: int|
                        0 <= x < i && (#[trigger] conflicts@[j]).name@ == (
                        #[trigger] self.dependencies@[x]).name@,
                forall|n: Seq<char>, s: Option<Seq<char>>|
                    conflict_listed(conflicts@, n, s) <==> exists|x: int|
                        0 <= x < i && (#[trigger] self.dependencies@[x]).name@ == n && entry_conflicts(
                            self.dependencies@[x],
                            self.allow_prerelease,
                            s,
                        ),
            decreases self.dependencies@.len() - i,
        {
            let e = &self.dependencies[i];
            let ghost c0 = conflicts@;
            if !e.is_legacy() && e.touched {
                let sources = failing_sources(e, self.allow_prerelease);
                if sources.len() > 0 {
                    proof {
                        assert forall|j: int| 0 <= j < c0.len() implies (#[trigger] c0[j]).name@
                            != e.name@ by {
                            let x = choose|x: int|
                                0 <= x < i && c0[j].name@ == (#[trigger] self.dependencies@[x]).name@;
                        }
                    }
                    conflicts.push(Conflict { name: e.name.clone(), sources });
                    proof {
                        assert forall|j: int| 0 <= j < conflicts@.len() implies exists|x: int|
                            0 <= x < i + 1 && (#[trigger] conflicts@[j]).name@ == (
                            #[trigger] self.dependencies@[x]).name@ by {
                            if j < c0.len() {
                                assert(conflicts@[j] == c0[j]);
                                let x = choose|x: int|
                                    0 <= x < i && c0[j].name@ == (#[trigger] self.dependencies@[x]).name@;
                                assert(0 <= x < i + 1);
                            } else {
                                assert(conflicts@[j].name@ == self.dependencies@[i as int].name@);
                            }
                        }
                        assert forall|a: int, b: int|
                            0 <= a < conflicts@.len() && 0 <= b < conflicts@.len() && a != b implies (
                            #[trigger] conflicts@[a]).name@ != (#[trigger] conflicts@[b]).name@ by {
                            if a < c0.len() && b < c0.len() {
                                assert(conflicts@[a] == c0[a]);
                                assert(conflicts@[b] == c0[b]);
                            } else if a < c0.len() {
                                assert(conflicts@[a] == c0[a]);
                            } else {
                                assert(conflicts@[b] == c0[b]);
                            }
                        }
                    }
                }
            }
            proof {
                assert forall|n: Seq<char>, s: Option<Seq<char>>|
                    conflict_listed(conflicts@, n, s) <==> exists|x: int|
                        0 <= x < i + 1 && (#[trigger] self.dependencies@[x]).name@ == n && entry_conflicts(
                            self.dependencies@[x],
                            self.allow_prerelease,
                            s,
                        ) by {
                    if conflict_listed(c0, n, s) {
                        let j = choose|j: int|
                            0 <= j < c0.len() && (#[trigger] c0[j]).name@ == n && has_source(c0[j].sources@, s);
                        assert(conflicts@[j] == c0[j]);
                    }
                    if conflict_listed(conflicts@, n, s) {
                        let j = choose|j: int|
                            0 <= j < conflicts@.len() && (#[trigger] conflicts@[j]).name@ == n
                                && has_source(conflicts@[j].sources@, s);
                        if j < c0.len() {
                            assert(conflicts@[j] == c0[j]);
                        }
                    }
                    if exists|x: int|
                        0 <= x < i + 1 && (#[trigger] self.dependencies@[x]).name@ == n && entry_conflicts(
                            self.dependencies@[x],
                            self.allow_prerelease,
                            s,
                        ) {
                        let x = choose|x: int|
                            0 <= x < i + 1 && (#[trigger] self.dependencies@[x]).name@ == n && entry_conflicts(
                                self.dependencies@[x],
                                self.allow_prerelease,
                                s,
                            );
                        if x == i {
                            assert(conflicts@[c0.len() as int].name@ == n);
                            assert(has_source(conflicts@[c0.len() as int].sources@, s));
                        }
                    }
                }
            }
            i += 1;
        }
        conflicts
    }

    /// The names of the superseded entries.
    pub fn collect_legacy(&self) -> (r: Vec<String>)
        requires
            self.wf(),
        ensures
            forall|a: int, b: int|
                0 <= a < r@.len() && 0 <= b < r@.len() && a != b ==> (#[trigger] r@[a])@ != (
                #[trigger] r@[b])@,
            forall|n: Seq<char>| has_name(r@, n) <==> self.legacy_name(n),
    {
        let mut legacy: Vec<String> = Vec::new();
        let mut i: usize = 0;
        while i < self.dependencies.len()
            invariant
                i <= self.dependencies@.len(),
                self.wf(),
                forall|a: int, b: int|
                    0 <= a < legacy@.len() && 0 <= b < legacy@.len() && a != b ==> (
                    #[trigger] legacy@[a])@ != (#[trigger] legacy@[b])@,
                forall|n: Seq<char>|
                    has_name(legacy@, n) <==> exists|x: int|
                        0 <= x < i && (#[trigger] self.dependencies@[x]).name@ == n
                            && self.dependencies@[x].spec_is_legacy(),
            decreases self.dependencies@.len() - i,
        {
            let e = &self.dependencies[i];
            let ghost l0 = legacy@;
            if e.is_legacy() {
                proof {
                    if has_name(l0, e.name@) {
                        let x = choose|x: int|
                            0 <= x < i && (#[trigger] self.dependencies@[x]).name@ == e.name@
                                && self.dependencies@[x].spec_is_legacy();
                    }
                }
                legacy.push(e.name.clone());
                proof {
                    assert forall|a: int, b: int|
                        0 <= a < legacy@.len() && 0 <= b < legacy@.len() && a != b implies (
                        #[trigger] legacy@[a])@ != (#[trigger] legacy@[b])@ by {
                        if a < l0.len() {
                            assert(legacy@[a] == l0[a]);
                        }
                        if b < l0.len() {
                            assert(legacy@[b] == l0[b]);
                        }
                    }
                }
            }
            proof {
                assert forall|n: Seq<char>|
                    has_name(legacy@, n) <==> exists|x: int|
                        0 <= x < i + 1 && (#[trigger] self.dependencies@[x]).name@ == n
                            && self.dependencies@[x].spec_is_legacy() by {
                    if has_name(l0, n) {
                        let j = choose|j: int| 0 <= j < l0.len() && (#[trigger] l0[j])@ == n;
                        assert(legacy@[j] == l0[j]);
                    }
                    if has_name(legacy@, n) {
                        let j = choose|j: int| 0 <= j < legacy@.len() && (#[trigger] legacy@[j])@ == n;
                        if j < l0.len() {
                            assert(legacy@[j] == l0[j]);
                        }
                    }
                    if e.spec_is_legacy() && n == e.name@ {
                        assert(legacy@[l0.len() as int]@ == n);
                    }
                }
            }
            i += 1;
        }
        proof {
            assert forall|n: Seq<char>| has_name(legacy@, n) <==> self.legacy_name(n) by {
                if self.legacy_name(n) {
                    let x = choose|x: int|
                        0 <= x < self.dependencies@.len() && (#[trigger] self.dependencies@[x]).name@ == n
                            && self.dependencies@[x].spec_is_legacy();
                }
            }
        }
        legacy
    }

    /// The records of the entries that are installed and not superseded.
    pub fn collect_installed(&self) -> (r: Vec<PackageInfo>)
        requires
            self.wf(),
            self.installs_own_names(),
        ensures
            forall|a: int, b: int|
                0 <= a < r@.len() && 0 <= b < r@.len() && a != b ==> (#[trigger] r@[a]).name@ != (
                #[trigger] r@[b]).name@,
            forall|p: PackageView| lists(r@, p) <==> installs(self.dependencies@, self.dependencies@.len() as int, p),
    {
        let mut installed: Vec<PackageInfo> = Vec::new();
        let mut i: usize = 0;
        while i < self.dependencies.len()
            invariant
                i <= self.dependencies@.len(),
                self.wf(),
                self.installs_own_names(),
                forall|a: int, b: int|
                    0 <= a < installed@.len() && 0 <= b < installed@.len() && a != b ==> (
                    #[trigger] installed@[a]).name@ != (#[trigger] installed@[b]).name@,
                forall|p: PackageView| lists(installed@, p) <==> installs(self.dependencies@, i as int, p),
            decreases self.dependencies@.len() - i,
        {
            let e = &self.dependencies[i];
            let ghost prior = installed@;
            if !e.is_legacy() {
                match &e.using {
                    Some(p) => {
                        proof {
                            assert forall|j: int| 0 <= j < prior.len() implies (#[trigger] prior[j]).name@
                                != e.name@ by {
                                assert(lists(prior, prior[j]@));
                                let x = choose|x: int|
                                    0 <= x < i && !(#[trigger] self.dependencies@[x]).spec_is_legacy()
                                        && self.dependencies@[x].using is Some
                                        && self.dependencies@[x].using->0@ == prior[j]@;
                            }
                        }
                        installed.push(p.duplicate());
                        proof {
                            assert forall|a: int, b: int|
                                0 <= a < installed@.len() && 0 <= b < installed@.len() && a != b implies (
                                #[trigger] installed@[a]).name@ != (#[trigger] installed@[b]).name@ by {
                                if a < prior.len() {
                                    assert(installed@[a] == prior[a]);
                                }
                                if b < prior.len() {
                                    assert(installed@[b] == prior[b]);
                                }
                            }
                        }
                    },
                    None => {},
                }
            }
            proof {
                assert forall|p: PackageView|
                    lists(installed@, p) <==> #[trigger] installs(self.dependencies@, i as int + 1, p) by {
                    if lists(prior, p) {
                        let j = choose|j: int| 0 <= j < prior.len() && (#[trigger] prior[j])@ == p;
                        assert(installed@[j] == prior[j]);
                    }
                    if lists(installed@, p) {
                        let j = choose|j: int| 0 <= j < installed@.len() && (#[trigger] installed@[j])@ == p;
                        if j < prior.len() {
                            assert(installed@[j] == prior[j]);
                        } else {
                            assert(self.dependencies@[i as int].using->0@ == p);
                        }
                    }
                    if installs(self.dependencies@, i as int + 1, p) {
                        let x = choose|x: int|
                            0 <= x < i + 1 && !(#[trigger] self.dependencies@[x]).spec_is_legacy()
                                && self.dependencies@[x].using is Some && self.dependencies@[x].using->0@ == p;
                        if x == i {
                            assert(installed@[prior.len() as int]@ == p);
                        } else {
                            assert(installs(self.dependencies@, i as int, p));
                        }
                    }
                    if installs(self.dependencies@, i as int, p) {
                        let x = choose|x: int|
                            0 <= x < i && !(#[trigger] self.dependencies@[x]).spec_is_legacy()
                                && self.dependencies@[x].using is Some && self.dependencies@[x].using->0@ == p;
                        assert(0 <= x < i + 1);
                    }
                }
            }
            i += 1;
        }
        installed
    }

    /// The outcome of a resolution: the records of the entries that are installed and
    /// not superseded, the failed requirements of the touched, not superseded
    /// entries, and the names of the superseded entries.
    pub fn build_result(self) -> (r: PackageResolutionResult)
        requires
            self.wf(),
            self.installs_own_names(),
        ensures
            forall|j: int| 0 <= j < r.conflicts@.len() ==> distinct_sources((#[trigger] r.conflicts@[j]).sources@),
            forall|a: int, b: int|
                0 <= a < r.conflicts@.len() && 0 <= b < r.conflicts@.len() && a != b ==> (
                #[trigger] r.conflicts@[a]).name@ != (#[trigger] r.conflicts@[b]).name@,
            forall|a: int, b: int|
                0 <= a < r.found_legacy_packages@.len() && 0 <= b < r.found_legacy_packages@.len() && a
                    != b ==> (#[trigger] r.found_legacy_packages@[a])@ != (
                #[trigger] r.found_legacy_packages@[b])@,
            forall|a: int, b: int|
                0 <= a < r.new_packages@.len() && 0 <= b < r.new_packages@.len() && a != b ==> (
                #[trigger] r.new_packages@[a]).name@ != (#[trigger] r.new_packages@[b]).name@,
            forall|n: Seq<char>, s: Option<Seq<char>>|
                conflict_listed(r.conflicts@, n, s) <==> self.conflicting(n, s),
            forall|j: int| 0 <= j < r.conflicts@.len() ==> (#[trigger] r.conflicts@[j]).sources@.len() > 0,
            forall|n: Seq<char>| has_name(r.found_legacy_packages@, n) <==> self.legacy_name(n),
            forall|p: PackageView|
                lists(r.new_packages@, p) <==> installs(self.dependencies@, self.dependencies@.len() as int, p),
    {
        let conflicts = self.collect_conflicts();
        let found_legacy_packages = self.collect_legacy();
        let new_packages = self.collect_installed();
        PackageResolutionResult { new_packages, conflicts, found_legacy_packages }
    }
}

/// A direct dependency that the project declares.
#[derive(Debug)]
pub struct RootDependency {
    pub name: String,
    pub range: DependencyRange,
}

/// The floor for a root dependency that asks for exactly `requested`: the locked
/// version where that is greater, so that nothing locked is downgraded.
pub open spec fn root_floor(requested: Version, locked: Option<Version>) -> Version {
    match locked {
        Some(l) => if version_lt(requested, l) {
            l
        } else {
            requested
        },
        None => requested,
    }
}

/// The versions at or after `v`.
pub open spec fn at_or_after(v: Version) -> Seq<Interval> {
    seq![Interval { lower: Some(Bound { version: v, inclusive: true }), upper: None }]
}

/// The range a root dependency imposes and whether its entry admits prereleases.
/// An exact version becomes "at or after" its floor; a range stands as declared.
pub fn root_range(dependency: &DependencyRange, locked: Option<Version>) -> (r: (VersionRange, bool))
    ensures
        match dependency {
            DependencyRange::Version(v) => r.0@ == at_or_after(root_floor(*v, locked)) && r.1 == (
            v.pre is Some || (locked is Some && locked->0.pre is Some)),
            DependencyRange::Range(g) => r.0@ == g@ && r.1 == range_has_pre(g@),
        },
{
    match dependency.as_single_version() {
        Some(requested) => {
            let mut floor = requested;
            let mut allow_pre = requested.is_pre();
            match locked {
                Some(l) => {
                    allow_pre = allow_pre || l.is_pre();
                    if requested.is_less_than(&l) {
                        floor = l;
                    }
                },
                None => {},
            }
            (VersionRange::same_or_later(floor), allow_pre)
        },
        None => {
            let range = dependency.as_range();
            let allow_pre = range.contains_pre();
            (range, allow_pre)
        },
    }
}

/// A root floor is never below the locked version, and is the locked version
/// whenever that is greater than the one requested.
pub proof fn lemma_floor_preserved(requested: Version, locked: Version)
    ensures
        !version_lt(root_floor(requested, Some(locked)), locked),
        version_lt(requested, locked) ==> root_floor(requested, Some(locked)) == locked,
{
}

/// The version recorded for `name` by the first locked package of that name.
pub fn find_locked(locked: &Vec<LockedDependencyInfo>, name: &String) -> (r: Option<Version>)
    ensures
        r is None <==> forall|i: int| 0 <= i < locked@.len() ==> (#[trigger] locked@[i]).name@ != name@,
        r == locked_version(locked@, name@),
{
    let mut i: usize = 0;
    while i < locked.len()
        invariant
            i <= locked@.len(),
            forall|j: int| 0 <= j < i ==> (#[trigger] locked@[j]).name@ != name@,
        decreases locked@.len() - i,
    {
        if locked[i].name == *name {
            proof {
                let c = choose|c: int| is_first_locked(locked@, name@, c);
                assert(is_first_locked(locked@, name@, i as int));
                assert(c == i) by {
                    if c < i {
                        assert(locked@[c].name@ != name@);
                    }
                    if i < c {
                        assert(locked@[i as int].name@ != name@);
                    }
                }
            }
            return Some(locked[i].version);
        }
        i += 1;
    }
    None
}

/// What a dependency lookup comes to: the platform-restricted answer `first`, else
/// the unrestricted answer `second`, else the failure of the whole resolution.
pub fn lookup_outcome(
    first: Option<PackageInfo>,
    second: Option<PackageInfo>,
    dependency_name: &String,
) -> (r: Result<PackageInfo, AddPackageErr>)
    ensures
        first is Some ==> r == Ok::<PackageInfo, AddPackageErr>(first->0),
        first is None && second is Some ==> r == Ok::<PackageInfo, AddPackageErr>(second->0),
        first is None && second is None ==> match r {
            Err(AddPackageErr::DependencyNotFound { dependency_name: n }) => n@ == dependency_name@,
            _ => false,
        },
{
    match first {
        Some(p) => Ok(p),
        None => match second {
            Some(p) => Ok(p),
            None => Err(AddPackageErr::DependencyNotFound { dependency_name: dependency_name.clone() }),
        },
    }
}

/// The range the root `d` imposes, given the version locked for its name.
pub open spec fn root_range_of(d: DependencyRange, locked: Option<Version>) -> Seq<Interval> {
    match d {
        DependencyRange::Version(v) => at_or_after(root_floor(v, locked)),
        DependencyRange::Range(g) => g@,
    }
}

/// The record at `i` is the first locked one named `n`.
pub open spec fn is_first_locked(locked: Seq<LockedDependencyInfo>, n: Seq<char>, i: int) -> bool {
    &&& 0 <= i < locked.len()
    &&& locked[i].name@ == n
    &&& forall|j: int| 0 <= j < i ==> (#[trigger] locked[j]).name@ != n
}

/// The version of the first locked record named `n`, if any.
pub open spec fn locked_version(locked: Seq<LockedDependencyInfo>, n: Seq<char>) -> Option<Version> {
    if exists|i: int| 0 <= i < locked.len() && (#[trigger] locked[i]).name@ == n {
        Some(locked[choose|i: int| is_first_locked(locked, n, i)].version)
    } else {
        None
    }
}

/// Each of the first `upto` roots that no later one among them names again has its
/// requirement recorded on `c`.
pub open spec fn roots_recorded(
    c: ResolutionContext,
    roots: Seq<RootDependency>,
    locked: Seq<LockedDependencyInfo>,
    upto: int,
) -> bool {
    forall|k: int|
        0 <= k < upto && (forall|k2: int| k < k2 < upto ==> (#[trigger] roots[k2]).name@ != roots[k].name@)
            ==> c.req(
            (#[trigger] roots[k]).name@,
            None,
            root_range_of(roots[k].range, locked_version(locked, roots[k].name@)),
        )
}

/// In any final context the driver's success clause speaks of, an installed record
/// named by a root, whose release version lies outside that root's effective range
/// (at or after the greater of requested and locked versions, for an exact root), is
/// reported in conflict with the project itself.
pub proof fn lemma_root_conflict_reported(
    r: PackageResolutionResult,
    c: ResolutionContext,
    roots: Seq<RootDependency>,
    locked: Seq<LockedDependencyInfo>,
    k: int,
    j: int,
)
    requires
        c.wf(),
        c.installs_own_names(),
        c.installed_tied(),
        roots_recorded(c, roots, locked, roots.len() as int),
        describes(r, c),
        0 <= k < roots.len(),
        forall|k2: int| k < k2 < roots.len() ==> (#[trigger] roots[k2]).name@ != roots[k].name@,
        0 <= j < r.new_packages@.len(),
        r.new_packages@[j].name@ == roots[k].name@,
        r.new_packages@[j].version.pre is None,
        !range_matches(
            root_range_of(roots[k].range, locked_version(locked, roots[k].name@)),
            r.new_packages@[j].version,
            true,
        ),
    ensures
        conflict_listed(r.conflicts@, roots[k].name@, None),
{
    let p = r.new_packages@[j]@;
    let g = root_range_of(roots[k].range, locked_version(locked, roots[k].name@));
    assert(lists(r.new_packages@, p));
    let x = choose|x: int|
        0 <= x < c.dependencies@.len() && !(#[trigger] c.dependencies@[x]).spec_is_legacy()
            && c.dependencies@[x].using is Some && c.dependencies@[x].using->0@ == p;
    assert(c.req(roots[k].name@, None, g));
    let y = choose|y: int|
        0 <= y < c.dependencies@.len() && (#[trigger] c.dependencies@[y]).name@ == roots[k].name@
            && c.dependencies@[y].has_requirement(None, g);
    assert(x == y);
    let e = c.dependencies@[x];
    let q = choose|q: int|
        0 <= q < e.requirements@.len() && (#[trigger] e.requirements@[q]).source.key() == None::<Seq<char>>
            && e.requirements@[q].range@ == g;
    assert(!range_matches(e.requirements@[q].range@, e.current->0, e.allow_pre || c.allow_prerelease));
    assert(entry_conflicts(e, c.allow_prerelease, None));
    assert(c.conflicting(roots[k].name@, None));
}

/// In any final context the driver's success clause speaks of, an installed record
/// whose release version fails the range another installed record declares for it is
/// reported in conflict with that record.
pub proof fn lemma_installed_conflict_reported(
    r: PackageResolutionResult,
    c: ResolutionContext,
    a: int,
    b: int,
    g: Seq<Interval>,
)
    requires
        c.wf(),
        c.installs_own_names(),
        c.installed_tied(),
        describes(r, c),
        0 <= a < r.new_packages@.len(),
        0 <= b < r.new_packages@.len(),
        declared_in(r.new_packages@[b]@.dependencies, r.new_packages@[a].name@, g),
        r.new_packages@[a].version.pre is None,
        !range_matches(g, r.new_packages@[a].version, true),
    ensures
        conflict_listed(r.conflicts@, r.new_packages@[a].name@, Some(r.new_packages@[b].name@)),
{
    let pa = r.new_packages@[a]@;
    let pb = r.new_packages@[b]@;
    assert(lists(r.new_packages@, pa));
    assert(lists(r.new_packages@, pb));
    let x = choose|x: int|
        0 <= x < c.dependencies@.len() && !(#[trigger] c.dependencies@[x]).spec_is_legacy()
            && c.dependencies@[x].using is Some && c.dependencies@[x].using->0@ == pa;
    let z = choose|z: int|
        0 <= z < c.dependencies@.len() && !(#[trigger] c.dependencies@[z]).spec_is_legacy()
            && c.dependencies@[z].using is Some && c.dependencies@[z].using->0@ == pb;
    assert(declared_in(c.dependencies@[z].using->0@.dependencies, pa.name, g));
    assert(c.req(pa.name, Some(pb.name), g));
    let y = choose|y: int|
        0 <= y < c.dependencies@.len() && (#[trigger] c.dependencies@[y]).name@ == pa.name
            && c.dependencies@[y].has_requirement(Some(pb.name), g);
    assert(x == y);
    let e = c.dependencies@[x];
    let q = choose|q: int|
        0 <= q < e.requirements@.len() && (#[trigger] e.requirements@[q]).source.key() == Some(pb.name)
            && e.requirements@[q].range@ == g;
    assert(entry_conflicts(e, c.allow_prerelease, Some(pb.name)));
    assert(c.conflicting(pa.name, Some(pb.name)));
}

/// In any final context the driver's success clause speaks of, no installed record
/// declares another installed record superseded.
pub proof fn lemma_installed_not_superseded(r: PackageResolutionResult, c: ResolutionContext, a: int, b: int)
    requires
        c.wf(),
        c.installs_own_names(),
        c.installed_tied(),
        describes(r, c),
        0 <= a < r.new_packages@.len(),
        0 <= b < r.new_packages@.len(),
    ensures
        !r.new_packages@[b]@.legacy_packages.contains(r.new_packages@[a].name@),
{
    let pa = r.new_packages@[a]@;
    let pb = r.new_packages@[b]@;
    assert(lists(r.new_packages@, pa));
    assert(lists(r.new_packages@, pb));
    let x = choose|x: int|
        0 <= x < c.dependencies@.len() && !(#[trigger] c.dependencies@[x]).spec_is_legacy()
            && c.dependencies@[x].using is Some && c.dependencies@[x].using->0@ == pa;
    let z = choose|z: int|
        0 <= z < c.dependencies@.len() && !(#[trigger] c.dependencies@[z]).spec_is_legacy()
            && c.dependencies@[z].using is Some && c.dependencies@[z].using->0@ == pb;
    if pb.legacy_packages.contains(pa.name) {
        assert(c.dependencies@[z].using->0@.legacy_packages.contains(pa.name));
        assert(c.modern(pa.name, c.dependencies@[z].name@));
        let y = choose|y: int|
            0 <= y < c.dependencies@.len() && (#[trigger] c.dependencies@[y]).name@ == pa.name
                && c.dependencies@[y].is_modern(c.dependencies@[z].name@);
        assert(x == y);
    }
}

/// Root requirements survive any change that keeps every requirement of the project.
pub proof fn lemma_roots_kept(
    a: ResolutionContext,
    b: ResolutionContext,
    roots: Seq<RootDependency>,
    locked: Seq<LockedDependencyInfo>,
)
    requires
        roots_recorded(a, roots, locked, roots.len() as int),
        forall|n: Seq<char>, g: Seq<Interval>| a.req(n, None, g) ==> b.req(n, None, g),
    ensures
        roots_recorded(b, roots, locked, roots.len() as int),
{
    assert forall|k: int|
        0 <= k < roots.len() && (forall|k2: int| k < k2 < roots.len() ==> (#[trigger] roots[k2]).name@ != roots[k].name@)
            implies b.req(
        (#[trigger] roots[k]).name@,
        None,
        root_range_of(roots[k].range, locked_version(locked, roots[k].name@)),
    ) by {
        assert(a.req(roots[k].name@, None, root_range_of(roots[k].range, locked_version(locked, roots[k].name@))));
    }
}

/// The result is exactly what the result builder makes of the context `c`.
pub open spec fn describes(r: PackageResolutionResult, c: ResolutionContext) -> bool {
    &&& forall|n: Seq<char>, s: Option<Seq<char>>| conflict_listed(r.conflicts@, n, s) <==> c.conflicting(n, s)
    &&& forall|n: Seq<char>| has_name(r.found_legacy_packages@, n) <==> c.legacy_name(n)
    &&& forall|p: PackageView|
        lists(r.new_packages@, p) <==> installs(c.dependencies@, c.dependencies@.len() as int, p)
}

/// No record handed over declares a dependency, so no lookup is ever made, and every
/// locked record names each dependency once.
pub open spec fn lookup_free(packages: Seq<PackageInfo>, locked: Seq<LockedDependencyInfo>) -> bool {
    &&& forall|i: int| 0 <= i < packages.len() ==> (#[trigger] packages[i]).dependencies@.len() == 0
    &&& forall|k: int| 0 <= k < locked.len() ==> unique_names((#[trigger] locked[k]).dependencies@)
}

/// The most worklist steps one resolution takes.
pub const MAX_STEPS: u64 = 18446744073709551615;

/// A context whose worklist holds `packages`, with each root's requirement recorded.
pub fn seed_roots(
    dependencies: &Vec<RootDependency>,
    locked_dependencies: &Vec<LockedDependencyInfo>,
    packages: Vec<PackageInfo>,
    allow_prerelease: bool,
) -> (c: ResolutionContext)
    ensures
        c.wf(),
        c.installs_own_names(),
        c.none_installed(),
        c.pending_queue.pending_queue == packages,
        roots_recorded(c, dependencies@, locked_dependencies@, dependencies@.len() as int),
{
    let mut context = ResolutionContext::new(allow_prerelease, packages);
    let ghost q0 = context.pending_queue;
    let mut k: usize = 0;
    while k < dependencies.len()
        invariant
            k <= dependencies@.len(),
            context.wf(),
            context.installs_own_names(),
            context.pending_queue == q0,
            roots_recorded(context, dependencies@, locked_dependencies@, k as int),
            context.none_installed(),
        decreases dependencies@.len() - k,
    {
        let locked = find_locked(locked_dependencies, &dependencies[k].name);
        let (range, allow_pre) = root_range(&dependencies[k].range, locked);
        let ghost before = context;
        let ghost rg = range@;
        context.add_root_dependency(&dependencies[k].name, range, allow_pre);
        proof {
            let nm = dependencies@[k as int].name@;
            assert forall|j: int| 0 <= j < context.dependencies@.len() implies (
            #[trigger] context.dependencies@[j]).using is None by {
                if context.dependencies@[j].name@ != nm {
                    if j >= before.dependencies@.len() {
                        assert(!before.has_entry(nm));
                        assert(j == before.dependencies@.len());
                    }
                    assert(context.dependencies@[j] == before.dependencies@[j]);
                } else {
                    lemma_at(&context, j);
                    assert(j == context.index_of(nm));
                    if before.has_entry(nm) {
                        assert(before.dependencies@[before.index_of(nm)].using is None);
                    }
                }
            }
            let d = dependencies@;
            let lk = locked_dependencies@;
            assert(rg == root_range_of(d[k as int].range, locked_version(lk, d[k as int].name@)));
            assert forall|j: int|
                0 <= j < k + 1 && (forall|k2: int| j < k2 < k + 1 ==> (#[trigger] d[k2]).name@ != d[j].name@)
                    implies context.req(
                (#[trigger] d[j]).name@,
                None,
                root_range_of(d[j].range, locked_version(lk, d[j].name@)),
            ) by {
                if j < k {
                    assert(d[k as int].name@ != d[j].name@);
                    assert(before.req(d[j].name@, None, root_range_of(d[j].range, locked_version(lk, d[j].name@))));
                }
            }
        }
        k += 1;
    }
    context
}

/// Records each locked record in `self_ctx`. Fails where one names a dependency twice.
pub fn seed_locked<E: PackageCollection>(
    self_ctx: &mut ResolutionContext,
    dependencies: &Vec<RootDependency>,
    locked_dependencies: &Vec<LockedDependencyInfo>,
    env: &E,
) -> (r: Result<(), AddPackageErr>)
    requires
        old(self_ctx).wf(),
        old(self_ctx).installs_own_names(),
        old(self_ctx).none_installed(),
        roots_recorded(*old(self_ctx), dependencies@, locked_dependencies@, dependencies@.len() as int),
    ensures
        r is Ok <==> forall|k: int|
            0 <= k < locked_dependencies@.len() ==> unique_names((#[trigger] locked_dependencies@[k]).dependencies@),
        r is Err ==> match r {
            Err(AddPackageErr::DuplicateDependency { package_name }) => exists|k: int|
                0 <= k < locked_dependencies@.len() && (#[trigger] locked_dependencies@[k]).name@
                    == package_name@ && !unique_names(locked_dependencies@[k].dependencies@),
            _ => false,
        },
        final(self_ctx).wf(),
        final(self_ctx).installs_own_names(),
        final(self_ctx).none_installed(),
        final(self_ctx).pending_queue == old(self_ctx).pending_queue,
        roots_recorded(*final(self_ctx), dependencies@, locked_dependencies@, dependencies@.len() as int),
{
    let mut k: usize = 0;
    while k < locked_dependencies.len()
        invariant
            k <= locked_dependencies@.len(),
            self_ctx.wf(),
            self_ctx.installs_own_names(),
            self_ctx.pending_queue == old(self_ctx).pending_queue,
            forall|j: int| 0 <= j < k ==> unique_names((#[trigger] locked_dependencies@[j]).dependencies@),
            roots_recorded(*self_ctx, dependencies@, locked_dependencies@, dependencies@.len() as int),
            self_ctx.none_installed(),
        decreases locked_dependencies@.len() - k,
    {
        if !has_unique_names(&locked_dependencies[k].dependencies) {
            assert(!unique_names(locked_dependencies@[k as int].dependencies@));
            return Err(AddPackageErr::DuplicateDependency { package_name: locked_dependencies[k].name.clone() });
        }
        let ghost before = *self_ctx;
        self_ctx.add_locked_dependency(&locked_dependencies[k], env);
        proof {
            lemma_pending_kept(&before, &*self_ctx, locked_dependencies@[k as int].name@);
            lemma_roots_kept(before, *self_ctx, dependencies@, locked_dependencies@);
            let nm = locked_dependencies@[k as int].name@;
            assert forall|j: int| 0 <= j < self_ctx.dependencies@.len() implies (
            #[trigger] self_ctx.dependencies@[j]).using is None by {
                if self_ctx.dependencies@[j].name@ == nm {
                    lemma_at(&*self_ctx, j);
                    assert(j == self_ctx.index_of(nm));
                    if before.has_entry(nm) {
                        assert(before.dependencies@[before.index_of(nm)].using is None);
                    }
                } else if j < before.dependencies@.len() {
                    assert(before.dependencies@[j].using is None);
                }
            }
        }
        k += 1;
    }
    Ok(())
}

/// Resolves the packages to install: seeds the entries from the root and locked
/// dependencies, then installs pending records one by one, fetching from `env` each
/// dependency that no pending or current version satisfies, until the worklist is
/// empty. Fails as soon as a required dependency cannot be found, as soon as a locked
/// or processed record names a dependency twice, or when the worklist is still not
/// empty after `MAX_STEPS` records (which cannot happen where no lookup is made).
#[verifier::loop_isolation(false)]
#[verifier::rlimit(100)]
#[verifier::spinoff_prover]
pub fn collect_adding_packages<E: PackageCollection>(
    dependencies: &Vec<RootDependency>,
    locked_dependencies: &Vec<LockedDependencyInfo>,
    unity_version: Option<UnityVersion>,
    env: &E,
    packages: Vec<PackageInfo>,
    allow_prerelease: bool,
) -> (r: Result<PackageResolutionResult, AddPackageErr>)
    ensures
        lookup_free(packages@, locked_dependencies@) ==> r is Ok,
        (exists|k: int|
            0 <= k < locked_dependencies@.len() && !unique_names(
                (#[trigger] locked_dependencies@[k]).dependencies@,
            )) ==> match r {
            Err(AddPackageErr::DuplicateDependency { package_name }) => exists|k: int|
                0 <= k < locked_dependencies@.len() && (#[trigger] locked_dependencies@[k]).name@
                    == package_name@ && !unique_names(locked_dependencies@[k].dependencies@),
            _ => false,
        },
        r is Ok ==> exists|c: ResolutionContext|
            c.wf() && c.installs_own_names() && c.installed_tied() && c.pending_queue@.len() == 0
                && roots_recorded(
                c,
                dependencies@,
                locked_dependencies@,
                dependencies@.len() as int,
            ) && #[trigger] describes(
                r->Ok_0,
                c,
            ),
        r is Ok ==> forall|n: Seq<char>, s: Option<Seq<char>>|
            conflict_listed(r->Ok_0.conflicts@, n, s) ==> !has_name(r->Ok_0.found_legacy_packages@, n),
        r is Ok ==> forall|a: int, b: int|
            0 <= a < r->Ok_0.new_packages@.len() && 0 <= b < r->Ok_0.new_packages@.len() && a != b
                ==> (#[trigger] r->Ok_0.new_packages@[a]).name@ != (#[trigger] r->Ok_0.new_packages@[b]).name@,
        r is Ok ==> forall|j: int|
            0 <= j < r->Ok_0.conflicts@.len() ==> (#[trigger] r->Ok_0.conflicts@[j]).sources@.len() > 0,
        r is Ok ==> forall|j: int|
            0 <= j < r->Ok_0.new_packages@.len() ==> !has_name(
                r->Ok_0.found_legacy_packages@,
                (#[trigger] r->Ok_0.new_packages@[j]).name@,
            ),
{
    let count: usize = packages.len();
    let ghost pk = packages@;
    let ghost free = lookup_free(pk, locked_dependencies@);
    let mut context = seed_roots(dependencies, locked_dependencies, packages, allow_prerelease);
    let ghost q0 = context.pending_queue;
    match seed_locked(&mut context, dependencies, locked_dependencies, env) {
        Ok(()) => {},
        Err(e) => {
            return Err(e);
        },
    }
    proof {
        assert forall|q: int| free && 0 <= q < context.pending_queue@.len() implies (
        #[trigger] context.pending_queue@[q]).dependencies.len() == 0 by {
            assert(context.pending_queue@[q] == pk[q]@);
        }
    }
    let mut fuel: u64 = MAX_STEPS;
    proof {
        assert(context.installed_tied());
        assert(context.pending_queue@.len() == pk.len());
        assert(pk.len() == count);
    }
    loop
        invariant
            free == lookup_free(pk, locked_dependencies@),
            roots_recorded(context, dependencies@, locked_dependencies@, dependencies@.len() as int),
            context.installed_tied(),
            context.wf(),
            context.installs_own_names(),
            forall|j: int|
                0 <= j < locked_dependencies@.len() ==> unique_names((#[trigger] locked_dependencies@[j]).dependencies@),
            free ==> fuel as int >= context.pending_queue@.len(),
            free ==> forall|q: int|
                0 <= q < context.pending_queue@.len() ==> (#[trigger] context.pending_queue@[q]).dependencies.len() == 0,
        decreases fuel,
    {
        let x = match context.pending_queue.next_package() {
            Some(x) => x,
            None => break,
        };
        if fuel == 0 {
            return Err(AddPackageErr::NotConverged);
        }
        fuel = fuel - 1;
        if !has_unique_names(&x.dependencies) {
            proof {
                if free {
                    assert(x@.dependencies.len() == 0);
                    assert(x.dependencies@.len() == 0);
                }
            }
            return Err(AddPackageErr::DuplicateDependency { package_name: x.name });
        }
        let deps = copy_dependencies(&x.dependencies);
        let ghost xv = x@;
        proof {
            assert forall|a: int, b: int|
                0 <= a < xv.dependencies.len() && 0 <= b < xv.dependencies.len() && a != b implies (
                #[trigger] xv.dependencies[a]).0 != (#[trigger] xv.dependencies[b]).0 by {
                assert(xv.dependencies[a] == x.dependencies@[a]@);
                assert(xv.dependencies[b] == x.dependencies@[b]@);
            }
        }
        let ghost before_install = context;
        let installed_now = context.add_package(x);
        proof {
            lemma_roots_kept(before_install, context, dependencies@, locked_dependencies@);
        }
        if installed_now {
            proof {
                assert forall|j: int| 0 <= j < deps@.len() implies context.has_entry(
                    (#[trigger] deps@[j]).name@,
                ) by {
                    assert(deps_view(deps@)[j] == deps@[j]@);
                    assert(xv.dependencies[j] == deps@[j]@);
                    assert(named_in(xv.dependencies, deps@[j].name@));
                }
            }
            proof {
                if free {
                    assert(deps@.len() == deps_view(deps@).len());
                }
            }
            let mut k: usize = 0;
            while k < deps.len()
                invariant
                    k <= deps@.len(),
                    context.wf(),
                    context.installs_own_names(),
                    free == lookup_free(pk, locked_dependencies@),
                    roots_recorded(context, dependencies@, locked_dependencies@, dependencies@.len() as int),
                    context.installed_tied(),
                    forall|j: int|
                        0 <= j < locked_dependencies@.len() ==> unique_names(
                            (#[trigger] locked_dependencies@[j]).dependencies@,
                        ),
                    free ==> deps@.len() == 0,
                    free ==> fuel as int >= context.pending_queue@.len(),
                    free ==> forall|q: int|
                        0 <= q < context.pending_queue@.len() ==> (#[trigger] context.pending_queue@[q]).dependencies.len()
                            == 0,
                    forall|j: int| 0 <= j < deps@.len() ==> context.has_entry((#[trigger] deps@[j]).name@),
                decreases deps@.len() - k,
            {
                if context.should_add_package(&deps[k].name, &deps[k].range) {
                    let restricted = VersionSelector::range_for(unity_version, &deps[k].range);
                    let first = env.find_package_by_name(&deps[k].name, &restricted);
                    let second = if first.is_none() {
                        let any = VersionSelector::range_for(None, &deps[k].range);
                        env.find_package_by_name(&deps[k].name, &any)
                    } else {
                        None
                    };
                    match lookup_outcome(first, second, &deps[k].name) {
                        Ok(found) => context.pending_queue.add_pending_package(found),
                        Err(e) => {
                            return Err(e);
                        },
                    }
                }
                k += 1;
            }
        }
    }
    let ghost last = context;
    let result = context.build_result();
    proof {
        assert(roots_recorded(last, dependencies@, locked_dependencies@, dependencies@.len() as int));
        assert(last.pending_queue@.len() == 0);
        assert(last.installed_tied());
        assert(describes(result, last));
        assert forall|n: Seq<char>, s: Option<Seq<char>>|
            conflict_listed(result.conflicts@, n, s) implies !has_name(result.found_legacy_packages@, n) by {
            assert(last.conflicting(n, s));
            if has_name(result.found_legacy_packages@, n) {
                assert(last.legacy_name(n));
                let i = choose|i: int|
                    0 <= i < last.dependencies@.len() && (#[trigger] last.dependencies@[i]).name@ == n
                        && entry_conflicts(last.dependencies@[i], last.allow_prerelease, s);
                let j = choose|j: int|
                    0 <= j < last.dependencies@.len() && (#[trigger] last.dependencies@[j]).name@ == n
                        && last.dependencies@[j].spec_is_legacy();
                assert(i == j);
            }
        }
        assert forall|j: int| 0 <= j < result.new_packages@.len() implies !has_name(
            result.found_legacy_packages@,
            (#[trigger] result.new_packages@[j]).name@,
        ) by {
            let p = result.new_packages@[j]@;
            assert(lists(result.new_packages@, p));
            let x = choose|x: int|
                0 <= x < last.dependencies@.len() && !(#[trigger] last.dependencies@[x]).spec_is_legacy()
                    && last.dependencies@[x].using is Some && last.dependencies@[x].using->0@ == p;
            if has_name(result.found_legacy_packages@, p.name) {
                assert(last.legacy_name(p.name));
                let y = choose|y: int|
                    0 <= y < last.dependencies@.len() && (#[trigger] last.dependencies@[y]).name@ == p.name
                        && last.dependencies@[y].spec_is_legacy();
                assert(x == y);
            }
        }
    }
    Ok(result)
}

} // verus!
