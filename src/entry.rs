use vstd::prelude::*;

use crate::package::{names_view, PackageInfo};
use crate::version::{Interval, Version, VersionRange};

verus! {

/// Who imposes a requirement: the project itself, or a package by name.
#[derive(Debug)]
pub enum RequirementSource {
    Root,
    Package(String),
}

impl RequirementSource {
    /// `None` for the project itself, else the requiring package's name.
    pub open spec fn key(&self) -> Option<Seq<char>> {
        match self {
            RequirementSource::Root => None,
            RequirementSource::Package(n) => Some(n@),
        }
    }

    pub fn duplicate(&self) -> (r: RequirementSource)
        ensures
            r.key() == self.key(),
    {
        match self {
            RequirementSource::Root => RequirementSource::Root,
            RequirementSource::Package(n) => RequirementSource::Package(n.clone()),
        }
    }

    pub fn same_as(&self, other: &RequirementSource) -> (r: bool)
        ensures
            r == (self.key() == other.key()),
    {
        match (self, other) {
            (RequirementSource::Root, RequirementSource::Root) => true,
            (RequirementSource::Package(a), RequirementSource::Package(b)) => {
                let r = a.eq(b);
                r
            },
            _ => false,
        }
    }
}

/// A requirement edge: `source` requires the entry's package to lie in `range`.
#[derive(Debug)]
pub struct Requirement {
    pub source: RequirementSource,
    pub range: VersionRange,
}

/// Whether the list holds the name `n`.
pub open spec fn has_name(v: Seq<String>, n: Seq<char>) -> bool {
    exists|i: int| 0 <= i < v.len() && (#[trigger] v[i])@ == n
}

/// Membership in a list of names is membership in its view.
pub proof fn lemma_has_name_view(v: Seq<String>, n: Seq<char>)
    ensures
        has_name(v, n) <==> names_view(v).contains(n),
{
    if has_name(v, n) {
        let i = choose|i: int| 0 <= i < v.len() && (#[trigger] v[i])@ == n;
        assert(names_view(v)[i] == n);
    }
    if names_view(v).contains(n) {
        let i = choose|i: int| 0 <= i < names_view(v).len() && names_view(v)[i] == n;
        assert(v[i]@ == n);
    }
}

/// One more name of a list: the prefix holds it, or it is the added one.
pub proof fn lemma_name_step(v: Seq<String>, k: int, n: Seq<char>)
    requires
        0 <= k < v.len(),
    ensures
        has_name(v.subrange(0, k + 1), n) <==> (has_name(v.subrange(0, k), n) || v[k]@ == n),
{
    let a = v.subrange(0, k);
    let b = v.subrange(0, k + 1);
    assert(b[k] == v[k]);
    if has_name(a, n) {
        let i = choose|i: int| 0 <= i < a.len() && (#[trigger] a[i])@ == n;
        assert(b[i] == a[i]);
    }
    if has_name(b, n) && v[k]@ != n {
        let i = choose|i: int| 0 <= i < b.len() && (#[trigger] b[i])@ == n;
        assert(b[i] == a[i]);
    }
}

/// Whether the list holds the requirement edge (`src`, `r`).
pub open spec fn has_edge(v: Seq<Requirement>, src: Option<Seq<char>>, r: Seq<Interval>) -> bool {
    exists|i: int| 0 <= i < v.len() && (#[trigger] v[i]).source.key() == src && v[i].range@ == r
}

/// Whether the name `name` occurs in the list.
pub fn contains_name(v: &Vec<String>, name: &String) -> (r: bool)
    ensures
        r == has_name(v@, name@),
{
    let mut i: usize = 0;
    while i < v.len()
        invariant
            i <= v@.len(),
            forall|j: int| 0 <= j < i ==> (#[trigger] v@[j])@ != name@,
        decreases v@.len() - i,
    {
        if v[i] == *name {
            return true;
        }
        i += 1;
    }
    false
}

/// The list without any occurrence of `name`.
pub fn without_name(v: &Vec<String>, name: &String) -> (r: Vec<String>)
    ensures
        forall|n: Seq<char>| has_name(r@, n) <==> (has_name(v@, n) && n != name@),
{
    let mut out: Vec<String> = Vec::new();
    let mut i: usize = 0;
    while i < v.len()
        invariant
            i <= v@.len(),
            forall|k: int|
                0 <= k < out@.len() ==> (#[trigger] out@[k])@ != name@ && exists|j: int|
                    0 <= j < i && out@[k]@ == (#[trigger] v@[j])@,
            forall|j: int|
                0 <= j < i && (#[trigger] v@[j])@ != name@ ==> exists|k: int|
                    0 <= k < out@.len() && (#[trigger] out@[k])@ == v@[j]@,
        decreases v@.len() - i,
    {
        if v[i] != *name {
            let ghost before = out@;
            out.push(v[i].clone());
            assert forall|j: int|
                0 <= j < i + 1 && (#[trigger] v@[j])@ != name@ implies exists|k: int|
                0 <= k < out@.len() && (#[trigger] out@[k])@ == v@[j]@ by {
                if j < i {
                    let k = choose|k: int| 0 <= k < before.len() && (#[trigger] before[k])@ == v@[j]@;
                    assert(out@[k] == before[k]);
                } else {
                    assert(out@[out@.len() - 1]@ == v@[j]@);
                }
            }
        }
        i += 1;
    }
    assert forall|n: Seq<char>| has_name(out@, n) <==> (has_name(v@, n) && n != name@) by {
        if has_name(v@, n) && n != name@ {
            let j = choose|j: int| 0 <= j < v@.len() && (#[trigger] v@[j])@ == n;
            assert(v@[j]@ != name@);
        }
        if has_name(out@, n) {
            let k = choose|k: int| 0 <= k < out@.len() && (#[trigger] out@[k])@ == n;
            let j = choose|j: int| 0 <= j < v@.len() && out@[k]@ == (#[trigger] v@[j])@;
            assert(v@[j]@ == n);
        }
    }
    out
}

/// Everything known, during one resolution, about one package name.
#[derive(Debug)]
pub struct DependencyInfo {
    /// The package name this entry is about.
    pub name: String,
    /// The package record chosen for installation, if any.
    pub using: Option<PackageInfo>,
    /// The version currently in effect, from lock data or installation.
    pub current: Option<Version>,
    /// Requirement edges; `add_range` keeps one per source.
    pub requirements: Vec<Requirement>,
    /// The names that this entry's package currently requires.
    pub dependencies: Vec<String>,
    /// The packages that declare this one as superseded.
    pub modern_packages: Vec<String>,
    /// The names that this entry's package declares as superseded.
    pub legacy_packages: Vec<String>,
    pub allow_pre: bool,
    /// Whether this entry was installed or updated during the run.
    pub touched: bool,
}

impl DependencyInfo {
    pub open spec fn has_requirement(&self, src: Option<Seq<char>>, r: Seq<Interval>) -> bool {
        has_edge(self.requirements@, src, r)
    }

    pub open spec fn is_modern(&self, n: Seq<char>) -> bool {
        has_name(self.modern_packages@, n)
    }

    /// Whether this entry is superseded by some package.
    pub open spec fn spec_is_legacy(&self) -> bool {
        self.modern_packages@.len() > 0
    }

    /// Equal in everything but the requirement edges and the touched mark.
    pub open spec fn same_but_requirements(&self, o: &DependencyInfo) -> bool {
        &&& self.name == o.name
        &&& self.using == o.using
        &&& self.current == o.current
        &&& self.dependencies == o.dependencies
        &&& self.modern_packages == o.modern_packages
        &&& self.legacy_packages == o.legacy_packages
        &&& self.allow_pre == o.allow_pre
    }

    /// Equal in everything but the modern packages and the touched mark.
    pub open spec fn same_but_modern(&self, o: &DependencyInfo) -> bool {
        &&& self.name == o.name
        &&& self.using == o.using
        &&& self.current == o.current
        &&& self.requirements == o.requirements
        &&& self.dependencies == o.dependencies
        &&& self.legacy_packages == o.legacy_packages
        &&& self.allow_pre == o.allow_pre
    }

    /// A fresh entry for `name`, about which nothing is known yet.
    pub open spec fn spec_empty(&self, name: Seq<char>) -> bool {
        &&& self.name@ == name
        &&& self.using is None
        &&& self.current is None
        &&& self.requirements@.len() == 0
        &&& self.dependencies@.len() == 0
        &&& self.modern_packages@.len() == 0
        &&& self.legacy_packages@.len() == 0
        &&& !self.allow_pre
        &&& !self.touched
    }

    pub fn empty(name: String) -> (r: DependencyInfo)
        ensures
            r.spec_empty(name@),
    {
        DependencyInfo {
            name,
            using: None,
            current: None,
            requirements: Vec::new(),
            dependencies: Vec::new(),
            modern_packages: Vec::new(),
            legacy_packages: Vec::new(),
            allow_pre: false,
            touched: false,
        }
    }

    /// A fresh entry with a single requirement of the project itself.
    pub fn new_dependency(name: String, range: VersionRange, allow_pre: bool) -> (r: DependencyInfo)
        ensures
            r.name@ == name@,
            r.using is None,
            r.current is None,
            forall|s: Option<Seq<char>>, g: Seq<Interval>|
                r.has_requirement(s, g) <==> (s is None && g == range@),
            r.requirements@.len() == 1,
            r.dependencies@.len() == 0,
            r.modern_packages@.len() == 0,
            r.legacy_packages@.len() == 0,
            r.allow_pre == allow_pre,
            !r.touched,
    {
        let mut requirements: Vec<Requirement> = Vec::new();
        requirements.push(Requirement { source: RequirementSource::Root, range });
        let r = DependencyInfo {
            name,
            using: None,
            current: None,
            requirements,
            dependencies: Vec::new(),
            modern_packages: Vec::new(),
            legacy_packages: Vec::new(),
            allow_pre,
            touched: false,
        };
        assert forall|s: Option<Seq<char>>, g: Seq<Interval>|
            r.has_requirement(s, g) <==> (s is None && g == range@) by {
            if s is None && g == range@ {
                assert(r.requirements@[0].source.key() == s);
            }
        }
        r
    }

    /// Sets the requirement of `source`, replacing any earlier one of the same source,
    /// and marks the entry touched.
    pub fn add_range(&mut self, source: RequirementSource, range: VersionRange)
        ensures
            forall|s: Option<Seq<char>>, g: Seq<Interval>|
                final(self).has_requirement(s, g) <==> if s == source.key() {
                    g == range@
                } else {
                    old(self).has_requirement(s, g)
                },
            final(self).same_but_requirements(old(self)),
            final(self).touched,
    {
        self.touched = true;
        self.insert_range(source, range);
    }

    /// Sets the requirement of `source`, replacing any earlier one of the same source.
    pub fn insert_range(&mut self, source: RequirementSource, range: VersionRange)
        ensures
            forall|s: Option<Seq<char>>, g: Seq<Interval>|
                final(self).has_requirement(s, g) <==> if s == source.key() {
                    g == range@
                } else {
                    old(self).has_requirement(s, g)
                },
            final(self).same_but_requirements(old(self)),
            final(self).touched == old(self).touched,
    {
        self.drop_range(&source);
        let ghost mid = self.requirements@;
        self.requirements.push(Requirement { source, range });
        let ghost last = self.requirements@.len() - 1;
        assert forall|s: Option<Seq<char>>, g: Seq<Interval>|
            self.has_requirement(s, g) <==> if s == self.requirements@[last].source.key() {
                g == self.requirements@[last].range@
            } else {
                old(self).has_requirement(s, g)
            } by {
            if has_edge(mid, s, g) {
                let i = choose|i: int|
                    0 <= i < mid.len() && (#[trigger] mid[i]).source.key() == s && mid[i].range@ == g;
                assert(self.requirements@[i] == mid[i]);
            }
            if self.has_requirement(s, g) {
                let i = choose|i: int|
                    0 <= i < self.requirements@.len() && (#[trigger] self.requirements@[i]).source.key()
                        == s && self.requirements@[i].range@ == g;
                if i < mid.len() {
                    assert(mid[i] == self.requirements@[i]);
                }
            }
        }
    }

    /// Drops the requirement of `source`, if there is one, and marks the entry touched.
    pub fn remove_range(&mut self, source: &RequirementSource)
        ensures
            forall|s: Option<Seq<char>>, g: Seq<Interval>|
                final(self).has_requirement(s, g) <==> (s != source.key() && old(
                    self,
                ).has_requirement(s, g)),
            final(self).same_but_requirements(old(self)),
            final(self).touched,
    {
        self.touched = true;
        self.drop_range(source);
    }

    /// Drops the requirement of `source`, if there is one.
    fn drop_range(&mut self, source: &RequirementSource)
        ensures
            forall|s: Option<Seq<char>>, g: Seq<Interval>|
                final(self).has_requirement(s, g) <==> (s != source.key() && old(
                    self,
                ).has_requirement(s, g)),
            final(self).same_but_requirements(old(self)),
            final(self).touched == old(self).touched,
    {
        let mut kept: Vec<Requirement> = Vec::new();
        let mut i: usize = 0;
        while i < self.requirements.len()
            invariant
                i <= self.requirements@.len(),
                forall|k: int|
                    0 <= k < kept@.len() ==> (#[trigger] kept@[k]).source.key() != source.key()
                        && exists|j: int|
                        0 <= j < i && kept@[k].source.key() == (#[trigger] self.requirements@[j]).source.key()
                            && kept@[k].range@ == self.requirements@[j].range@,
                forall|j: int|
                    0 <= j < i && (#[trigger] self.requirements@[j]).source.key() != source.key()
                        ==> exists|k: int|
                        0 <= k < kept@.len() && (#[trigger] kept@[k]).source.key()
                            == self.requirements@[j].source.key() && kept@[k].range@
                            == self.requirements@[j].range@,
            decreases self.requirements@.len() - i,
        {
            if !self.requirements[i].source.same_as(source) {
                let ghost before = kept@;
                let src = self.requirements[i].source.duplicate();
                let range = self.requirements[i].range.duplicate();
                kept.push(Requirement { source: src, range });
                assert forall|j: int|
                    0 <= j < i + 1 && (#[trigger] self.requirements@[j]).source.key() != source.key()
                        implies exists|k: int|
                    0 <= k < kept@.len() && (#[trigger] kept@[k]).source.key()
                        == self.requirements@[j].source.key() && kept@[k].range@
                        == self.requirements@[j].range@ by {
                    if j < i {
                        let k = choose|k: int|
                            0 <= k < before.len() && (#[trigger] before[k]).source.key()
                                == self.requirements@[j].source.key() && before[k].range@
                                == self.requirements@[j].range@;
                        assert(kept@[k] == before[k]);
                    } else {
                        assert(kept@[kept@.len() - 1].source.key() == self.requirements@[j].source.key());
                    }
                }
            }
            i += 1;
        }
        let ghost prev = self.requirements@;
        assert forall|s: Option<Seq<char>>, g: Seq<Interval>|
            has_edge(kept@, s, g) <==> (s != source.key() && has_edge(prev, s, g)) by {
            if s != source.key() && has_edge(prev, s, g) {
                let j = choose|j: int|
                    0 <= j < prev.len() && (#[trigger] prev[j]).source.key() == s && prev[j].range@ == g;
                assert(prev[j].source.key() != source.key());
            }
            if has_edge(kept@, s, g) {
                let k = choose|k: int|
                    0 <= k < kept@.len() && (#[trigger] kept@[k]).source.key() == s && kept@[k].range@ == g;
                let j = choose|j: int|
                    0 <= j < prev.len() && kept@[k].source.key() == (#[trigger] prev[j]).source.key()
                        && kept@[k].range@ == prev[j].range@;
                assert(prev[j].source.key() == s);
            }
        }
        self.requirements = kept;
    }

    /// Records that `modern` supersedes this package, and marks the entry touched.
    pub fn add_modern_package(&mut self, modern: &String)
        ensures
            forall|n: Seq<char>| final(self).is_modern(n) <==> (n == modern@ || old(self).is_modern(n)),
            final(self).modern_packages@.len() > 0,
            final(self).same_but_modern(old(self)),
            final(self).touched,
    {
        self.touched = true;
        self.insert_modern(modern);
    }

    /// Records that `modern` supersedes this package.
    pub fn insert_modern(&mut self, modern: &String)
        ensures
            forall|n: Seq<char>| final(self).is_modern(n) <==> (n == modern@ || old(self).is_modern(n)),
            final(self).modern_packages@.len() > 0,
            final(self).same_but_modern(old(self)),
            final(self).touched == old(self).touched,
    {
        if !contains_name(&self.modern_packages, modern) {
            let ghost before = self.modern_packages@;
            self.modern_packages.push(modern.clone());
            assert forall|n: Seq<char>|
                self.is_modern(n) <==> (n == modern@ || has_name(before, n)) by {
                if has_name(before, n) {
                    let i = choose|i: int| 0 <= i < before.len() && (#[trigger] before[i])@ == n;
                    assert(self.modern_packages@[i] == before[i]);
                }
                if n == modern@ {
                    assert(self.modern_packages@[before.len() as int]@ == n);
                }
                if self.is_modern(n) && n != modern@ {
                    let i = choose|i: int|
                        0 <= i < self.modern_packages@.len() && (#[trigger] self.modern_packages@[i])@
                            == n;
                    assert(before[i] == self.modern_packages@[i]);
                }
            }
        }
    }

    /// Withdraws the record that `modern` supersedes this package.
    pub fn remove_modern_package(&mut self, modern: &String)
        ensures
            forall|n: Seq<char>| final(self).is_modern(n) <==> (n != modern@ && old(self).is_modern(n)),
            final(self).same_but_modern(old(self)),
            final(self).touched,
    {
        self.modern_packages = without_name(&self.modern_packages, modern);
        self.touched = true;
    }

    /// Whether some package supersedes this one.
    pub fn is_legacy(&self) -> (r: bool)
        ensures
            r == self.spec_is_legacy(),
    {
        self.modern_packages.len() > 0
    }

    /// Admits prereleases for this entry.
    pub fn allow_prereleases(&mut self)
        ensures
            final(self).allow_pre,
            final(self).name == old(self).name,
            final(self).using == old(self).using,
            final(self).current == old(self).current,
            final(self).requirements == old(self).requirements,
            final(self).dependencies == old(self).dependencies,
            final(self).modern_packages == old(self).modern_packages,
            final(self).legacy_packages == old(self).legacy_packages,
            final(self).touched == old(self).touched,
    {
        self.allow_pre = true;
    }

    /// Records a version already resolved earlier, with the names it requires.
    pub fn set_using_info(&mut self, version: Version, dependencies: Vec<String>)
        ensures
            final(self).current == Some(version),
            final(self).dependencies == dependencies,
            final(self).allow_pre == (old(self).allow_pre || version.pre is Some),
            final(self).name == old(self).name,
            final(self).using == old(self).using,
            final(self).requirements == old(self).requirements,
            final(self).modern_packages == old(self).modern_packages,
            final(self).legacy_packages == old(self).legacy_packages,
            final(self).touched == old(self).touched,
    {
        self.allow_pre = self.allow_pre || version.is_pre();
        self.current = Some(version);
        self.dependencies = dependencies;
    }

    /// Installs `package`: its version becomes current, and its required and
    /// superseded names replace this entry's.
    pub fn install(&mut self, package: PackageInfo, dependencies: Vec<String>, legacy_packages: Vec<String>)
        ensures
            final(self).name == old(self).name,
            final(self).current == Some(package.version),
            final(self).using == Some(package),
            final(self).dependencies == dependencies,
            final(self).legacy_packages == legacy_packages,
            final(self).requirements == old(self).requirements,
            final(self).modern_packages == old(self).modern_packages,
            final(self).allow_pre == old(self).allow_pre,
            final(self).touched,
    {
        self.touched = true;
        self.current = Some(package.version);
        self.using = Some(package);
        self.dependencies = dependencies;
        self.legacy_packages = legacy_packages;
    }
}

/// A superseded entry is exactly one with some superseding package.
pub proof fn lemma_legacy_iff_modern(e: &DependencyInfo)
    ensures
        e.spec_is_legacy() <==> exists|n: Seq<char>| e.is_modern(n),
{
    if e.spec_is_legacy() {
        assert(e.is_modern(e.modern_packages@[0]@));
    }
}

} // verus!
