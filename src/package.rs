use vstd::prelude::*;

use crate::version::{Interval, UnityVersion, Version, VersionRange};

verus! {

/// One declared dependency of a package: the name it requires and the admitted range.
#[derive(Debug)]
pub struct Dependency {
    pub name: String,
    pub range: VersionRange,
}

impl View for Dependency {
    type V = (Seq<char>, Seq<Interval>);

    open spec fn view(&self) -> (Seq<char>, Seq<Interval>) {
        (self.name@, self.range@)
    }
}

/// The plain content of a package record.
pub ghost struct PackageView {
    pub name: Seq<char>,
    pub version: Version,
    pub dependencies: Seq<(Seq<char>, Seq<Interval>)>,
    pub legacy_packages: Seq<Seq<char>>,
}

/// One concrete version of a package, as the environment describes it.
#[derive(Debug)]
pub struct PackageInfo {
    pub name: String,
    pub version: Version,
    pub dependencies: Vec<Dependency>,
    /// Names of the packages that this one supersedes.
    pub legacy_packages: Vec<String>,
}

pub open spec fn names_view(v: Seq<String>) -> Seq<Seq<char>> {
    v.map_values(|s: String| s@)
}

pub open spec fn deps_view(v: Seq<Dependency>) -> Seq<(Seq<char>, Seq<Interval>)> {
    v.map_values(|d: Dependency| d@)
}

impl View for PackageInfo {
    type V = PackageView;

    open spec fn view(&self) -> PackageView {
        PackageView {
            name: self.name@,
            version: self.version,
            dependencies: deps_view(self.dependencies@),
            legacy_packages: names_view(self.legacy_packages@),
        }
    }
}

/// Copies a list of names.
pub fn copy_names(v: &Vec<String>) -> (r: Vec<String>)
    ensures
        names_view(r@) == names_view(v@),
{
    let mut out: Vec<String> = Vec::new();
    let mut i: usize = 0;
    while i < v.len()
        invariant
            i <= v@.len(),
            out@.len() == i,
            forall|j: int| 0 <= j < i ==> (#[trigger] out@[j])@ == v@[j]@,
        decreases v@.len() - i,
    {
        out.push(v[i].clone());
        i += 1;
    }
    assert(names_view(out@) =~= names_view(v@));
    out
}

/// Copies a list of dependencies.
pub fn copy_dependencies(v: &Vec<Dependency>) -> (r: Vec<Dependency>)
    ensures
        deps_view(r@) == deps_view(v@),
{
    let mut out: Vec<Dependency> = Vec::new();
    let mut i: usize = 0;
    while i < v.len()
        invariant
            i <= v@.len(),
            out@.len() == i,
            forall|j: int| 0 <= j < i ==> (#[trigger] out@[j])@ == v@[j]@,
        decreases v@.len() - i,
    {
        out.push(Dependency { name: v[i].name.clone(), range: v[i].range.duplicate() });
        i += 1;
    }
    assert(deps_view(out@) =~= deps_view(v@));
    out
}

/// The names of a list of dependencies.
pub fn dependency_names(v: &Vec<Dependency>) -> (r: Vec<String>)
    ensures
        r@.len() == v@.len(),
        forall|j: int| 0 <= j < v@.len() ==> (#[trigger] r@[j])@ == v@[j].name@,
{
    let mut out: Vec<String> = Vec::new();
    let mut i: usize = 0;
    while i < v.len()
        invariant
            i <= v@.len(),
            out@.len() == i,
            forall|j: int| 0 <= j < i ==> (#[trigger] out@[j])@ == v@[j].name@,
        decreases v@.len() - i,
    {
        out.push(v[i].name.clone());
        i += 1;
    }
    out
}

/// No two dependencies of the list share a name.
pub open spec fn unique_names(v: Seq<Dependency>) -> bool {
    forall|i: int, j: int|
        0 <= i < v.len() && 0 <= j < v.len() && i != j ==> (#[trigger] v[i]).name@ != (#[trigger] v[j]).name@
}

/// Whether no two dependencies of the list share a name.
pub fn has_unique_names(v: &Vec<Dependency>) -> (r: bool)
    ensures
        r == unique_names(v@),
{
    let mut i: usize = 0;
    while i < v.len()
        invariant
            i <= v@.len(),
            forall|a: int, b: int|
                0 <= a < i && 0 <= b < v@.len() && a != b ==> (#[trigger] v@[a]).name@ != (
                #[trigger] v@[b]).name@,
        decreases v@.len() - i,
    {
        let mut j: usize = 0;
        while j < v.len()
            invariant
                i < v@.len(),
                j <= v@.len(),
                forall|a: int, b: int|
                    0 <= a < i && 0 <= b < v@.len() && a != b ==> (#[trigger] v@[a]).name@ != (
                    #[trigger] v@[b]).name@,
                forall|b: int| 0 <= b < j && b != i ==> v@[i as int].name@ != (#[trigger] v@[b]).name@,
            decreases v@.len() - j,
        {
            if j != i && v[i].name == v[j].name {
                return false;
            }
            j += 1;
        }
        i += 1;
    }
    true
}

/// No two dependencies of the record share a name.
pub open spec fn unique_dependencies(p: PackageView) -> bool {
    forall|i: int, j: int|
        0 <= i < p.dependencies.len() && 0 <= j < p.dependencies.len() && i != j
            ==> (#[trigger] p.dependencies[i]).0 != (#[trigger] p.dependencies[j]).0
}

/// The list declares a dependency on `n` with the range `g`.
pub open spec fn declared_in(d: Seq<(Seq<char>, Seq<Interval>)>, n: Seq<char>, g: Seq<Interval>) -> bool {
    exists|i: int| 0 <= i < d.len() && (#[trigger] d[i]) == (n, g)
}

/// The list declares a dependency on `n`.
pub open spec fn named_in(d: Seq<(Seq<char>, Seq<Interval>)>, n: Seq<char>) -> bool {
    exists|i: int| 0 <= i < d.len() && (#[trigger] d[i]).0 == n
}

/// One more declaration of a list without repeated names: the name it adds is
/// declared with its own range only.
pub proof fn lemma_declared_step(
    d: Seq<(Seq<char>, Seq<Interval>)>,
    k: int,
    n: Seq<char>,
    g: Seq<Interval>,
)
    requires
        0 <= k < d.len(),
        forall|i: int, j: int| 0 <= i < d.len() && 0 <= j < d.len() && i != j ==> (#[trigger] d[i]).0 != (#[trigger] d[j]).0,
    ensures
        named_in(d.subrange(0, k + 1), n) <==> (named_in(d.subrange(0, k), n) || n == d[k].0),
        declared_in(d.subrange(0, k + 1), n, g) <==> if n == d[k].0 {
            g == d[k].1
        } else {
            declared_in(d.subrange(0, k), n, g)
        },
        !named_in(d.subrange(0, k), d[k].0),
{
    let a = d.subrange(0, k);
    let b = d.subrange(0, k + 1);
    assert(b[k] == d[k]);
    if named_in(a, n) {
        let i = choose|i: int| 0 <= i < a.len() && (#[trigger] a[i]).0 == n;
        assert(b[i] == a[i]);
    }
    if named_in(b, n) && n != d[k].0 {
        let i = choose|i: int| 0 <= i < b.len() && (#[trigger] b[i]).0 == n;
        assert(b[i] == a[i]);
    }
    if declared_in(a, n, g) {
        let i = choose|i: int| 0 <= i < a.len() && (#[trigger] a[i]) == (n, g);
        assert(b[i] == a[i]);
        assert(a[i] == d[i]);
    }
    if declared_in(b, n, g) {
        let i = choose|i: int| 0 <= i < b.len() && (#[trigger] b[i]) == (n, g);
        if i < k {
            assert(b[i] == a[i]);
            assert(a[i] == d[i]);
        }
    }
    if named_in(a, d[k].0) {
        let i = choose|i: int| 0 <= i < a.len() && (#[trigger] a[i]).0 == d[k].0;
        assert(a[i] == d[i]);
    }
}

impl PackageInfo {
    /// A copy of this record.
    pub fn duplicate(&self) -> (r: PackageInfo)
        ensures
            r@ == self@,
    {
        PackageInfo {
            name: self.name.clone(),
            version: self.version,
            dependencies: copy_dependencies(&self.dependencies),
            legacy_packages: copy_names(&self.legacy_packages),
        }
    }
}

/// What a lookup in the package environment asks for.
#[derive(Debug)]
pub enum VersionSelector {
    /// Exactly this version.
    Specific(Version),
    /// The best version in the range, compatible with the platform version if one is given.
    Range(Option<UnityVersion>, VersionRange),
}

impl VersionSelector {
    pub fn specific_version(v: Version) -> (r: VersionSelector)
        ensures
            r == VersionSelector::Specific(v),
    {
        VersionSelector::Specific(v)
    }

    pub fn range_for(unity: Option<UnityVersion>, range: &VersionRange) -> (r: VersionSelector)
        ensures
            match r {
                VersionSelector::Range(u, rg) => u == unity && rg@ == range@,
                _ => false,
            },
    {
        VersionSelector::Range(unity, range.duplicate())
    }
}

/// The package environment: answers which version of a package satisfies a selector.
/// Implementations are expected to answer the same query the same way during one
/// resolution.
pub trait PackageCollection {
    fn find_package_by_name(&self, name: &String, selector: &VersionSelector) -> Option<PackageInfo>;
}

} // verus!
