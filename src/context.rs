use vstd::prelude::*;

use crate::entry::{has_name, lemma_has_name_view, lemma_name_step, DependencyInfo, RequirementSource};
use crate::package::{
    copy_dependencies, copy_names, declared_in, dependency_names, deps_view, lemma_declared_step,
    named_in, names_view, unique_dependencies, unique_names, Dependency, PackageCollection, PackageInfo,
    VersionSelector,
};
use crate::queue::{is_first_pending, PackageQueue};
use crate::version::{range_matches, Interval, VersionRange};
use crate::resolution::LockedDependencyInfo;

verus! {

/// The entry table and the pending worklist of one resolution.
#[derive(Debug)]
pub struct ResolutionContext {
    pub allow_prerelease: bool,
    pub pending_queue: PackageQueue,
    /// One entry per package name ever referenced.
    pub dependencies: Vec<DependencyInfo>,
}

impl ResolutionContext {
    /// No two entries share a name.
    pub open spec fn wf(&self) -> bool {
        forall|i: int, j: int|
            0 <= i < self.dependencies@.len() && 0 <= j < self.dependencies@.len() && i != j
                ==> (#[trigger] self.dependencies@[i]).name@ != (#[trigger] self.dependencies@[j]).name@
    }

    pub open spec fn has_entry(&self, n: Seq<char>) -> bool {
        exists|i: int|
            0 <= i < self.dependencies@.len() && (#[trigger] self.dependencies@[i]).name@ == n
    }

    /// `s` requires the package `n` to lie in `g`.
    pub open spec fn req(&self, n: Seq<char>, s: Option<Seq<char>>, g: Seq<Interval>) -> bool {
        exists|i: int|
            0 <= i < self.dependencies@.len() && (#[trigger] self.dependencies@[i]).name@ == n
                && self.dependencies@[i].has_requirement(s, g)
    }

    /// The package `m` supersedes the package `n`.
    pub open spec fn modern(&self, n: Seq<char>, m: Seq<char>) -> bool {
        exists|i: int|
            0 <= i < self.dependencies@.len() && (#[trigger] self.dependencies@[i]).name@ == n
                && self.dependencies@[i].is_modern(m)
    }

    /// The index of the entry named `n`, where there is one.
    pub open spec fn index_of(&self, n: Seq<char>) -> int {
        choose|i: int| 0 <= i < self.dependencies@.len() && (#[trigger] self.dependencies@[i]).name@ == n
    }

    /// Whether the entry named `n` exists and is superseded.
    pub open spec fn legacy_name(&self, n: Seq<char>) -> bool {
        exists|i: int|
            0 <= i < self.dependencies@.len() && (#[trigger] self.dependencies@[i]).name@ == n
                && self.dependencies@[i].spec_is_legacy()
    }

    /// The names that the package `n` requires, as its entry records them.
    pub open spec fn requires_of(&self, n: Seq<char>) -> Seq<String> {
        if self.has_entry(n) {
            self.dependencies@[self.index_of(n)].dependencies@
        } else {
            Seq::empty()
        }
    }

    /// The names that the package `n` supersedes, as its entry records them.
    pub open spec fn supersedes_of(&self, n: Seq<char>) -> Seq<String> {
        if self.has_entry(n) {
            self.dependencies@[self.index_of(n)].legacy_packages@
        } else {
            Seq::empty()
        }
    }

    /// Whether the dependency `n`, required in `g`, must be fetched: never for a
    /// superseded name; otherwise unless the first pending record of that name, or else
    /// the current version, lies in `g` (prereleases admitted by the entry or globally).
    pub open spec fn fetch_needed(&self, n: Seq<char>, g: Seq<Interval>) -> bool {
        let e = self.dependencies@[self.index_of(n)];
        let allow = e.allow_pre || self.allow_prerelease;
        let q = self.pending_queue@;
        if e.spec_is_legacy() {
            false
        } else if exists|i: int| 0 <= i < q.len() && (#[trigger] q[i]).name == n {
            let i = choose|i: int| is_first_pending(q, n, i);
            !range_matches(g, q[i].version, allow)
        } else {
            match e.current {
                Some(v) => !range_matches(g, v, allow),
                None => true,
            }
        }
    }

    /// No entry has an installed record yet.
    pub open spec fn none_installed(&self) -> bool {
        forall|i: int| 0 <= i < self.dependencies@.len() ==> (#[trigger] self.dependencies@[i]).using is None
    }

    /// Every installed entry's version is its record's, and the entry is touched.
    pub open spec fn installed_current(&self) -> bool {
        forall|i: int|
            0 <= i < self.dependencies@.len() && (#[trigger] self.dependencies@[i]).using is Some
                ==> self.dependencies@[i].current == Some(self.dependencies@[i].using->0.version)
                && self.dependencies@[i].touched
    }

    /// Every dependency an installed record declares is required by it.
    pub open spec fn installed_edges(&self) -> bool {
        forall|i: int, d: Seq<char>, g: Seq<Interval>|
            0 <= i < self.dependencies@.len() && self.dependencies@[i].using is Some && #[trigger] declared_in(
                self.dependencies@[i].using->0@.dependencies,
                d,
                g,
            ) ==> self.req(d, Some(self.dependencies@[i].name@), g)
    }

    /// Every name an installed record declares superseded is superseded by it.
    pub open spec fn installed_supersedes(&self) -> bool {
        forall|i: int, l: Seq<char>|
            0 <= i < self.dependencies@.len() && self.dependencies@[i].using is Some
                && #[trigger] self.dependencies@[i].using->0@.legacy_packages.contains(l) ==> self.modern(
                l,
                self.dependencies@[i].name@,
            )
    }

    /// The three facts above that tie installed records to the table.
    pub open spec fn installed_tied(&self) -> bool {
        self.installed_current() && self.installed_edges() && self.installed_supersedes()
    }

    /// Every installed record sits in the entry of its own name.
    pub open spec fn installs_own_names(&self) -> bool {
        forall|i: int|
            0 <= i < self.dependencies@.len() && (#[trigger] self.dependencies@[i]).using is Some
                ==> self.dependencies@[i].using->0.name@ == self.dependencies@[i].name@
    }

    /// Entries keep their place and name; all but the one named `n` keep every field
    /// but the edges, and new ones other than `n` know nothing but edges.
    pub open spec fn keeps_fields_except(&self, o: &ResolutionContext, n: Seq<char>) -> bool {
        &&& self.allow_prerelease == o.allow_prerelease
        &&& self.pending_queue == o.pending_queue
        &&& o.dependencies@.len() <= self.dependencies@.len()
        &&& forall|i: int|
            0 <= i < o.dependencies@.len() ==> (#[trigger] self.dependencies@[i]).name
                == o.dependencies@[i].name
        &&& forall|i: int|
            0 <= i < o.dependencies@.len() && o.dependencies@[i].name@ != n ==> {
                let a = #[trigger] self.dependencies@[i];
                let b = o.dependencies@[i];
                &&& a.using == b.using
                &&& a.current == b.current
                &&& a.dependencies == b.dependencies
                &&& a.legacy_packages == b.legacy_packages
                &&& a.allow_pre == b.allow_pre
                &&& (b.touched ==> a.touched)
            }
        &&& forall|i: int|
            o.dependencies@.len() <= i < self.dependencies@.len() && self.dependencies@[i].name@ != n
                ==> {
                let a = #[trigger] self.dependencies@[i];
                &&& a.using is None
                &&& a.current is None
                &&& a.dependencies@.len() == 0
                &&& a.legacy_packages@.len() == 0
                &&& !a.allow_pre
            }
    }

    /// Entries keep their place and name, and keep every field but the edges; new
    /// entries know nothing but edges.
    pub open spec fn evolves_from(&self, o: &ResolutionContext) -> bool {
        &&& self.allow_prerelease == o.allow_prerelease
        &&& self.pending_queue == o.pending_queue
        &&& o.dependencies@.len() <= self.dependencies@.len()
        &&& forall|i: int|
            0 <= i < o.dependencies@.len() ==> {
                let a = #[trigger] self.dependencies@[i];
                let b = o.dependencies@[i];
                &&& a.name == b.name
                &&& a.using == b.using
                &&& a.current == b.current
                &&& a.dependencies == b.dependencies
                &&& a.legacy_packages == b.legacy_packages
                &&& a.allow_pre == b.allow_pre
                &&& (b.touched ==> a.touched)
            }
        &&& forall|i: int|
            o.dependencies@.len() <= i < self.dependencies@.len() ==> {
                let a = #[trigger] self.dependencies@[i];
                &&& a.using is None
                &&& a.current is None
                &&& a.dependencies@.len() == 0
                &&& a.legacy_packages@.len() == 0
                &&& !a.allow_pre
            }
    }
}

/// Evolving is transitive.
pub proof fn lemma_evolves_trans(a: &ResolutionContext, b: &ResolutionContext, c: &ResolutionContext)
    requires
        b.evolves_from(a),
        c.evolves_from(b),
    ensures
        c.evolves_from(a),
{
    assert forall|i: int| a.dependencies@.len() <= i < c.dependencies@.len() implies {
        let e = #[trigger] c.dependencies@[i];
        &&& e.using is None
        &&& e.current is None
        &&& e.dependencies@.len() == 0
        &&& e.legacy_packages@.len() == 0
        &&& !e.allow_pre
    } by {
        if i < b.dependencies@.len() {
            assert(b.dependencies@[i].using is None);
        }
    }
}

/// Evolving, changing the one entry at `i`, then evolving again keeps every entry
/// but the one of that name.
pub proof fn lemma_keeps(
    a: &ResolutionContext,
    b: &ResolutionContext,
    c: &ResolutionContext,
    d: &ResolutionContext,
    i: int,
)
    requires
        b.evolves_from(a),
        b.wf(),
        0 <= i < b.dependencies@.len(),
        c.dependencies@.len() == b.dependencies@.len(),
        c.allow_prerelease == b.allow_prerelease,
        c.pending_queue == b.pending_queue,
        c.dependencies@[i].name == b.dependencies@[i].name,
        forall|j: int| 0 <= j < b.dependencies@.len() && j != i ==> c.dependencies@[j] == b.dependencies@[j],
        d.evolves_from(c),
    ensures
        d.keeps_fields_except(a, b.dependencies@[i].name@),
{
    let n = b.dependencies@[i].name@;
    assert forall|j: int| 0 <= j < a.dependencies@.len() implies (#[trigger] d.dependencies@[j]).name
        == a.dependencies@[j].name by {
        if j != i {
            assert(c.dependencies@[j] == b.dependencies@[j]);
        }
        assert(d.dependencies@[j].name == c.dependencies@[j].name);
    }
    assert forall|j: int|
        a.dependencies@.len() <= j < d.dependencies@.len() && d.dependencies@[j].name@ != n implies {
        let x = #[trigger] d.dependencies@[j];
        &&& x.using is None
        &&& x.current is None
        &&& x.dependencies@.len() == 0
        &&& x.legacy_packages@.len() == 0
        &&& !x.allow_pre
    } by {
        if j < c.dependencies@.len() {
            assert(d.dependencies@[j].name == c.dependencies@[j].name);
            assert(j != i);
            assert(c.dependencies@[j] == b.dependencies@[j]);
        }
    }
    assert forall|j: int| 0 <= j < a.dependencies@.len() && a.dependencies@[j].name@ != n implies {
        let x = #[trigger] d.dependencies@[j];
        let y = a.dependencies@[j];
        &&& x.using == y.using
        &&& x.current == y.current
        &&& x.dependencies == y.dependencies
        &&& x.legacy_packages == y.legacy_packages
        &&& x.allow_pre == y.allow_pre
        &&& (y.touched ==> x.touched)
    } by {
        assert(b.dependencies@[j].name == a.dependencies@[j].name);
        assert(j != i);
        assert(c.dependencies@[j] == b.dependencies@[j]);
    }
}

/// Keeping the fields of entries keeps the worklist.
pub proof fn lemma_pending_kept(a: &ResolutionContext, b: &ResolutionContext, n: Seq<char>)
    requires
        b.keeps_fields_except(a, n),
    ensures
        b.pending_queue == a.pending_queue,
{
}

/// Evolving keeps every installed record in the entry of its own name.
pub proof fn lemma_evolves_own_names(a: &ResolutionContext, b: &ResolutionContext)
    requires
        b.evolves_from(a),
        a.installs_own_names(),
    ensures
        b.installs_own_names(),
{
    assert forall|i: int|
        0 <= i < b.dependencies@.len() && (#[trigger] b.dependencies@[i]).using is Some implies b.dependencies@[i].using->0.name@
            == b.dependencies@[i].name@ by {
        if i < a.dependencies@.len() {
            assert(a.dependencies@[i].using is Some);
        }
    }
}

/// What the relations say of an entry's name is what that entry holds.
pub proof fn lemma_at(c: &ResolutionContext, i: int)
    requires
        c.wf(),
        0 <= i < c.dependencies@.len(),
    ensures
        c.has_entry(c.dependencies@[i].name@),
        forall|s: Option<Seq<char>>, g: Seq<Interval>|
            c.req(c.dependencies@[i].name@, s, g) <==> c.dependencies@[i].has_requirement(s, g),
        forall|m: Seq<char>|
            c.modern(c.dependencies@[i].name@, m) <==> c.dependencies@[i].is_modern(m),
{
    let n = c.dependencies@[i].name@;
    assert forall|s: Option<Seq<char>>, g: Seq<Interval>|
        c.req(n, s, g) implies c.dependencies@[i].has_requirement(s, g) by {
        let j = choose|j: int|
            0 <= j < c.dependencies@.len() && (#[trigger] c.dependencies@[j]).name@ == n
                && c.dependencies@[j].has_requirement(s, g);
        assert(i == j);
    }
    assert forall|m: Seq<char>| c.modern(n, m) implies c.dependencies@[i].is_modern(m) by {
        let j = choose|j: int|
            0 <= j < c.dependencies@.len() && (#[trigger] c.dependencies@[j]).name@ == n
                && c.dependencies@[j].is_modern(m);
        assert(i == j);
    }
}

/// Entries other than the one at `i` agree, so the relations agree off its name.
pub proof fn lemma_frame(a: &ResolutionContext, b: &ResolutionContext, i: int)
    requires
        a.dependencies@.len() == b.dependencies@.len(),
        0 <= i < a.dependencies@.len(),
        a.dependencies@[i].name@ == b.dependencies@[i].name@,
        forall|j: int| 0 <= j < a.dependencies@.len() && j != i ==> a.dependencies@[j] == b.dependencies@[j],
    ensures
        a.wf() ==> b.wf(),
        forall|n: Seq<char>| a.has_entry(n) <==> b.has_entry(n),
        forall|n: Seq<char>, s: Option<Seq<char>>, g: Seq<Interval>|
            n != a.dependencies@[i].name@ ==> (a.req(n, s, g) <==> b.req(n, s, g)),
        forall|n: Seq<char>, m: Seq<char>|
            n != a.dependencies@[i].name@ ==> (a.modern(n, m) <==> b.modern(n, m)),
{
    assert forall|j: int| 0 <= j < a.dependencies@.len() implies (#[trigger] b.dependencies@[j]).name@
        == a.dependencies@[j].name@ by {
        if j != i {
            assert(b.dependencies@[j] == a.dependencies@[j]);
        }
    }
    assert forall|n: Seq<char>| a.has_entry(n) <==> b.has_entry(n) by {
        if a.has_entry(n) {
            let j = choose|j: int| 0 <= j < a.dependencies@.len() && (#[trigger] a.dependencies@[j]).name@ == n;
            if j != i {
                assert(b.dependencies@[j] == a.dependencies@[j]);
            }
            assert(b.dependencies@[j].name@ == n);
        }
        if b.has_entry(n) {
            let j = choose|j: int| 0 <= j < b.dependencies@.len() && (#[trigger] b.dependencies@[j]).name@ == n;
            if j != i {
                assert(b.dependencies@[j] == a.dependencies@[j]);
            }
            assert(a.dependencies@[j].name@ == n);
        }
    }
    assert forall|n: Seq<char>, s: Option<Seq<char>>, g: Seq<Interval>|
        n != a.dependencies@[i].name@ implies (a.req(n, s, g) <==> b.req(n, s, g)) by {
        if a.req(n, s, g) {
            let j = choose|j: int|
                0 <= j < a.dependencies@.len() && (#[trigger] a.dependencies@[j]).name@ == n
                    && a.dependencies@[j].has_requirement(s, g);
            assert(b.dependencies@[j] == a.dependencies@[j]);
        }
        if b.req(n, s, g) {
            let j = choose|j: int|
                0 <= j < b.dependencies@.len() && (#[trigger] b.dependencies@[j]).name@ == n
                    && b.dependencies@[j].has_requirement(s, g);
            assert(b.dependencies@[j] == a.dependencies@[j]);
        }
    }
    assert forall|n: Seq<char>, m: Seq<char>|
        n != a.dependencies@[i].name@ implies (a.modern(n, m) <==> b.modern(n, m)) by {
        if a.modern(n, m) {
            let j = choose|j: int|
                0 <= j < a.dependencies@.len() && (#[trigger] a.dependencies@[j]).name@ == n
                    && a.dependencies@[j].is_modern(m);
            assert(b.dependencies@[j] == a.dependencies@[j]);
        }
        if b.modern(n, m) {
            let j = choose|j: int|
                0 <= j < b.dependencies@.len() && (#[trigger] b.dependencies@[j]).name@ == n
                    && b.dependencies@[j].is_modern(m);
            assert(b.dependencies@[j] == a.dependencies@[j]);
        }
    }
}

/// A fresh entry adds a name and no edge.
pub proof fn lemma_grow(a: &ResolutionContext, b: &ResolutionContext, name: Seq<char>)
    requires
        b.dependencies@.len() == a.dependencies@.len() + 1,
        forall|j: int| 0 <= j < a.dependencies@.len() ==> a.dependencies@[j] == b.dependencies@[j],
        b.dependencies@[a.dependencies@.len() as int].spec_empty(name),
    ensures
        forall|n: Seq<char>| b.has_entry(n) <==> (a.has_entry(n) || n == name),
        forall|n: Seq<char>, s: Option<Seq<char>>, g: Seq<Interval>| a.req(n, s, g) <==> b.req(n, s, g),
        forall|n: Seq<char>, m: Seq<char>| a.modern(n, m) <==> b.modern(n, m),
{
    let last = a.dependencies@.len() as int;
    assert forall|n: Seq<char>| b.has_entry(n) <==> (a.has_entry(n) || n == name) by {
        if a.has_entry(n) {
            let j = choose|j: int| 0 <= j < a.dependencies@.len() && (#[trigger] a.dependencies@[j]).name@ == n;
            assert(b.dependencies@[j] == a.dependencies@[j]);
        }
        if n == name {
            assert(b.dependencies@[last].name@ == n);
        }
        if b.has_entry(n) && n != name {
            let j = choose|j: int| 0 <= j < b.dependencies@.len() && (#[trigger] b.dependencies@[j]).name@ == n;
            assert(b.dependencies@[j] == a.dependencies@[j]);
        }
    }
    assert forall|n: Seq<char>, s: Option<Seq<char>>, g: Seq<Interval>|
        a.req(n, s, g) <==> b.req(n, s, g) by {
        if a.req(n, s, g) {
            let j = choose|j: int|
                0 <= j < a.dependencies@.len() && (#[trigger] a.dependencies@[j]).name@ == n
                    && a.dependencies@[j].has_requirement(s, g);
            assert(b.dependencies@[j] == a.dependencies@[j]);
        }
        if b.req(n, s, g) {
            let j = choose|j: int|
                0 <= j < b.dependencies@.len() && (#[trigger] b.dependencies@[j]).name@ == n
                    && b.dependencies@[j].has_requirement(s, g);
            if j == last {
                let k = choose|k: int|
                    0 <= k < b.dependencies@[j].requirements@.len() && (
                    #[trigger] b.dependencies@[j].requirements@[k]).source.key() == s
                        && b.dependencies@[j].requirements@[k].range@ == g;
            } else {
                assert(b.dependencies@[j] == a.dependencies@[j]);
            }
        }
    }
    assert forall|n: Seq<char>, m: Seq<char>| a.modern(n, m) <==> b.modern(n, m) by {
        if a.modern(n, m) {
            let j = choose|j: int|
                0 <= j < a.dependencies@.len() && (#[trigger] a.dependencies@[j]).name@ == n
                    && a.dependencies@[j].is_modern(m);
            assert(b.dependencies@[j] == a.dependencies@[j]);
        }
        if b.modern(n, m) {
            let j = choose|j: int|
                0 <= j < b.dependencies@.len() && (#[trigger] b.dependencies@[j]).name@ == n
                    && b.dependencies@[j].is_modern(m);
            if j != last {
                assert(b.dependencies@[j] == a.dependencies@[j]);
            }
        }
    }
}

impl ResolutionContext {
    /// The index of the entry named `name`, if there is one.
    pub fn find_entry(&self, name: &String) -> (r: Option<usize>)
        ensures
            r is None <==> !self.has_entry(name@),
            r is Some ==> r->0 < self.dependencies@.len() && self.dependencies@[r->0 as int].name@
                == name@,
    {
        let mut i: usize = 0;
        while i < self.dependencies.len()
            invariant
                i <= self.dependencies@.len(),
                forall|j: int| 0 <= j < i ==> (#[trigger] self.dependencies@[j]).name@ != name@,
            decreases self.dependencies@.len() - i,
        {
            if self.dependencies[i].name == *name {
                return Some(i);
            }
            i += 1;
        }
        None
    }

    /// The index of the entry named `name`, made fresh if there was none.
    pub fn entry_index(&mut self, name: &String) -> (r: usize)
        requires
            old(self).wf(),
        ensures
            final(self).wf(),
            r < final(self).dependencies@.len(),
            final(self).dependencies@[r as int].name@ == name@,
            final(self).evolves_from(old(self)),
            old(self).has_entry(name@) ==> final(self).dependencies == old(self).dependencies,
            !old(self).has_entry(name@) ==> final(self).dependencies@ == old(self).dependencies@.push(
                final(self).dependencies@[r as int],
            ) && final(self).dependencies@[r as int].spec_empty(name@),
            forall|n: Seq<char>| final(self).has_entry(n) <==> (old(self).has_entry(n) || n == name@),
            forall|n: Seq<char>, s: Option<Seq<char>>, g: Seq<Interval>|
                final(self).req(n, s, g) <==> old(self).req(n, s, g),
            forall|n: Seq<char>, m: Seq<char>| final(self).modern(n, m) <==> old(self).modern(n, m),
    {
        match self.find_entry(name) {
            Some(i) => i,
            None => {
                self.dependencies.push(DependencyInfo::empty(name.clone()));
                proof {
                    lemma_grow(old(self), self, name@);
                }
                self.dependencies.len() - 1
            },
        }
    }

    /// Sets the requirement that `source` imposes on `target`.
    pub fn add_range_to(&mut self, target: &String, source: &String, range: VersionRange, touch: bool)
        requires
            old(self).wf(),
        ensures
            forall|j: int|
                0 <= j < old(self).dependencies@.len() && old(self).dependencies@[j].name@ != target@
                    ==> (#[trigger] final(self).dependencies@[j]).touched == old(self).dependencies@[j].touched,
            final(self).wf(),
            final(self).evolves_from(old(self)),
            forall|n: Seq<char>| final(self).has_entry(n) <==> (old(self).has_entry(n) || n == target@),
            forall|n: Seq<char>, s: Option<Seq<char>>, g: Seq<Interval>|
                final(self).req(n, s, g) <==> if n == target@ && s == Some(source@) {
                    g == range@
                } else {
                    old(self).req(n, s, g)
                },
            forall|n: Seq<char>, m: Seq<char>| final(self).modern(n, m) <==> old(self).modern(n, m),
            forall|i: int|
                0 <= i < final(self).dependencies@.len() && (#[trigger] final(self).dependencies@[i]).name@
                    == target@ && touch ==> final(self).dependencies@[i].touched,
    {
        let i = self.entry_index(target);
        let ghost mid = *self;
        if touch {
            self.dependencies[i].add_range(RequirementSource::Package(source.clone()), range);
        } else {
            self.dependencies[i].insert_range(RequirementSource::Package(source.clone()), range);
        }
        proof {
            lemma_frame(&mid, self, i as int);
            lemma_at(&mid, i as int);
            lemma_at(self, i as int);
        }
    }

    /// Drops the requirement that `source` imposes on `target`, if `target` has an entry.
    pub fn remove_range_from(&mut self, target: &String, source: &String)
        requires
            old(self).wf(),
        ensures
            forall|j: int|
                0 <= j < old(self).dependencies@.len() && old(self).dependencies@[j].name@ != target@
                    ==> (#[trigger] final(self).dependencies@[j]).touched == old(self).dependencies@[j].touched,
            final(self).wf(),
            final(self).evolves_from(old(self)),
            final(self).dependencies@.len() == old(self).dependencies@.len(),
            forall|n: Seq<char>| final(self).has_entry(n) <==> old(self).has_entry(n),
            forall|n: Seq<char>, s: Option<Seq<char>>, g: Seq<Interval>|
                final(self).req(n, s, g) <==> (old(self).req(n, s, g) && !(n == target@ && s == Some(
                    source@,
                ))),
            forall|n: Seq<char>, m: Seq<char>| final(self).modern(n, m) <==> old(self).modern(n, m),
            forall|i: int|
                0 <= i < final(self).dependencies@.len() && (#[trigger] final(self).dependencies@[i]).name@
                    == target@ ==> final(self).dependencies@[i].touched,
    {
        match self.find_entry(target) {
            Some(i) => {
                let src = RequirementSource::Package(source.clone());
                self.dependencies[i].remove_range(&src);
                proof {
                    lemma_frame(old(self), self, i as int);
                    lemma_at(old(self), i as int);
                    lemma_at(self, i as int);
                }
            },
            None => {
                assert forall|n: Seq<char>, s: Option<Seq<char>>, g: Seq<Interval>|
                    self.req(n, s, g) implies !(n == target@ && s == Some(source@)) by {
                    let j = choose|j: int|
                        0 <= j < self.dependencies@.len() && (#[trigger] self.dependencies@[j]).name@ == n
                            && self.dependencies@[j].has_requirement(s, g);
                }
            },
        }
    }

    /// Records that `modern` supersedes `target`.
    pub fn add_modern_to(&mut self, target: &String, modern: &String, touch: bool)
        requires
            old(self).wf(),
        ensures
            forall|j: int|
                0 <= j < old(self).dependencies@.len() && old(self).dependencies@[j].name@ != target@
                    ==> (#[trigger] final(self).dependencies@[j]).touched == old(self).dependencies@[j].touched,
            final(self).wf(),
            final(self).evolves_from(old(self)),
            forall|n: Seq<char>| final(self).has_entry(n) <==> (old(self).has_entry(n) || n == target@),
            forall|n: Seq<char>, s: Option<Seq<char>>, g: Seq<Interval>|
                final(self).req(n, s, g) <==> old(self).req(n, s, g),
            forall|n: Seq<char>, m: Seq<char>|
                final(self).modern(n, m) <==> ((n == target@ && m == modern@) || old(self).modern(n, m)),
            forall|i: int|
                0 <= i < final(self).dependencies@.len() && (#[trigger] final(self).dependencies@[i]).name@
                    == target@ && touch ==> final(self).dependencies@[i].touched,
    {
        let i = self.entry_index(target);
        let ghost mid = *self;
        if touch {
            self.dependencies[i].add_modern_package(modern);
        } else {
            self.dependencies[i].insert_modern(modern);
        }
        proof {
            lemma_frame(&mid, self, i as int);
            lemma_at(&mid, i as int);
            lemma_at(self, i as int);
        }
    }

    /// Withdraws the record that `modern` supersedes `target`, if `target` has an entry.
    pub fn remove_modern_from(&mut self, target: &String, modern: &String)
        requires
            old(self).wf(),
        ensures
            forall|j: int|
                0 <= j < old(self).dependencies@.len() && old(self).dependencies@[j].name@ != target@
                    ==> (#[trigger] final(self).dependencies@[j]).touched == old(self).dependencies@[j].touched,
            final(self).wf(),
            final(self).evolves_from(old(self)),
            final(self).dependencies@.len() == old(self).dependencies@.len(),
            forall|n: Seq<char>| final(self).has_entry(n) <==> old(self).has_entry(n),
            forall|n: Seq<char>, s: Option<Seq<char>>, g: Seq<Interval>|
                final(self).req(n, s, g) <==> old(self).req(n, s, g),
            forall|n: Seq<char>, m: Seq<char>|
                final(self).modern(n, m) <==> (old(self).modern(n, m) && !(n == target@ && m
                    == modern@)),
            forall|i: int|
                0 <= i < final(self).dependencies@.len() && (#[trigger] final(self).dependencies@[i]).name@
                    == target@ ==> final(self).dependencies@[i].touched,
    {
        match self.find_entry(target) {
            Some(i) => {
                self.dependencies[i].remove_modern_package(modern);
                proof {
                    lemma_frame(old(self), self, i as int);
                    lemma_at(old(self), i as int);
                    lemma_at(self, i as int);
                }
            },
            None => {
                assert forall|n: Seq<char>, m: Seq<char>|
                    self.modern(n, m) implies !(n == target@ && m == modern@) by {
                    let j = choose|j: int|
                        0 <= j < self.dependencies@.len() && (#[trigger] self.dependencies@[j]).name@ == n
                            && self.dependencies@[j].is_modern(m);
                }
            },
        }
    }
    /// Withdraws the requirement that `source` imposes on each of `targets`.
    pub fn retract_requirements(&mut self, targets: &Vec<String>, source: &String)
        requires
            old(self).wf(),
        ensures
            forall|j: int|
                0 <= j < old(self).dependencies@.len() && !has_name(targets@, old(self).dependencies@[j].name@) ==> (#[trigger] final(self).dependencies@[j]).touched == old(self).dependencies@[j].touched,
            final(self).wf(),
            final(self).evolves_from(old(self)),
            forall|n: Seq<char>| final(self).has_entry(n) <==> old(self).has_entry(n),
            forall|n: Seq<char>, s: Option<Seq<char>>, g: Seq<Interval>|
                final(self).req(n, s, g) <==> (old(self).req(n, s, g) && !(s == Some(source@)
                    && has_name(targets@, n))),
            forall|n: Seq<char>, m: Seq<char>| final(self).modern(n, m) <==> old(self).modern(n, m),
    {
        let mut k: usize = 0;
        while k < targets.len()
            invariant
                forall|j: int|
                    0 <= j < old(self).dependencies@.len() && !has_name(targets@.subrange(0, k as int), old(self).dependencies@[j].name@) ==> (#[trigger] self.dependencies@[j]).touched
                        == old(self).dependencies@[j].touched,
                k <= targets@.len(),
                self.wf(),
                self.evolves_from(old(self)),
                forall|n: Seq<char>| self.has_entry(n) <==> old(self).has_entry(n),
                forall|n: Seq<char>, s: Option<Seq<char>>, g: Seq<Interval>|
                    self.req(n, s, g) <==> (old(self).req(n, s, g) && !(s == Some(source@)
                        && has_name(targets@.subrange(0, k as int), n))),
                forall|n: Seq<char>, m: Seq<char>| self.modern(n, m) <==> old(self).modern(n, m),
            decreases targets@.len() - k,
        {
            let ghost prev = *self;
            self.remove_range_from(&targets[k], source);
            proof {
                lemma_evolves_trans(old(self), &prev, self);
                assert forall|n: Seq<char>| has_name(targets@.subrange(0, k as int + 1), n) <==> (
                has_name(targets@.subrange(0, k as int), n) || targets@[k as int]@ == n) by {
                    lemma_name_step(targets@, k as int, n);
                }
            }
            k += 1;
        }
        assert(targets@.subrange(0, targets@.len() as int) =~= targets@);
    }

    /// Sets, for each dependency of the list, the requirement that `source` imposes on it.
    pub fn declare_requirements(&mut self, deps: &Vec<Dependency>, source: &String, touch: bool)
        requires
            old(self).wf(),
            forall|i: int, j: int|
                0 <= i < deps@.len() && 0 <= j < deps@.len() && i != j ==> (#[trigger] deps@[i]).name@
                    != (#[trigger] deps@[j]).name@,
        ensures
            forall|j: int|
                0 <= j < old(self).dependencies@.len() && !named_in(deps_view(deps@), old(self).dependencies@[j].name@) ==> (#[trigger] final(self).dependencies@[j]).touched == old(self).dependencies@[j].touched,
            final(self).wf(),
            final(self).evolves_from(old(self)),
            forall|n: Seq<char>|
                final(self).has_entry(n) <==> (old(self).has_entry(n) || named_in(deps_view(deps@), n)),
            forall|n: Seq<char>, s: Option<Seq<char>>, g: Seq<Interval>|
                final(self).req(n, s, g) <==> if s == Some(source@) && named_in(deps_view(deps@), n) {
                    declared_in(deps_view(deps@), n, g)
                } else {
                    old(self).req(n, s, g)
                },
            forall|n: Seq<char>, m: Seq<char>| final(self).modern(n, m) <==> old(self).modern(n, m),
    {
        let ghost d = deps_view(deps@);
        assert forall|i: int, j: int|
            0 <= i < d.len() && 0 <= j < d.len() && i != j implies (#[trigger] d[i]).0 != (
            #[trigger] d[j]).0 by {
            assert(d[i] == deps@[i]@);
            assert(d[j] == deps@[j]@);
        }
        let mut k: usize = 0;
        while k < deps.len()
            invariant
                forall|j: int|
                    0 <= j < old(self).dependencies@.len() && !named_in(d.subrange(0, k as int), old(self).dependencies@[j].name@) ==> (#[trigger] self.dependencies@[j]).touched
                        == old(self).dependencies@[j].touched,
                k <= deps@.len(),
                d == deps_view(deps@),
                forall|i: int, j: int|
                    0 <= i < d.len() && 0 <= j < d.len() && i != j ==> (#[trigger] d[i]).0 != (
                    #[trigger] d[j]).0,
                self.wf(),
                self.evolves_from(old(self)),
                forall|n: Seq<char>|
                    self.has_entry(n) <==> (old(self).has_entry(n) || named_in(d.subrange(0, k as int), n)),
                forall|n: Seq<char>, s: Option<Seq<char>>, g: Seq<Interval>|
                    self.req(n, s, g) <==> if s == Some(source@) && named_in(d.subrange(0, k as int), n) {
                        declared_in(d.subrange(0, k as int), n, g)
                    } else {
                        old(self).req(n, s, g)
                    },
                forall|n: Seq<char>, m: Seq<char>| self.modern(n, m) <==> old(self).modern(n, m),
            decreases deps@.len() - k,
        {
            let ghost prev = *self;
            assert(d[k as int] == deps@[k as int]@);
            self.add_range_to(&deps[k].name, source, deps[k].range.duplicate(), touch);
            proof {
                lemma_evolves_trans(old(self), &prev, self);
                assert forall|n: Seq<char>|
                    named_in(d.subrange(0, k as int + 1), n) <==> (named_in(d.subrange(0, k as int), n)
                        || n == d[k as int].0) by {
                    lemma_declared_step(d, k as int, n, Seq::empty());
                }
                assert forall|n: Seq<char>, g: Seq<Interval>|
                    declared_in(d.subrange(0, k as int + 1), n, g) <==> if n == d[k as int].0 {
                        g == d[k as int].1
                    } else {
                        declared_in(d.subrange(0, k as int), n, g)
                    } by {
                    lemma_declared_step(d, k as int, n, g);
                }
                assert forall|n: Seq<char>, s: Option<Seq<char>>, g: Seq<Interval>|
                    self.req(n, s, g) <==> if s == Some(source@) && named_in(
                        d.subrange(0, k as int + 1),
                        n,
                    ) {
                        declared_in(d.subrange(0, k as int + 1), n, g)
                    } else {
                        old(self).req(n, s, g)
                    } by {
                    lemma_declared_step(d, k as int, n, g);
                }
                assert forall|j: int|
                    0 <= j < old(self).dependencies@.len() && !named_in(
                        d.subrange(0, k as int + 1),
                        old(self).dependencies@[j].name@,
                    ) implies (#[trigger] self.dependencies@[j]).touched == old(self).dependencies@[j].touched by {
                    lemma_declared_step(d, k as int, old(self).dependencies@[j].name@, Seq::empty());
                    assert(prev.dependencies@[j].name == old(self).dependencies@[j].name);
                }
            }
            k += 1;
        }
        assert(d.subrange(0, d.len() as int) =~= d);
    }

    /// Withdraws the record that `modern` supersedes each of `targets`.
    pub fn retract_modern(&mut self, targets: &Vec<String>, modern: &String)
        requires
            old(self).wf(),
        ensures
            forall|j: int|
                0 <= j < old(self).dependencies@.len() && !has_name(targets@, old(self).dependencies@[j].name@) ==> (#[trigger] final(self).dependencies@[j]).touched == old(self).dependencies@[j].touched,
            final(self).wf(),
            final(self).evolves_from(old(self)),
            forall|n: Seq<char>| final(self).has_entry(n) <==> old(self).has_entry(n),
            forall|n: Seq<char>, s: Option<Seq<char>>, g: Seq<Interval>|
                final(self).req(n, s, g) <==> old(self).req(n, s, g),
            forall|n: Seq<char>, m: Seq<char>|
                final(self).modern(n, m) <==> (old(self).modern(n, m) && !(m == modern@ && has_name(
                    targets@,
                    n,
                ))),
    {
        let mut k: usize = 0;
        while k < targets.len()
            invariant
                forall|j: int|
                    0 <= j < old(self).dependencies@.len() && !has_name(targets@.subrange(0, k as int), old(self).dependencies@[j].name@) ==> (#[trigger] self.dependencies@[j]).touched
                        == old(self).dependencies@[j].touched,
                k <= targets@.len(),
                self.wf(),
                self.evolves_from(old(self)),
                forall|n: Seq<char>| self.has_entry(n) <==> old(self).has_entry(n),
                forall|n: Seq<char>, s: Option<Seq<char>>, g: Seq<Interval>|
                    self.req(n, s, g) <==> old(self).req(n, s, g),
                forall|n: Seq<char>, m: Seq<char>|
                    self.modern(n, m) <==> (old(self).modern(n, m) && !(m == modern@ && has_name(
                        targets@.subrange(0, k as int),
                        n,
                    ))),
            decreases targets@.len() - k,
        {
            let ghost prev = *self;
            self.remove_modern_from(&targets[k], modern);
            proof {
                lemma_evolves_trans(old(self), &prev, self);
                assert forall|n: Seq<char>| has_name(targets@.subrange(0, k as int + 1), n) <==> (
                has_name(targets@.subrange(0, k as int), n) || targets@[k as int]@ == n) by {
                    lemma_name_step(targets@, k as int, n);
                }
            }
            k += 1;
        }
        assert(targets@.subrange(0, targets@.len() as int) =~= targets@);
    }

    /// Records that `modern` supersedes each of `targets`.
    pub fn declare_modern(&mut self, targets: &Vec<String>, modern: &String, touch: bool)
        requires
            old(self).wf(),
        ensures
            forall|j: int|
                0 <= j < old(self).dependencies@.len() && !has_name(targets@, old(self).dependencies@[j].name@) ==> (#[trigger] final(self).dependencies@[j]).touched == old(self).dependencies@[j].touched,
            final(self).wf(),
            final(self).evolves_from(old(self)),
            forall|n: Seq<char>| final(self).has_entry(n) <==> (old(self).has_entry(n) || has_name(targets@, n)),
            forall|n: Seq<char>, s: Option<Seq<char>>, g: Seq<Interval>|
                final(self).req(n, s, g) <==> old(self).req(n, s, g),
            forall|n: Seq<char>, m: Seq<char>|
                final(self).modern(n, m) <==> ((m == modern@ && has_name(targets@, n)) || old(
                    self,
                ).modern(n, m)),
    {
        let mut k: usize = 0;
        while k < targets.len()
            invariant
                forall|j: int|
                    0 <= j < old(self).dependencies@.len() && !has_name(targets@.subrange(0, k as int), old(self).dependencies@[j].name@) ==> (#[trigger] self.dependencies@[j]).touched
                        == old(self).dependencies@[j].touched,
                k <= targets@.len(),
                self.wf(),
                self.evolves_from(old(self)),
                forall|n: Seq<char>|
                    self.has_entry(n) <==> (old(self).has_entry(n) || has_name(
                        targets@.subrange(0, k as int),
                        n,
                    )),
                forall|n: Seq<char>, s: Option<Seq<char>>, g: Seq<Interval>|
                    self.req(n, s, g) <==> old(self).req(n, s, g),
                forall|n: Seq<char>, m: Seq<char>|
                    self.modern(n, m) <==> ((m == modern@ && has_name(
                        targets@.subrange(0, k as int),
                        n,
                    )) || old(self).modern(n, m)),
            decreases targets@.len() - k,
        {
            let ghost prev = *self;
            self.add_modern_to(&targets[k], modern, touch);
            proof {
                lemma_evolves_trans(old(self), &prev, self);
                assert forall|n: Seq<char>| has_name(targets@.subrange(0, k as int + 1), n) <==> (
                has_name(targets@.subrange(0, k as int), n) || targets@[k as int]@ == n) by {
                    lemma_name_step(targets@, k as int, n);
                }
            }
            k += 1;
        }
        assert(targets@.subrange(0, targets@.len() as int) =~= targets@);
    }

    /// Installs `package` unless its name is superseded. On installation the
    /// requirement edges and superseding edges that its entry's previous record
    /// implied are withdrawn, and those of `package` put in their place.
    pub fn add_package(&mut self, package: PackageInfo) -> (r: bool)
        requires
            old(self).wf(),
            unique_dependencies(package@),
        ensures
            final(self).wf(),
            r == !old(self).legacy_name(package.name@),
            old(self).installs_own_names() ==> final(self).installs_own_names(),
            old(self).installed_tied() ==> final(self).installed_tied(),
            final(self).allow_prerelease == old(self).allow_prerelease,
            final(self).pending_queue == old(self).pending_queue,
            !r ==> final(self).dependencies == old(self).dependencies,
            r ==> final(self).has_entry(package.name@),
            r ==> ({
                let e = final(self).dependencies@[final(self).index_of(package.name@)];
                &&& e.name@ == package.name@
                &&& e.using == Some(package)
                &&& e.current == Some(package.version)
                &&& names_view(e.dependencies@) == package@.dependencies.map_values(
                    |d: (Seq<char>, Seq<Interval>)| d.0,
                )
                &&& names_view(e.legacy_packages@) == package@.legacy_packages
                &&& e.touched
                &&& e.allow_pre == (old(self).has_entry(package.name@) && old(
                    self,
                ).dependencies@[old(self).index_of(package.name@)].allow_pre)
            }),
            r ==> final(self).keeps_fields_except(old(self), package.name@),
            r ==> forall|j: int|
                0 <= j < old(self).dependencies@.len() && old(self).dependencies@[j].name@ != package.name@
                    && !has_name(old(self).requires_of(package.name@), old(self).dependencies@[j].name@)
                    && !named_in(package@.dependencies, old(self).dependencies@[j].name@) && !has_name(
                    old(self).supersedes_of(package.name@),
                    old(self).dependencies@[j].name@,
                ) && !package@.legacy_packages.contains(old(self).dependencies@[j].name@) ==> (
                #[trigger] final(self).dependencies@[j]).touched == old(self).dependencies@[j].touched,
            r ==> forall|n: Seq<char>|
                final(self).has_entry(n) <==> (old(self).has_entry(n) || n == package.name@
                    || named_in(package@.dependencies, n) || package@.legacy_packages.contains(n)),
            r ==> forall|n: Seq<char>, s: Option<Seq<char>>, g: Seq<Interval>|
                final(self).req(n, s, g) <==> if s == Some(package.name@) && named_in(
                    package@.dependencies,
                    n,
                ) {
                    declared_in(package@.dependencies, n, g)
                } else if s == Some(package.name@) && has_name(
                    old(self).requires_of(package.name@),
                    n,
                ) {
                    false
                } else {
                    old(self).req(n, s, g)
                },
            r ==> forall|n: Seq<char>, m: Seq<char>|
                final(self).modern(n, m) <==> if m == package.name@
                    && package@.legacy_packages.contains(n) {
                    true
                } else if m == package.name@ && has_name(old(self).supersedes_of(package.name@), n) {
                    false
                } else {
                    old(self).modern(n, m)
                },
    {
        let i = self.entry_index(&package.name);
        if self.dependencies[i].is_legacy() {
            proof {
                lemma_at(old(self), old(self).index_of(package.name@));
            }
            return false;
        }
        proof {
            if old(self).legacy_name(package.name@) {
                let j = choose|j: int|
                    0 <= j < old(self).dependencies@.len() && (#[trigger] old(
                        self,
                    ).dependencies@[j]).name@ == package.name@ && old(
                        self,
                    ).dependencies@[j].spec_is_legacy();
                assert(self.dependencies@[j] == old(self).dependencies@[j]);
            }
        }
        let ghost pv = package@;
        let name = package.name.clone();
        let new_deps = copy_dependencies(&package.dependencies);
        let new_names = dependency_names(&package.dependencies);
        let new_legacy = copy_names(&package.legacy_packages);
        let legacy = copy_names(&package.legacy_packages);
        let old_deps = copy_names(&self.dependencies[i].dependencies);
        let old_legacy = copy_names(&self.dependencies[i].legacy_packages);
        let ghost mid = *self;
        self.dependencies[i].install(package, new_names, legacy);
        let ghost s0 = *self;
        proof {
            lemma_frame(&mid, &s0, i as int);
            lemma_at(&mid, i as int);
            lemma_at(&s0, i as int);
            assert forall|n: Seq<char>| has_name(old_deps@, n) <==> has_name(
                old(self).requires_of(pv.name),
                n,
            ) by {
                lemma_has_name_view(old_deps@, n);
                lemma_has_name_view(old(self).requires_of(pv.name), n);
                if old(self).has_entry(pv.name) {
                    lemma_at(old(self), old(self).index_of(pv.name));
                    assert(old(self).dependencies@[old(self).index_of(pv.name)] == mid.dependencies@[i as int]);
                }
            }
            assert forall|n: Seq<char>| has_name(old_legacy@, n) <==> has_name(
                old(self).supersedes_of(pv.name),
                n,
            ) by {
                lemma_has_name_view(old_legacy@, n);
                lemma_has_name_view(old(self).supersedes_of(pv.name), n);
                if old(self).has_entry(pv.name) {
                    lemma_at(old(self), old(self).index_of(pv.name));
                    assert(old(self).dependencies@[old(self).index_of(pv.name)] == mid.dependencies@[i as int]);
                }
            }
        }
        self.retract_requirements(&old_deps, &name);
        let ghost s1 = *self;
        proof {
            lemma_evolves_trans(&s0, &s1, self);
        }
        proof {
            assert forall|a: int, b: int|
                0 <= a < new_deps@.len() && 0 <= b < new_deps@.len() && a != b implies (
                #[trigger] new_deps@[a]).name@ != (#[trigger] new_deps@[b]).name@ by {
                assert(deps_view(new_deps@)[a] == new_deps@[a]@);
                assert(deps_view(new_deps@)[b] == new_deps@[b]@);
                assert(pv.dependencies[a] == new_deps@[a]@);
                assert(pv.dependencies[b] == new_deps@[b]@);
                assert(pv.dependencies[a].0 != pv.dependencies[b].0);
            }
        }
        self.declare_requirements(&new_deps, &name, true);
        let ghost s2 = *self;
        proof {
            lemma_evolves_trans(&s0, &s1, &s2);
        }
        self.retract_modern(&old_legacy, &name);
        let ghost s3 = *self;
        proof {
            lemma_evolves_trans(&s0, &s2, &s3);
        }
        self.declare_modern(&new_legacy, &name, true);
        proof {
            lemma_evolves_trans(&s0, &s3, self);
        }
        proof {
            lemma_keeps(old(self), &mid, &s0, self, i as int);
            if old(self).has_entry(pv.name) {
                lemma_at(old(self), old(self).index_of(pv.name));
                assert(old(self).dependencies@[old(self).index_of(pv.name)] == mid.dependencies@[i as int]);
            }
            assert forall|n: Seq<char>| has_name(new_legacy@, n) <==> pv.legacy_packages.contains(n) by {
                lemma_has_name_view(new_legacy@, n);
            }
            lemma_at(self, i as int);
            assert(self.dependencies@[i as int].name@ == pv.name);
            assert(self.index_of(pv.name) == i as int);
            assert(names_view(s0.dependencies@[i as int].dependencies@) =~= pv.dependencies.map_values(
                |d: (Seq<char>, Seq<Interval>)| d.0,
            ));
            assert forall|j: int|
                0 <= j < old(self).dependencies@.len() && old(self).dependencies@[j].name@ != pv.name
                    && !has_name(old(self).requires_of(pv.name), old(self).dependencies@[j].name@)
                    && !named_in(pv.dependencies, old(self).dependencies@[j].name@) && !has_name(
                    old(self).supersedes_of(pv.name),
                    old(self).dependencies@[j].name@,
                ) && !pv.legacy_packages.contains(old(self).dependencies@[j].name@) implies (
            #[trigger] self.dependencies@[j]).touched == old(self).dependencies@[j].touched by {
                let n = old(self).dependencies@[j].name@;
                assert(mid.dependencies@[j] == old(self).dependencies@[j]);
                assert(j != i);
                assert(s0.dependencies@[j] == mid.dependencies@[j]);
                assert(s1.dependencies@[j].name == s0.dependencies@[j].name);
                assert(s2.dependencies@[j].name == s1.dependencies@[j].name);
                assert(s3.dependencies@[j].name == s2.dependencies@[j].name);
                lemma_has_name_view(new_legacy@, n);
                assert(!named_in(deps_view(new_deps@), n));
            }
            if old(self).installed_tied() {
                let fin = *self;
                assert forall|j: int|
                    0 <= j < fin.dependencies@.len() && (#[trigger] fin.dependencies@[j]).using is Some implies fin.dependencies@[j].current
                        == Some(fin.dependencies@[j].using->0.version) && fin.dependencies@[j].touched by {
                    if j != i {
                        assert(fin.dependencies@[j].name@ != pv.name);
                        assert(j < old(self).dependencies@.len());
                        assert(old(self).dependencies@[j].using is Some);
                    }
                }
                assert forall|j: int, d: Seq<char>, g: Seq<Interval>|
                    0 <= j < fin.dependencies@.len() && fin.dependencies@[j].using is Some && #[trigger] declared_in(
                        fin.dependencies@[j].using->0@.dependencies,
                        d,
                        g,
                    ) implies fin.req(d, Some(fin.dependencies@[j].name@), g) by {
                    if j != i {
                        assert(fin.dependencies@[j].name@ != pv.name);
                        assert(j < old(self).dependencies@.len());
                        assert(old(self).dependencies@[j].using is Some);
                        assert(old(self).req(d, Some(old(self).dependencies@[j].name@), g));
                    } else {
                        let w = choose|w: int| 0 <= w < pv.dependencies.len() && (#[trigger] pv.dependencies[w]) == (d, g);
                        assert(named_in(pv.dependencies, d));
                    }
                }
                assert forall|j: int, l: Seq<char>|
                    0 <= j < fin.dependencies@.len() && fin.dependencies@[j].using is Some
                        && #[trigger] fin.dependencies@[j].using->0@.legacy_packages.contains(l) implies fin.modern(
                        l,
                        fin.dependencies@[j].name@,
                    ) by {
                    if j != i {
                        assert(fin.dependencies@[j].name@ != pv.name);
                        assert(j < old(self).dependencies@.len());
                        assert(old(self).dependencies@[j].using is Some);
                        assert(old(self).modern(l, old(self).dependencies@[j].name@));
                    }
                }
            }
        }
        true
    }
}

impl ResolutionContext {
    /// A context whose worklist holds `packages`, each of whose names admits prereleases.
    pub fn new(allow_prerelease: bool, packages: Vec<PackageInfo>) -> (r: ResolutionContext)
        ensures
            r.wf(),
            r.allow_prerelease == allow_prerelease,
            r.pending_queue.pending_queue == packages,
            r.installs_own_names(),
            forall|n: Seq<char>|
                r.has_entry(n) <==> exists|k: int| 0 <= k < packages@.len() && (#[trigger] packages@[k]).name@ == n,
            forall|i: int|
                0 <= i < r.dependencies@.len() ==> {
                    let e = #[trigger] r.dependencies@[i];
                    &&& e.allow_pre
                    &&& e.using is None
                    &&& e.current is None
                    &&& e.requirements@.len() == 0
                    &&& e.dependencies@.len() == 0
                    &&& e.modern_packages@.len() == 0
                    &&& e.legacy_packages@.len() == 0
                    &&& !e.touched
                },
    {
        let mut this = ResolutionContext {
            allow_prerelease,
            pending_queue: PackageQueue::new(packages),
            dependencies: Vec::new(),
        };
        let mut k: usize = 0;
        while k < this.pending_queue.pending_queue.len()
            invariant
                k <= packages@.len(),
                this.wf(),
                this.allow_prerelease == allow_prerelease,
                this.pending_queue.pending_queue == packages,
                forall|n: Seq<char>|
                    this.has_entry(n) <==> exists|j: int| 0 <= j < k && (#[trigger] packages@[j]).name@ == n,
                forall|i: int|
                    0 <= i < this.dependencies@.len() ==> {
                        let e = #[trigger] this.dependencies@[i];
                        &&& e.allow_pre
                        &&& e.using is None
                        &&& e.current is None
                        &&& e.requirements@.len() == 0
                        &&& e.dependencies@.len() == 0
                        &&& e.modern_packages@.len() == 0
                        &&& e.legacy_packages@.len() == 0
                        &&& !e.touched
                    },
            decreases packages@.len() - k,
        {
            let name = this.pending_queue.pending_queue[k].name.clone();
            let ghost before = this;
            let i = this.entry_index(&name);
            let ghost mid = this;
            this.dependencies[i].allow_prereleases();
            proof {
                lemma_frame(&mid, &this, i as int);
                assert forall|n: Seq<char>|
                    this.has_entry(n) <==> exists|j: int| 0 <= j < k + 1 && (#[trigger] packages@[j]).name@ == n by {
                    if n == name@ {
                        assert(packages@[k as int].name@ == n);
                    }
                    if exists|j: int| 0 <= j < k + 1 && (#[trigger] packages@[j]).name@ == n {
                        let j = choose|j: int| 0 <= j < k + 1 && (#[trigger] packages@[j]).name@ == n;
                        if j < k {
                            assert(before.has_entry(n));
                        }
                    }
                }
            }
            k += 1;
        }
        this
    }

    /// Adds the project's own requirement `range` on `name`, creating the entry if it is
    /// absent; prereleases become admitted where `allow_pre` holds, and are never
    /// withdrawn.
    pub fn add_root_dependency(&mut self, name: &String, range: VersionRange, allow_pre: bool)
        requires
            old(self).wf(),
        ensures
            final(self).wf(),
            final(self).allow_prerelease == old(self).allow_prerelease,
            final(self).pending_queue == old(self).pending_queue,
            old(self).installs_own_names() ==> final(self).installs_own_names(),
            forall|n: Seq<char>| final(self).has_entry(n) <==> (old(self).has_entry(n) || n == name@),
            forall|n: Seq<char>, s: Option<Seq<char>>, g: Seq<Interval>|
                final(self).req(n, s, g) <==> if n == name@ && s is None {
                    g == range@
                } else {
                    old(self).req(n, s, g)
                },
            forall|n: Seq<char>, m: Seq<char>| final(self).modern(n, m) <==> old(self).modern(n, m),
            final(self).dependencies@.len() == old(self).dependencies@.len() + if old(self).has_entry(
                name@,
            ) {
                0int
            } else {
                1int
            },
            forall|j: int|
                0 <= j < final(self).dependencies@.len() && (#[trigger] final(self).dependencies@[j]).name@
                    != name@ ==> final(self).dependencies@[j] == old(self).dependencies@[j],
            forall|j: int|
                0 <= j < old(self).dependencies@.len() ==> (#[trigger] final(self).dependencies@[j]).name
                    == old(self).dependencies@[j].name,
            !old(self).has_entry(name@) ==> final(self).dependencies@[old(self).dependencies@.len() as int].name@
                == name@,
            ({
                let e = final(self).dependencies@[final(self).index_of(name@)];
                &&& e.name@ == name@
                &&& old(self).has_entry(name@) ==> {
                    let o = old(self).dependencies@[old(self).index_of(name@)];
                    &&& e.allow_pre == (o.allow_pre || allow_pre)
                    &&& e.using == o.using
                    &&& e.current == o.current
                    &&& e.dependencies == o.dependencies
                    &&& e.modern_packages == o.modern_packages
                    &&& e.legacy_packages == o.legacy_packages
                    &&& e.touched == o.touched
                }
                &&& !old(self).has_entry(name@) ==> {
                    &&& e.allow_pre == allow_pre
                    &&& e.using is None
                    &&& e.current is None
                    &&& e.dependencies@.len() == 0
                    &&& e.modern_packages@.len() == 0
                    &&& e.legacy_packages@.len() == 0
                    &&& !e.touched
                }
            }),
    {
        let i = self.entry_index(name);
        let ghost mid = *self;
        let ghost rg = range@;
        self.dependencies[i].insert_range(RequirementSource::Root, range);
        let ghost ins = self.dependencies@[i as int];
        if allow_pre {
            self.dependencies[i].allow_prereleases();
        }
        proof {
            assert(self.dependencies@[i as int].requirements == ins.requirements);
            assert forall|s: Option<Seq<char>>, g: Seq<Interval>|
                self.dependencies@[i as int].has_requirement(s, g) <==> if s is None {
                    g == rg
                } else {
                    mid.dependencies@[i as int].has_requirement(s, g)
                } by {
                assert(ins.has_requirement(s, g) == self.dependencies@[i as int].has_requirement(s, g));
            }
            lemma_frame(&mid, self, i as int);
            lemma_at(&mid, i as int);
            lemma_at(self, i as int);
            assert(self.index_of(name@) == i as int);
            if old(self).has_entry(name@) {
                lemma_at(old(self), old(self).index_of(name@));
                assert(old(self).index_of(name@) == i as int);
            }
            assert forall|j: int|
                0 <= j < self.dependencies@.len() && (#[trigger] self.dependencies@[j]).name@ != name@
                    implies self.dependencies@[j] == old(self).dependencies@[j] by {
                assert(j != i);
                assert(mid.dependencies@[j] == self.dependencies@[j]);
            }
            assert forall|k: int|
                0 <= k < self.dependencies@.len() && (#[trigger] self.dependencies@[k]).using is Some
                    && old(self).installs_own_names() implies self.dependencies@[k].using->0.name@
                    == self.dependencies@[k].name@ by {
                if k != i {
                    assert(mid.dependencies@[k] == self.dependencies@[k]);
                }
                lemma_evolves_own_names(old(self), &mid);
            }
        }
    }

    /// Records a previously resolved package: its version, the names it requires with
    /// their ranges, and, where the environment's record of that exact version was
    /// `found`, the names that record supersedes.
    pub fn add_locked_with(&mut self, locked: &LockedDependencyInfo, found: Option<PackageInfo>)
        requires
            old(self).wf(),
            unique_names(locked.dependencies@),
        ensures
            final(self).wf(),
            old(self).installs_own_names() ==> final(self).installs_own_names(),
            final(self).allow_prerelease == old(self).allow_prerelease,
            final(self).pending_queue == old(self).pending_queue,
            forall|n: Seq<char>|
                final(self).has_entry(n) <==> (old(self).has_entry(n) || n == locked.name@ || named_in(
                    deps_view(locked.dependencies@),
                    n,
                ) || (found is Some && found->0@.legacy_packages.contains(n))),
            forall|n: Seq<char>, s: Option<Seq<char>>, g: Seq<Interval>|
                final(self).req(n, s, g) <==> if s == Some(locked.name@) && named_in(
                    deps_view(locked.dependencies@),
                    n,
                ) {
                    declared_in(deps_view(locked.dependencies@), n, g)
                } else {
                    old(self).req(n, s, g)
                },
            forall|n: Seq<char>, m: Seq<char>|
                final(self).modern(n, m) <==> (old(self).modern(n, m) || (found is Some && m
                    == locked.name@ && found->0@.legacy_packages.contains(n))),
            ({
                let e = final(self).dependencies@[final(self).index_of(locked.name@)];
                &&& e.name@ == locked.name@
                &&& e.current == Some(locked.version)
                &&& names_view(e.dependencies@) == deps_view(locked.dependencies@).map_values(
                    |d: (Seq<char>, Seq<Interval>)| d.0,
                )
                &&& found is Some ==> names_view(e.legacy_packages@) == found->0@.legacy_packages
                &&& old(self).has_entry(locked.name@) ==> {
                    let o = old(self).dependencies@[old(self).index_of(locked.name@)];
                    &&& e.allow_pre == (o.allow_pre || locked.version.pre is Some)
                    &&& e.using == o.using
                    &&& found is None ==> e.legacy_packages == o.legacy_packages
                }
                &&& !old(self).has_entry(locked.name@) ==> {
                    &&& e.allow_pre == locked.version.pre is Some
                    &&& e.using is None
                    &&& found is None ==> e.legacy_packages@.len() == 0
                }
            }),
            final(self).keeps_fields_except(old(self), locked.name@),
    {
        let i = self.entry_index(&locked.name);
        let ghost mid = *self;
        let names = dependency_names(&locked.dependencies);
        self.dependencies[i].set_using_info(locked.version, names);
        let ghost s0 = *self;
        proof {
            lemma_frame(&mid, &s0, i as int);
            lemma_at(&mid, i as int);
            lemma_at(&s0, i as int);
            assert(names_view(names@) =~= deps_view(locked.dependencies@).map_values(
                |d: (Seq<char>, Seq<Interval>)| d.0,
            ));
        }
        match found {
            Some(pkg) => {
                let legacy = copy_names(&pkg.legacy_packages);
                self.dependencies[i].legacy_packages = copy_names(&pkg.legacy_packages);
                let ghost s1 = *self;
                proof {
                    lemma_frame(&s0, &s1, i as int);
                    lemma_at(&s0, i as int);
                    lemma_at(&s1, i as int);
                }
                self.declare_modern(&legacy, &locked.name, false);
                let ghost s2 = *self;
                proof {
                    assert forall|n: Seq<char>| has_name(legacy@, n) <==> pkg@.legacy_packages.contains(n) by {
                        lemma_has_name_view(legacy@, n);
                    }
                    assert(s1.evolves_from(&s1));
                }
                self.declare_requirements(&locked.dependencies, &locked.name, false);
                proof {
                    lemma_evolves_trans(&s1, &s2, self);
                    lemma_keeps(old(self), &mid, &s1, self, i as int);
                }
            },
            None => {
                self.declare_requirements(&locked.dependencies, &locked.name, false);
                proof {
                    lemma_keeps(old(self), &mid, &s0, self, i as int);
                }
            },
        }
        proof {
            lemma_at(self, i as int);
            assert(self.index_of(locked.name@) == i as int);
            if old(self).has_entry(locked.name@) {
                lemma_at(old(self), old(self).index_of(locked.name@));
                assert(old(self).dependencies@[old(self).index_of(locked.name@)] == mid.dependencies@[i as int]);
            }
        }
    }

    /// Records a previously resolved package, looking up in `env` the record of its
    /// exact version for the names it supersedes.
    pub fn add_locked_dependency<E: PackageCollection>(&mut self, locked: &LockedDependencyInfo, env: &E)
        requires
            old(self).wf(),
            unique_names(locked.dependencies@),
        ensures
            final(self).wf(),
            old(self).installs_own_names() ==> final(self).installs_own_names(),
            final(self).allow_prerelease == old(self).allow_prerelease,
            final(self).pending_queue == old(self).pending_queue,
            final(self).keeps_fields_except(old(self), locked.name@),
            forall|n: Seq<char>|
                (old(self).has_entry(n) || n == locked.name@ || named_in(deps_view(locked.dependencies@), n))
                    ==> final(self).has_entry(n),
            forall|n: Seq<char>, m: Seq<char>|
                old(self).modern(n, m) ==> final(self).modern(n, m),
            forall|n: Seq<char>, m: Seq<char>|
                final(self).modern(n, m) ==> (old(self).modern(n, m) || m == locked.name@),
            ({
                let e = final(self).dependencies@[final(self).index_of(locked.name@)];
                &&& e.name@ == locked.name@
                &&& e.current == Some(locked.version)
                &&& names_view(e.dependencies@) == deps_view(locked.dependencies@).map_values(
                    |d: (Seq<char>, Seq<Interval>)| d.0,
                )
                &&& old(self).has_entry(locked.name@) ==> {
                    let o = old(self).dependencies@[old(self).index_of(locked.name@)];
                    &&& e.allow_pre == (o.allow_pre || locked.version.pre is Some)
                    &&& e.using == o.using
                }
                &&& !old(self).has_entry(locked.name@) ==> e.allow_pre == locked.version.pre is Some
                    && e.using is None
            }),
            forall|n: Seq<char>, s: Option<Seq<char>>, g: Seq<Interval>|
                final(self).req(n, s, g) <==> if s == Some(locked.name@) && named_in(
                    deps_view(locked.dependencies@),
                    n,
                ) {
                    declared_in(deps_view(locked.dependencies@), n, g)
                } else {
                    old(self).req(n, s, g)
                },
    {
        let selector = VersionSelector::specific_version(locked.version);
        let found = env.find_package_by_name(&locked.name, &selector);
        self.add_locked_with(locked, found);
    }

    /// Whether the dependency `name`, required in `range`, must be fetched.
    pub fn should_add_package(&self, name: &String, range: &VersionRange) -> (r: bool)
        requires
            self.wf(),
            self.has_entry(name@),
        ensures
            r == self.fetch_needed(name@, range@),
            self.legacy_name(name@) ==> !r,
    {
        let i = self.find_entry(name).unwrap();
        proof {
            lemma_at(self, i as int);
            assert(self.index_of(name@) == i as int);
        }
        if self.dependencies[i].is_legacy() {
            return false;
        }
        let allow = self.dependencies[i].allow_pre || self.allow_prerelease;
        let mut install = true;
        match self.pending_queue.find_pending_package(name) {
            Some(pending) => {
                if range.match_pre(&pending.version, allow) {
                    install = false;
                }
                proof {
                    let q = self.pending_queue@;
                    let w = choose|w: int| is_first_pending(q, name@, w) && pending@ == #[trigger] q[w];
                    let c = choose|c: int| is_first_pending(q, name@, c);
                    assert(c == w) by {
                        if c < w {
                            assert(q[c].name != name@);
                        }
                        if w < c {
                            assert(q[w].name != name@);
                        }
                    }
                }
            },
            None => {
                match self.dependencies[i].current {
                    Some(v) => {
                        if range.match_pre(&v, allow) {
                            install = false;
                        }
                    },
                    None => {},
                }
            },
        }
        install
    }
}

} // verus!
