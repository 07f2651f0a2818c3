use vstd::prelude::*;

verus! {

/// A package version `major.minor.patch`, optionally a prerelease of that release.
#[derive(Clone, Copy, Debug, PartialEq, Eq, Structural)]
pub struct Version {
    pub major: u64,
    pub minor: u64,
    pub patch: u64,
    /// `Some(n)` marks the prerelease number `n`; a prerelease orders before its release.
    pub pre: Option<u64>,
}

/// Strict order on versions: by major, minor and patch, then prereleases (by number)
/// before the release itself.
pub open spec fn version_lt(a: Version, b: Version) -> bool {
    if a.major != b.major {
        a.major < b.major
    } else if a.minor != b.minor {
        a.minor < b.minor
    } else if a.patch != b.patch {
        a.patch < b.patch
    } else {
        match (a.pre, b.pre) {
            (Some(x), Some(y)) => x < y,
            (Some(_), None) => true,
            _ => false,
        }
    }
}

impl Version {
    pub fn new(major: u64, minor: u64, patch: u64) -> (r: Version)
        ensures
            r == (Version { major, minor, patch, pre: None }),
    {
        Version { major, minor, patch, pre: None }
    }

    pub fn new_pre(major: u64, minor: u64, patch: u64, pre: u64) -> (r: Version)
        ensures
            r == (Version { major, minor, patch, pre: Some(pre) }),
    {
        Version { major, minor, patch, pre: Some(pre) }
    }

    pub open spec fn spec_is_pre(&self) -> bool {
        self.pre is Some
    }

    pub fn is_pre(&self) -> (r: bool)
        ensures
            r == self.spec_is_pre(),
    {
        self.pre.is_some()
    }

    pub fn is_less_than(&self, other: &Version) -> (r: bool)
        ensures
            r == version_lt(*self, *other),
    {
        if self.major != other.major {
            self.major < other.major
        } else if self.minor != other.minor {
            self.minor < other.minor
        } else if self.patch != other.patch {
            self.patch < other.patch
        } else {
            match (self.pre, other.pre) {
                (Some(x), Some(y)) => x < y,
                (Some(_), None) => true,
                _ => false,
            }
        }
    }
}

/// One end of an interval of versions.
#[derive(Clone, Copy, Debug, PartialEq, Eq, Structural)]
pub struct Bound {
    pub version: Version,
    pub inclusive: bool,
}

/// The versions between an optional lower and an optional upper bound.
#[derive(Clone, Copy, Debug, PartialEq, Eq, Structural)]
pub struct Interval {
    pub lower: Option<Bound>,
    pub upper: Option<Bound>,
}

pub open spec fn above(v: Version, b: Option<Bound>) -> bool {
    match b {
        None => true,
        Some(b) => version_lt(b.version, v) || (b.inclusive && v == b.version),
    }
}

pub open spec fn below(v: Version, b: Option<Bound>) -> bool {
    match b {
        None => true,
        Some(b) => version_lt(v, b.version) || (b.inclusive && v == b.version),
    }
}

pub open spec fn in_interval(v: Version, i: Interval) -> bool {
    above(v, i.lower) && below(v, i.upper)
}

pub open spec fn bound_is_pre(b: Option<Bound>) -> bool {
    match b {
        None => false,
        Some(b) => b.version.pre is Some,
    }
}

impl Interval {
    pub fn contains(&self, v: &Version) -> (r: bool)
        ensures
            r == in_interval(*v, *self),
    {
        let lo = match self.lower {
            None => true,
            Some(b) => b.version.is_less_than(v) || (b.inclusive && *v == b.version),
        };
        let hi = match self.upper {
            None => true,
            Some(b) => v.is_less_than(&b.version) || (b.inclusive && *v == b.version),
        };
        lo && hi
    }
}

/// A set of versions: the union of its intervals.
#[derive(Debug)]
pub struct VersionRange {
    pub alternatives: Vec<Interval>,
}

/// Whether `v` lies in the range `r` (as a sequence of intervals) when prereleases are
/// admitted only where `allow_pre` holds.
pub open spec fn range_matches(r: Seq<Interval>, v: Version, allow_pre: bool) -> bool {
    (allow_pre || v.pre is None) && exists|i: int| 0 <= i < r.len() && in_interval(v, #[trigger] r[i])
}

/// Whether some bound of the range names a prerelease.
pub open spec fn range_has_pre(r: Seq<Interval>) -> bool {
    exists|i: int|
        0 <= i < r.len() && (bound_is_pre((#[trigger] r[i]).lower) || bound_is_pre(r[i].upper))
}

impl View for VersionRange {
    type V = Seq<Interval>;

    open spec fn view(&self) -> Seq<Interval> {
        self.alternatives@
    }
}

impl VersionRange {
    /// The versions at or after `v`.
    pub fn same_or_later(v: Version) -> (r: VersionRange)
        ensures
            r@ == seq![Interval { lower: Some(Bound { version: v, inclusive: true }), upper: None }],
    {
        VersionRange {
            alternatives: vec![Interval { lower: Some(Bound { version: v, inclusive: true }), upper: None }],
        }
    }

    /// Exactly the version `v`.
    pub fn exactly(v: Version) -> (r: VersionRange)
        ensures
            r@ == seq![Interval {
                lower: Some(Bound { version: v, inclusive: true }),
                upper: Some(Bound { version: v, inclusive: true }),
            }],
    {
        let b = Bound { version: v, inclusive: true };
        VersionRange { alternatives: vec![Interval { lower: Some(b), upper: Some(b) }] }
    }

    pub fn from_intervals(alternatives: Vec<Interval>) -> (r: VersionRange)
        ensures
            r@ == alternatives@,
    {
        VersionRange { alternatives }
    }

    /// A copy of this range.
    pub fn duplicate(&self) -> (r: VersionRange)
        ensures
            r@ == self@,
    {
        let mut out: Vec<Interval> = Vec::new();
        let mut i: usize = 0;
        while i < self.alternatives.len()
            invariant
                i <= self.alternatives@.len(),
                out@ == self.alternatives@.subrange(0, i as int),
            decreases self.alternatives@.len() - i,
        {
            out.push(self.alternatives[i]);
            i += 1;
        }
        assert(out@ =~= self.alternatives@);
        VersionRange { alternatives: out }
    }

    /// Whether `v` lies in this range, prereleases admitted only with `allow_pre`.
    pub fn match_pre(&self, v: &Version, allow_pre: bool) -> (r: bool)
        ensures
            r == range_matches(self@, *v, allow_pre),
    {
        if !allow_pre && v.is_pre() {
            return false;
        }
        let mut i: usize = 0;
        while i < self.alternatives.len()
            invariant
                i <= self@.len(),
                allow_pre || v.pre is None,
                forall|j: int| 0 <= j < i ==> !in_interval(*v, #[trigger] self@[j]),
            decreases self@.len() - i,
        {
            if self.alternatives[i].contains(v) {
                assert(in_interval(*v, self@[i as int]));
                return true;
            }
            i += 1;
        }
        false
    }

    /// Whether some bound of this range is a prerelease.
    pub fn contains_pre(&self) -> (r: bool)
        ensures
            r == range_has_pre(self@),
    {
        let mut i: usize = 0;
        while i < self.alternatives.len()
            invariant
                i <= self@.len(),
                forall|j: int|
                    0 <= j < i ==> !(bound_is_pre((#[trigger] self@[j]).lower) || bound_is_pre(
                        self@[j].upper,
                    )),
            decreases self@.len() - i,
        {
            let it = self.alternatives[i];
            let lo = match it.lower {
                None => false,
                Some(b) => b.version.is_pre(),
            };
            let hi = match it.upper {
                None => false,
                Some(b) => b.version.is_pre(),
            };
            if lo || hi {
                return true;
            }
            i += 1;
        }
        false
    }
}

/// What a project declares for a direct dependency: one exact version, or a range.
#[derive(Debug)]
pub enum DependencyRange {
    Version(Version),
    Range(VersionRange),
}

impl DependencyRange {
    pub fn as_single_version(&self) -> (r: Option<Version>)
        ensures
            r == (match self {
                DependencyRange::Version(v) => Some(*v),
                DependencyRange::Range(_) => None::<Version>,
            }),
    {
        match self {
            DependencyRange::Version(v) => Some(*v),
            DependencyRange::Range(_) => None,
        }
    }

    /// The versions this declaration admits.
    pub fn as_range(&self) -> (r: VersionRange)
        ensures
            match self {
                DependencyRange::Version(v) => r@ == VersionRange::exactly_spec(*v),
                DependencyRange::Range(rg) => r@ == rg@,
            },
    {
        match self {
            DependencyRange::Version(v) => VersionRange::exactly(*v),
            DependencyRange::Range(rg) => rg.duplicate(),
        }
    }
}

impl VersionRange {
    pub open spec fn exactly_spec(v: Version) -> Seq<Interval> {
        seq![Interval {
            lower: Some(Bound { version: v, inclusive: true }),
            upper: Some(Bound { version: v, inclusive: true }),
        }]
    }
}

/// A platform (engine) version that a package may declare itself compatible with.
#[derive(Clone, Copy, Debug, PartialEq, Eq, Structural)]
pub struct UnityVersion {
    pub major: u64,
    pub minor: u64,
}

} // verus!
