use vstd::prelude::*;

use crate::package::{PackageInfo, PackageView};

verus! {

/// Keeps the records whose name differs from `n`.
pub open spec fn not_named(n: Seq<char>) -> spec_fn(PackageView) -> bool {
    |p: PackageView| p.name != n
}

/// The record at `i` is the first pending one named `n`.
pub open spec fn is_first_pending(q: Seq<PackageView>, n: Seq<char>, i: int) -> bool {
    &&& 0 <= i < q.len()
    &&& q[i].name == n
    &&& forall|j: int| 0 <= j < i ==> (#[trigger] q[j]).name != n
}

/// A stack of package records awaiting installation, at most one per name once
/// records go in through `add_pending_package`.
#[derive(Debug)]
pub struct PackageQueue {
    pub pending_queue: Vec<PackageInfo>,
}

impl View for PackageQueue {
    type V = Seq<PackageView>;

    open spec fn view(&self) -> Seq<PackageView> {
        self.pending_queue@.map_values(|p: PackageInfo| p@)
    }
}

impl PackageQueue {
    pub fn new(packages: Vec<PackageInfo>) -> (r: PackageQueue)
        ensures
            r.pending_queue == packages,
    {
        PackageQueue { pending_queue: packages }
    }

    /// Takes the most recently added record.
    pub fn next_package(&mut self) -> (r: Option<PackageInfo>)
        ensures
            old(self)@.len() == 0 ==> r is None && final(self)@ == old(self)@,
            old(self)@.len() > 0 ==> r is Some && r->0@ == old(self)@.last() && final(self)@
                == old(self)@.drop_last(),
    {
        let r = self.pending_queue.pop();
        proof {
            if old(self)@.len() > 0 {
                assert(self@ =~= old(self)@.drop_last());
            }
        }
        r
    }

    /// The first pending record named `name`, if any.
    pub fn find_pending_package(&self, name: &String) -> (r: Option<&PackageInfo>)
        ensures
            r is None <==> forall|i: int| 0 <= i < self@.len() ==> (#[trigger] self@[i]).name != name@,
            r is Some ==> exists|i: int| is_first_pending(self@, name@, i) && r->0@ == #[trigger] self@[i],
    {
        let mut i: usize = 0;
        while i < self.pending_queue.len()
            invariant
                i <= self@.len(),
                self@.len() == self.pending_queue@.len(),
                forall|j: int| 0 <= j < i ==> (#[trigger] self@[j]).name != name@,
            decreases self@.len() - i,
        {
            if self.pending_queue[i].name == *name {
                assert(self@[i as int] == self.pending_queue@[i as int]@);
                return Some(&self.pending_queue[i]);
            }
            assert(self@[i as int] == self.pending_queue@[i as int]@);
            i += 1;
        }
        None
    }

    /// Pushes `package`, first dropping every pending record of the same name.
    pub fn add_pending_package(&mut self, package: PackageInfo)
        ensures
            final(self)@ == old(self)@.filter(not_named(package@.name)).push(package@),
    {
        let ghost pred = not_named(package@.name);
        let mut kept: Vec<PackageInfo> = Vec::new();
        let mut i: usize = 0;
        while i < self.pending_queue.len()
            invariant
                i <= self@.len(),
                self@.len() == self.pending_queue@.len(),
                pred == not_named(package@.name),
                kept@.map_values(|p: PackageInfo| p@) == self@.subrange(0, i as int).filter(pred),
            decreases self@.len() - i,
        {
            let ghost before = kept@.map_values(|p: PackageInfo| p@);
            let ghost sub = self@.subrange(0, i as int + 1);
            assert(sub.drop_last() =~= self@.subrange(0, i as int));
            assert(sub.last() == self.pending_queue@[i as int]@);
            proof {
                reveal(Seq::filter);
            }
            if self.pending_queue[i].name != package.name {
                kept.push(self.pending_queue[i].duplicate());
                assert(kept@.map_values(|p: PackageInfo| p@) =~= before.push(sub.last()));
            }
            i += 1;
        }
        assert(self@.subrange(0, self@.len() as int) =~= self@);
        let ghost before = kept@.map_values(|p: PackageInfo| p@);
        kept.push(package);
        assert(kept@.map_values(|p: PackageInfo| p@) =~= before.push(package@));
        self.pending_queue = kept;
    }
}

/// After a push, the pushed record is the next to be taken, and no other record of its
/// name is pending.
pub proof fn lemma_pending_dedup(before: Seq<PackageView>, p: PackageView)
    ensures
        before.filter(not_named(p.name)).push(p).last() == p,
        forall|i: int|
            0 <= i < before.filter(not_named(p.name)).len() ==> (#[trigger] before.filter(
                not_named(p.name),
            )[i]).name != p.name,
{
    assert forall|i: int| 0 <= i < before.filter(not_named(p.name)).len() implies (
    #[trigger] before.filter(not_named(p.name))[i]).name != p.name by {
        before.lemma_filter_pred(not_named(p.name), i);
    }
}

} // verus!
