//! What a scan of a directory tree decides, apart from reading the disk:
//! how many workers may scan at once, what a file counts for when its size
//! cannot be had, and how the entries of a directory become its node.

use vstd::prelude::*;
use crate::tree::{total_weight, views, Tree, TreeNode};

verus! {

/// The number of workers that scan at once, at most.
pub const MAX_WORKERS: u32 = 32;

/// The count of the workers that scan at once, as a mathematical value.
pub struct QuotaModel {
    pub active: nat,
    pub limit: nat,
}

/// What a worker does to the count.
pub enum QuotaStep {
    /// Asks for a place among the workers.
    Enter,
    /// Gives its place up.
    Leave,
}

impl QuotaModel {
    /// The count after `step`: a worker enters only while there is a place
    /// left, and leaves only if there is a worker.
    pub open spec fn after(self, step: QuotaStep) -> QuotaModel {
        match step {
            QuotaStep::Enter => if self.active < self.limit {
                QuotaModel { active: self.active + 1, ..self }
            } else {
                self
            },
            QuotaStep::Leave => if self.active > 0 {
                QuotaModel { active: (self.active - 1) as nat, ..self }
            } else {
                self
            },
        }
    }

    /// The count after all of `steps`, in order.
    pub open spec fn after_all(self, steps: Seq<QuotaStep>) -> QuotaModel
        decreases steps.len(),
    {
        if steps.len() == 0 {
            self
        } else {
            self.after_all(steps.drop_last()).after(steps.last())
        }
    }
}

/// Whatever the workers do, and in whatever order, there are never more of
/// them at work than the limit allows.
pub proof fn lemma_quota_never_exceeded(limit: nat, steps: Seq<QuotaStep>)
    ensures
        (QuotaModel { active: 0, limit }).after_all(steps).active <= limit,
        (QuotaModel { active: 0, limit }).after_all(steps).limit == limit,
    decreases steps.len(),
{
    if steps.len() > 0 {
        lemma_quota_never_exceeded(limit, steps.drop_last());
    }
}

/// Counts the workers that scan at once, and keeps them to a limit.
#[derive(Debug)]
pub struct WorkerQuota {
    active: u32,
    limit: u32,
}

impl View for WorkerQuota {
    type V = QuotaModel;

    closed spec fn view(&self) -> QuotaModel {
        QuotaModel { active: self.active as nat, limit: self.limit as nat }
    }
}

impl WorkerQuota {
    /// What every quota satisfies: no more workers than the limit.
    #[verifier::type_invariant]
    pub open spec fn within_limit(&self) -> bool {
        self@.active <= self@.limit <= u32::MAX
    }

    /// A quota that lets `limit` workers scan at once, with none at work.
    pub fn new(limit: u32) -> (quota: WorkerQuota)
        ensures
            quota@ == (QuotaModel { active: 0, limit: limit as nat }),
    {
        WorkerQuota { active: 0, limit }
    }

    /// Asks for a place among the workers. Where one is left it is taken, and
    /// the scan may go on in a worker of its own; otherwise it has to go on
    /// in the worker that asked.
    pub fn try_enter(&mut self) -> (entered: bool)
        ensures
            entered == (old(self)@.active < old(self)@.limit),
            final(self)@ == old(self)@.after(QuotaStep::Enter),
            final(self)@.active <= final(self)@.limit,
    {
        proof {
            use_type_invariant(&*self);
        }
        if self.active < self.limit {
            self.active = self.active + 1;
            true
        } else {
            false
        }
    }

    /// Gives up the place of a worker that is done. Tells whether there was
    /// a worker to leave.
    pub fn leave(&mut self) -> (left: bool)
        ensures
            left == (old(self)@.active > 0),
            final(self)@ == old(self)@.after(QuotaStep::Leave),
            final(self)@.active <= final(self)@.limit,
    {
        proof {
            use_type_invariant(&*self);
        }
        if self.active > 0 {
            self.active = self.active - 1;
            true
        } else {
            false
        }
    }

    /// The number of workers at work.
    pub fn active(&self) -> (count: u32)
        ensures
            count == self@.active,
            count <= self@.limit,
    {
        proof {
            use_type_invariant(self);
        }
        self.active
    }

    /// The number of workers that may scan at once.
    pub fn limit(&self) -> (count: u32)
        ensures
            count == self@.limit,
    {
        self.limit
    }
}

/// The size that a file counts for: the size on disk where that could be had,
/// else its length, and nothing where neither could be had.
pub open spec fn counted_size(on_disk: Option<u64>, length: Option<u64>) -> u64 {
    match on_disk {
        Some(size) => size,
        None => match length {
            Some(size) => size,
            None => 0,
        },
    }
}

/// The size that a file counts for.
pub fn file_size(on_disk: Option<u64>, length: Option<u64>) -> (size: u64)
    ensures
        size == counted_size(on_disk, length),
{
    match on_disk {
        Some(size) => size,
        None => match length {
            Some(size) => size,
            None => 0,
        },
    }
}

/// The size that the two halves of a size on disk stand for, where the
/// system reports it in two words of 32 bits; the low word with all bits set
/// reports a failure.
pub open spec fn joined_size(low: u32, high: u32) -> Option<u64> {
    if low == u32::MAX {
        None
    } else {
        Some((high as u64 * 0x1_0000_0000 + low as u64) as u64)
    }
}

/// Joins the two halves of a size on disk.
pub fn join_size(low: u32, high: u32) -> (size: Option<u64>)
    ensures
        size == joined_size(low, high),
{
    if low == u32::MAX {
        None
    } else {
        let upper: u64 = high as u64;
        let lower: u64 = low as u64;
        assert((upper << 32) | lower == upper * 0x1_0000_0000 + lower) by (bit_vector)
            requires
                upper <= 0xffff_ffff,
                lower <= 0xffff_ffff,
        ;
        Some((upper << 32) | lower)
    }
}

/// Why the entries of a directory did not become a node.
#[derive(Clone, Copy, Debug, PartialEq, Eq, Structural)]
pub enum AssemblyError {
    /// An entry of the listing has not been scanned.
    Incomplete,
    /// The sizes of the entries do not add up in 64 bits.
    TooLarge,
}

/// The contents of the places of an assembly.
pub open spec fn places(slots: Seq<Option<TreeNode>>) -> Seq<Option<Tree>> {
    Seq::new(
        slots.len(),
        |i: int|
            match slots[i] {
                Some(node) => Some(node@),
                None => None,
            },
    )
}

/// Whether every place is taken.
pub open spec fn complete(places: Seq<Option<Tree>>) -> bool {
    forall|i: int| 0 <= i < places.len() ==> (#[trigger] places[i]) is Some
}

/// The entries in the places, in order.
pub open spec fn gathered(places: Seq<Option<Tree>>) -> Seq<Tree> {
    Seq::new(places.len(), |i: int| places[i]->0)
}

/// The entries of a directory while they are scanned: one place for each
/// entry of the listing, filled in whatever order the scans end, and read in
/// the order of the listing.
#[derive(Debug)]
pub struct Assembly {
    slots: Vec<Option<TreeNode>>,
}

impl View for Assembly {
    type V = Seq<Option<Tree>>;

    closed spec fn view(&self) -> Seq<Option<Tree>> {
        places(self.slots@)
    }
}

impl Assembly {
    /// An assembly with `count` places, none of them taken.
    pub fn new(count: usize) -> (assembly: Assembly)
        ensures
            assembly@ == Seq::new(count as nat, |i: int| None::<Tree>),
    {
        let mut slots: Vec<Option<TreeNode>> = Vec::new();
        let mut made: usize = 0;
        while made < count
            invariant
                made <= count,
                slots@.len() == made,
                forall|i: int| 0 <= i < made ==> (#[trigger] slots@[i]) is None,
            decreases count - made,
        {
            slots.push(None);
            made += 1;
        }
        let assembly = Assembly { slots };
        assert(assembly@ =~= Seq::new(count as nat, |i: int| None::<Tree>));
        assembly
    }

    /// The number of places.
    pub fn len(&self) -> (count: usize)
        ensures
            count == self@.len(),
    {
        self.slots.len()
    }

    /// Puts `node` in the place of entry `index` of the listing. Tells whether
    /// there is such a place; the assembly stays as it is where there is none.
    pub fn place(&mut self, index: usize, node: TreeNode) -> (placed: bool)
        ensures
            placed == (index < old(self)@.len()),
            placed ==> final(self)@ == old(self)@.update(index as int, Some(node@)),
            !placed ==> final(self)@ == old(self)@,
    {
        if index < self.slots.len() {
            self.slots.set(index, Some(node));
            assert(self@ =~= old(self)@.update(index as int, Some(node@)));
            true
        } else {
            false
        }
    }

    /// Whether every place is taken.
    pub fn is_complete(&self) -> (done: bool)
        ensures
            done == complete(self@),
    {
        let mut index: usize = 0;
        while index < self.slots.len()
            invariant
                index <= self.slots.len(),
                forall|i: int| 0 <= i < index ==> (#[trigger] self@[i]) is Some,
            decreases self.slots.len() - index,
        {
            if self.slots[index].is_none() {
                assert(self@[index as int] is None);
                return false;
            }
            index += 1;
        }
        true
    }

    /// Makes the node of the directory `name` out of the entries. The node
    /// holds them in the order of the listing, and its size is the sum of
    /// theirs.
    pub fn finish(self, name: String) -> (node: Result<TreeNode, AssemblyError>)
        ensures
            match node {
                Ok(directory) => complete(self@) && directory@ == (Tree::Directory {
                    name: name@,
                    size: total_weight(gathered(self@)),
                    children: gathered(self@),
                }),
                Err(AssemblyError::Incomplete) => !complete(self@),
                Err(AssemblyError::TooLarge) => complete(self@) && total_weight(gathered(self@))
                    > u64::MAX,
            },
    {
        let ghost given = self@;
        let mut slots = self.slots;
        let mut reversed: Vec<TreeNode> = Vec::new();
        let ghost all = slots@;
        while slots.len() > 0
            invariant
                given == self@,
                given == places(all),
                slots@ == all.subrange(0, slots@.len() as int),
                reversed@.len() == all.len() - slots@.len(),
                forall|i: int|
                    0 <= i < reversed@.len() ==> all[all.len() - 1 - i] == Some(
                        #[trigger] reversed@[i],
                    ),
            decreases slots.len(),
        {
            let ghost at = slots@.len() - 1;
            match slots.pop() {
                Some(Some(entry)) => {
                    reversed.push(entry);
                },
                _ => {
                    assert(all[at] is None);
                    assert(given[at] is None);
                    assert(!complete(given));
                    return Err(AssemblyError::Incomplete);
                },
            }
        }
        let mut children: Vec<TreeNode> = Vec::new();
        while reversed.len() > 0
            invariant
                given == places(all),
                children@.len() + reversed@.len() == all.len(),
                forall|i: int|
                    0 <= i < reversed@.len() ==> all[all.len() - 1 - i] == Some(
                        #[trigger] reversed@[i],
                    ),
                forall|i: int| 0 <= i < children@.len() ==> all[i] == Some(#[trigger] children@[i]),
            decreases reversed.len(),
        {
            match reversed.pop() {
                Some(entry) => {
                    children.push(entry);
                },
                None => {},
            }
        }
        assert forall|i: int| 0 <= i < given.len() implies (#[trigger] given[i]) is Some by {
            assert(all[i] == Some(children@[i]));
        }
        assert(views(children@) =~= gathered(given)) by {
            assert forall|i: int| 0 <= i < given.len() implies views(children@)[i] == gathered(
                given,
            )[i] by {
                assert(all[i] == Some(children@[i]));
            }
        }
        match TreeNode::directory(name, children) {
            Some(directory) => Ok(directory),
            None => Err(AssemblyError::TooLarge),
        }
    }
}

} // verus!
