use vstd::prelude::*;

verus! {

/// One hygiene layer. A mark is identified by the registry generation that
/// issued it and its position in that generation's numbering.
#[derive(Clone, Copy, Debug, PartialEq, Eq, Structural)]
pub struct Mark {
    pub generation: u64,
    pub index: u64,
}

/// Hands out marks. Within a generation marks are numbered upwards from zero;
/// `reset` opens a new generation, so that marks issued afterwards never equal
/// marks issued before by the same registry. The numbering only moves forward:
/// no operation hands a mark out twice.
///
/// Two registries are independent numbering spaces: each starts where it was
/// created, so marks of different registries may be equal and comparing tags
/// built from two registries says nothing. Isolation between passes is had by
/// resetting one registry.
#[derive(Debug)]
pub struct ContextRegistry {
    generation: u64,
    next: u64,
}

impl ContextRegistry {
    /// The current generation.
    pub closed spec fn generation(self) -> u64 {
        self.generation
    }

    /// The index the next mark of the current generation will have.
    pub closed spec fn next(self) -> u64 {
        self.next
    }

    /// Whether `m` belongs to the marks this registry has handed out so far,
    /// in its current generation or an earlier one.
    pub open spec fn issued(self, m: Mark) -> bool {
        m.generation < self.generation() || (m.generation == self.generation() && m.index
            < self.next())
    }

    /// Room is left for another mark in the current generation.
    pub open spec fn can_allocate(self) -> bool {
        self.next() < u64::MAX
    }

    /// Whether room is left for another mark in the current generation.
    pub fn has_room(&self) -> (r: bool)
        ensures
            r == self.can_allocate(),
    {
        self.next < u64::MAX
    }

    /// A registry whose numbering continues from generation `generation`,
    /// index `next`: for a caller that carries a numbering on from elsewhere.
    pub fn starting_at(generation: u64, next: u64) -> (r: ContextRegistry)
        ensures
            r.generation() == generation,
            r.next() == next,
    {
        ContextRegistry { generation, next }
    }

    pub fn new() -> (r: ContextRegistry)
        ensures
            r.generation() == 0,
            r.next() == 0,
            forall|m: Mark| !r.issued(m),
    {
        ContextRegistry { generation: 0, next: 0 }
    }

    /// Returns a mark that was never handed out before.
    pub fn allocate_mark(&mut self) -> (r: Mark)
        requires
            old(self).can_allocate(),
        ensures
            !old(self).issued(r),
            final(self).issued(r),
            r.generation == old(self).generation(),
            r.index == old(self).next(),
            final(self).generation() == old(self).generation(),
            final(self).next() == old(self).next() + 1,
            forall|m: Mark| #[trigger] final(self).issued(m) <==> (old(self).issued(m) || m == r),
    {
        let r = Mark { generation: self.generation, index: self.next };
        self.next = self.next + 1;
        r
    }

    /// Starts a fresh numbering space. Every mark issued earlier still counts
    /// as issued, so no later mark can collide with one of them.
    pub fn reset(&mut self)
        requires
            old(self).generation() < u64::MAX,
        ensures
            final(self).generation() == old(self).generation() + 1,
            final(self).next() == 0,
            forall|m: Mark| #[trigger] old(self).issued(m) ==> final(self).issued(m),
            forall|m: Mark| #[trigger] final(self).issued(m) <==> m.generation <= old(self).generation(),
    {
        self.generation = self.generation + 1;
        self.next = 0;
    }
}

/// Marks handed out after a reset are distinct from every mark handed out
/// before it, so tags built under the fresh numbering never collide with tags
/// built under the earlier one.
pub proof fn lemma_reset_isolates(before: ContextRegistry, after_reset: ContextRegistry, later: ContextRegistry, m: Mark, old_mark: Mark)
    requires
        after_reset.generation() == before.generation() + 1,
        after_reset.next() == 0,
        later.generation() == after_reset.generation(),
        !after_reset.issued(m),
        later.issued(m),
        before.issued(old_mark),
    ensures
        m != old_mark,
{
}

} // verus!
