//! The arena: one chain of blocks and a place in a fuse group.
use vstd::prelude::*;
use vstd::string::StringSliceAdditionalSpecFns;
use crate::chain::{BlockChain, Region};
use crate::group::{FuseError, FuseGroups, RawArena};
use crate::policy::GrowthPolicy;

verus! {

/// The eight bytes of `v`, least significant first.
pub open spec fn le_bytes(v: u64) -> Seq<u8> {
    Seq::new(8, |k: int| ((v >> ((8 * k) as u64)) & 0xff) as u8)
}

/// An arena: it hands out regions of its own chain of blocks, and shares its
/// lifetime with the arenas of its fuse group.
pub struct Arena {
    raw: RawArena,
    chain: BlockChain,
}

impl Arena {
    /// The blocks of this arena.
    pub closed spec fn chain(&self) -> BlockChain {
        self.chain
    }

    pub closed spec fn id(&self) -> RawArena {
        self.raw
    }

    pub open spec fn wf(&self) -> bool {
        self.chain().wf()
    }

    /// The arena is registered in `groups` and has not been dropped.
    pub open spec fn live_in(&self, groups: FuseGroups) -> bool {
        &&& groups.wf()
        &&& self.id() < groups.len()
        &&& groups.is_alive(self.id() as int)
    }

    /// A fresh arena with the default policy, alone in a new group.
    pub fn new(groups: &mut FuseGroups) -> (a: Arena)
        requires
            old(groups).wf(),
        ensures
            a.wf(),
            a.chain().policy() == GrowthPolicy::standard_spec(),
            a.chain().last_grown() == 0,
            a.chain().num_blocks() == 0,
            forall|q: Region| !a.chain().holds(q),
            final(groups).wf(),
            FuseGroups::registered(*old(groups), false, a.id() as int, *final(groups)),
    {
        Arena::with_policy(groups, GrowthPolicy::standard())
    }

    /// A fresh arena with the given policy, alone in a new group.
    pub fn with_policy(groups: &mut FuseGroups, policy: GrowthPolicy) -> (a: Arena)
        requires
            old(groups).wf(),
            policy.wf(),
        ensures
            a.wf(),
            a.chain().policy() == policy,
            a.chain().num_blocks() == 0,
            a.chain().last_grown() == 0,
            forall|q: Region| !a.chain().holds(q),
            final(groups).wf(),
            FuseGroups::registered(*old(groups), false, a.id() as int, *final(groups)),
    {
        let raw = groups.register(false);
        Arena { raw, chain: BlockChain::new(policy) }
    }

    /// An arena that allocates from `buffer` before it makes any block of
    /// its own. Such an arena cannot be fused.
    pub fn with_buffer(groups: &mut FuseGroups, buffer: Vec<u8>) -> (a: Arena)
        requires
            old(groups).wf(),
        ensures
            a.wf(),
            a.chain().policy() == GrowthPolicy::standard_spec(),
            a.chain().num_blocks() == 1,
            a.chain().capacity(0) == buffer@.len(),
            final(groups).wf(),
            FuseGroups::registered(*old(groups), true, a.id() as int, *final(groups)),
    {
        let raw = groups.register(true);
        Arena { raw, chain: BlockChain::with_initial_block(GrowthPolicy::standard(), buffer) }
    }

    /// Gives up this handle and leaves its blocks with the registry, under
    /// the identity that comes back; `from_raw` makes a handle on them again.
    /// The arena stays alive in its group meanwhile.
    pub fn into_raw(self, groups: &mut FuseGroups) -> (raw: RawArena)
        requires
            self.wf(),
            self.live_in(*old(groups)),
            old(groups).parked(self.id() as int) is None,
        ensures
            raw == self.id(),
            final(groups).wf(),
            FuseGroups::same_but_parked(*old(groups), *final(groups)),
            final(groups).parked(raw as int) == Some(self.chain()),
            forall|j: int|
                0 <= j < old(groups).len() && j != raw ==> #[trigger] final(groups).parked(j)
                    == old(groups).parked(j),
    {
        groups.detach(self.raw, self.chain);
        self.raw
    }

    /// The arena whose blocks `into_raw` left with the registry under
    /// `raw_arena`: its allocations go on in those blocks.
    pub fn from_raw(raw_arena: RawArena, groups: &mut FuseGroups) -> (a: Arena)
        requires
            old(groups).wf(),
            raw_arena < old(groups).len(),
            old(groups).is_alive(raw_arena as int),
            old(groups).parked(raw_arena as int) is Some,
        ensures
            a.wf(),
            a.id() == raw_arena,
            a.chain() == old(groups).parked(raw_arena as int)->0,
            a.live_in(*final(groups)),
            FuseGroups::same_but_parked(*old(groups), *final(groups)),
            final(groups).parked(raw_arena as int) is None,
            forall|j: int|
                0 <= j < old(groups).len() && j != raw_arena ==> #[trigger] final(groups).parked(j)
                    == old(groups).parked(j),
    {
        let chain = groups.attach(raw_arena);
        Arena { raw: raw_arena, chain }
    }

    /// The identity of this arena in its registry.
    pub fn raw(&self) -> (r: RawArena)
        ensures
            r == self.id(),
    {
        self.raw
    }

    /// Allocates `size` bytes aligned to `align`; earlier regions keep their place
    /// and their bytes.
    pub fn allocate_bytes(&mut self, size: usize, align: usize) -> (r: Region)
        requires
            old(self).wf(),
            1 <= align <= old(self).chain().policy().max_align,
        ensures
            final(self).wf(),
            final(self).id() == old(self).id(),
            crate::chain::allocated(old(self).chain(), size as nat, align as nat, r, final(self).chain()),
    {
        self.chain.allocate(size, align)
    }

    /// `allocate_bytes`, for a caller that has checked `align` against the ceiling.
    pub fn checked_alloc(&mut self, size: usize, align: usize) -> (r: Region)
        requires
            old(self).wf(),
            1 <= align <= old(self).chain().policy().max_align,
        ensures
            final(self).wf(),
            final(self).id() == old(self).id(),
            crate::chain::allocated(old(self).chain(), size as nat, align as nat, r, final(self).chain()),
    {
        self.allocate_bytes(size, align)
    }

    /// Copies `data` into the arena.
    pub fn copy_slice_in(&mut self, data: &[u8]) -> (r: Region)
        requires
            old(self).wf(),
        ensures
            final(self).wf(),
            final(self).id() == old(self).id(),
            crate::chain::allocated(old(self).chain(), data@.len(), 1, r, final(self).chain()),
            final(self).chain().bytes(r) == data@,
    {
        proof {
            self.chain.lemma_policy_wf();
        }
        let ghost c0 = self.chain;
        let r = self.chain.allocate(data.len(), 1);
        let ghost c1 = self.chain;
        self.chain.write(r, data);
        assert forall|q: Region| c0.holds(q) implies self.chain.holds(q) && q.disjoint(r)
            && self.chain.bytes(q) == c0.bytes(q) by {
            assert(c1.holds(q));
        }
        assert forall|i: int| 0 <= i < c0.num_blocks() implies #[trigger] self.chain.capacity(i)
            == c0.capacity(i) && (i != r.block ==> self.chain.fill(i) == c0.fill(i)) by {
            assert(c1.capacity(i) == c0.capacity(i));
            assert(i != r.block ==> c1.fill(i) == c0.fill(i));
        }
        assert(r.block < c1.num_blocks());
        r
    }

    /// Copies the UTF-8 bytes of `s` into the arena.
    pub fn copy_str_in(&mut self, s: &str) -> (r: Region)
        requires
            old(self).wf(),
        ensures
            final(self).wf(),
            final(self).id() == old(self).id(),
            crate::chain::allocated(
                old(self).chain(),
                s.spec_bytes().len(),
                1,
                r,
                final(self).chain(),
            ),
            final(self).chain().bytes(r) == s.spec_bytes(),
    {
        let data = s.as_bytes();
        proof {
            self.chain.lemma_policy_wf();
        }
        let ghost c0 = self.chain;
        let r = self.chain.allocate(data.len(), 1);
        let ghost c1 = self.chain;
        self.chain.write(r, data);
        assert forall|q: Region| c0.holds(q) implies self.chain.holds(q) && q.disjoint(r)
            && self.chain.bytes(q) == c0.bytes(q) by {
            assert(c1.holds(q));
        }
        assert forall|i: int| 0 <= i < c0.num_blocks() implies #[trigger] self.chain.capacity(i)
            == c0.capacity(i) && (i != r.block ==> self.chain.fill(i) == c0.fill(i)) by {
            assert(c1.capacity(i) == c0.capacity(i));
            assert(i != r.block ==> c1.fill(i) == c0.fill(i));
        }
        assert(r.block < c1.num_blocks());
        r
    }

    /// Copies `v` into the arena as eight bytes, least significant first, at
    /// an offset within its block that is a multiple of eight.
    pub fn copy_in(&mut self, v: u64) -> (r: Region)
        requires
            old(self).wf(),
            8 <= old(self).chain().policy().max_align,
        ensures
            final(self).wf(),
            final(self).id() == old(self).id(),
            crate::chain::allocated(old(self).chain(), 8, 8, r, final(self).chain()),
            final(self).chain().bytes(r) == le_bytes(v),
    {
        let mut buf: Vec<u8> = Vec::new();
        let mut k: u64 = 0;
        while k < 8
            invariant
                k <= 8,
                buf@.len() == k,
                forall|j: int| 0 <= j < k ==> buf@[j] == le_bytes(v)[j],
            decreases 8 - k,
        {
            let shift: u64 = 8 * k;
            buf.push(((v >> shift) & 0xff) as u8);
            k = k + 1;
        }
        assert(buf@ =~= le_bytes(v));
        proof {
            self.chain.lemma_policy_wf();
        }
        let ghost c0 = self.chain;
        let r = self.chain.allocate(8, 8);
        let ghost c1 = self.chain;
        self.chain.write(r, buf.as_slice());
        assert forall|q: Region| c0.holds(q) implies self.chain.holds(q) && q.disjoint(r)
            && self.chain.bytes(q) == c0.bytes(q) by {
            assert(c1.holds(q));
        }
        assert forall|i: int| 0 <= i < c0.num_blocks() implies #[trigger] self.chain.capacity(i)
            == c0.capacity(i) && (i != r.block ==> self.chain.fill(i) == c0.fill(i)) by {
            assert(c1.capacity(i) == c0.capacity(i));
            assert(i != r.block ==> c1.fill(i) == c0.fill(i));
        }
        assert(r.block < c1.num_blocks());
        r
    }

    /// The bytes of a region of this arena.
    pub fn bytes(&self, r: Region) -> (s: &[u8])
        requires
            self.wf(),
            self.chain().holds(r),
        ensures
            s@ == self.chain().bytes(r),
    {
        self.chain.read(r)
    }

    /// Joins the lifetime of this arena with that of `other`: the blocks of
    /// both stay until every member of the joined group is dropped. Refused
    /// where either arena allocates from a buffer it does not own.
    pub fn fuse(&self, other: &Arena, groups: &mut FuseGroups) -> (r: Result<(), FuseError>)
        requires
            self.live_in(*old(groups)),
            other.live_in(*old(groups)),
        ensures
            final(groups).wf(),
            r is Err <==> old(groups).is_fixed(self.id() as int) || old(groups).is_fixed(
                other.id() as int,
            ),
            r is Err ==> r == Err::<(), FuseError>(FuseError::FixedBuffer) && *final(groups)
                == *old(groups),
            r is Ok ==> FuseGroups::joined(
                *old(groups),
                self.id() as int,
                other.id() as int,
                *final(groups),
            ),
    {
        groups.fuse(self.raw, other.raw)
    }

    /// Drops this arena. Its blocks are kept while another member of its
    /// group lives; `true` means the group's blocks were released.
    pub fn free(self, groups: &mut FuseGroups) -> (freed: bool)
        requires
            self.wf(),
            self.live_in(*old(groups)),
        ensures
            final(groups).wf(),
            FuseGroups::released(*old(groups), self.id() as int, self.chain(), freed, *final(groups)),
    {
        groups.release(self.raw, self.chain)
    }
}


} // verus!
