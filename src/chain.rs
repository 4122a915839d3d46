//! A chain of blocks served by a bump cursor in the newest one.
use vstd::prelude::*;
use vstd::arithmetic::div_mod::{lemma_fundamental_div_mod, lemma_mod_multiples_basic};
use crate::policy::GrowthPolicy;

verus! {

/// A range of bytes handed out by a chain: `len` bytes from `offset` in
/// block number `block` (blocks are numbered in the order they were made).
#[derive(Clone, Copy, Debug, PartialEq, Eq)]
pub struct Region {
    pub block: usize,
    pub offset: usize,
    pub len: usize,
}

impl Region {
    pub open spec fn end(self) -> nat {
        self.offset as nat + self.len as nat
    }

    /// The two regions share no byte.
    pub open spec fn disjoint(self, other: Region) -> bool {
        self.block != other.block || self.end() <= other.offset || other.end() <= self.offset
    }

    /// The region starts at a multiple of `align` within its block.
    pub open spec fn aligned_to(self, align: nat) -> bool {
        self.offset as nat % align == 0
    }
}

/// Bytes needed to bring `used` up to a multiple of `align`.
pub open spec fn padding(used: nat, align: nat) -> nat
    recommends
        align > 0,
{
    if used % align == 0 {
        0
    } else {
        (align - used % align) as nat
    }
}

proof fn lemma_padding_aligns(used: nat, align: nat)
    requires
        align > 0,
    ensures
        (used + padding(used, align)) % align == 0,
        padding(used, align) < align,
{
    lemma_fundamental_div_mod(used as int, align as int);
    if used % align != 0 {
        let q = used / align;
        assert(align * (q + 1) == align * q + align) by (nonlinear_arith);
        assert(used + padding(used, align) == align * (used / align + 1));
        lemma_mod_multiples_basic((used / align + 1) as int, align as int);
        assert((used / align + 1) * align == align * (used / align + 1)) by (nonlinear_arith);
    }
}

/// `c1` is `c0` after it served `size` bytes at `align` as `r`: the region is
/// new, aligned, and apart from every region served before, which keep their
/// bytes; a new block is made exactly when the request does not fit in the
/// newest one.
pub open spec fn allocated(c0: BlockChain, size: nat, align: nat, r: Region, c1: BlockChain) -> bool {
    let n = c0.num_blocks() as int;
    &&& c1.policy() == c0.policy()
    &&& c1.holds(r)
    &&& r.len == size
    &&& r.aligned_to(align)
    &&& forall|q: Region|
        c0.holds(q) ==> {
            &&& c1.holds(q)
            &&& q.disjoint(r)
            &&& c1.bytes(q) == c0.bytes(q)
        }
    &&& forall|i: int| 0 <= i < n ==> #[trigger] c1.capacity(i) == c0.capacity(i)
    &&& forall|i: int| 0 <= i < n && i != r.block ==> #[trigger] c1.fill(i) == c0.fill(i)
    &&& c1.fill(r.block as int) == r.end()
    &&& c0.fits(size, align) ==> {
        &&& c1.num_blocks() == n
        &&& r.block == n - 1
        &&& r.offset == c0.fill(n - 1) + padding(c0.fill(n - 1), align)
        &&& c1.last_grown() == c0.last_grown()
    }
    &&& !c0.fits(size, align) ==> {
        &&& c1.num_blocks() == n + 1
        &&& r.block == n
        &&& r.offset == 0
        &&& c1.capacity(n) == c0.policy().block_for(c0.last_grown(), size)
        &&& c1.last_grown() == c0.policy().last_after(c0.last_grown(), size)
    }
}

/// Every region held by `c0` is held by `c1` with the same bytes.
pub open spec fn keeps(c0: BlockChain, c1: BlockChain) -> bool {
    forall|q: Region| c0.holds(q) ==> c1.holds(q) && c1.bytes(q) == c0.bytes(q)
}

/// Over a run of calls each of which keeps the regions served before it, a
/// region and its bytes survive from any state to every later one.
pub proof fn lemma_kept_across_calls(chains: Seq<BlockChain>)
    requires
        forall|k: int| 0 <= k < chains.len() - 1 ==> keeps(#[trigger] chains[k], chains[k + 1]),
    ensures
        forall|i: int, j: int| 0 <= i <= j < chains.len() ==> keeps(chains[i], chains[j]),
{
    assert forall|i: int, j: int| 0 <= i <= j < chains.len() implies keeps(chains[i], chains[j]) by {
        lemma_kept_from(chains, i, j);
    }
}

proof fn lemma_kept_from(chains: Seq<BlockChain>, i: int, j: int)
    requires
        forall|k: int| 0 <= k < chains.len() - 1 ==> keeps(#[trigger] chains[k], chains[k + 1]),
        0 <= i <= j < chains.len(),
    ensures
        keeps(chains[i], chains[j]),
    decreases j - i,
{
    if i < j {
        lemma_kept_from(chains, i, j - 1);
        assert(keeps(chains[j - 1], chains[j]));
    }
}

/// Regions that a chain serves one request after another never overlap,
/// each has the size and alignment that its request asked for, and all stay
/// held by the chain.
pub proof fn lemma_allocations_disjoint(
    chains: Seq<BlockChain>,
    sizes: Seq<nat>,
    aligns: Seq<nat>,
    regions: Seq<Region>,
)
    requires
        chains.len() == regions.len() + 1,
        sizes.len() == regions.len(),
        aligns.len() == regions.len(),
        forall|k: int|
            0 <= k < regions.len() ==> allocated(
                #[trigger] chains[k],
                sizes[k],
                aligns[k],
                regions[k],
                chains[k + 1],
            ),
    ensures
        forall|i: int, j: int|
            0 <= i < j < regions.len() ==> #[trigger] regions[i].disjoint(regions[j]),
        forall|i: int|
            0 <= i < regions.len() ==> #[trigger] regions[i].aligned_to(aligns[i]) && regions[i].len
                == sizes[i],
        forall|i: int| 0 <= i < regions.len() ==> chains.last().holds(#[trigger] regions[i]),
{
    assert forall|i: int, j: int| 0 <= i < j < regions.len() implies #[trigger] regions[i].disjoint(
        regions[j],
    ) by {
        lemma_held_later(chains, sizes, aligns, regions, i, j);
        assert(allocated(chains[j], sizes[j], aligns[j], regions[j], chains[j + 1]));
    }
    assert forall|i: int| 0 <= i < regions.len() implies chains.last().holds(#[trigger] regions[i]) by {
        lemma_held_later(chains, sizes, aligns, regions, i, regions.len() as int);
    }
    assert forall|i: int| 0 <= i < regions.len() implies #[trigger] regions[i].aligned_to(aligns[i])
        && regions[i].len == sizes[i] by {
        assert(allocated(chains[i], sizes[i], aligns[i], regions[i], chains[i + 1]));
    }
}

proof fn lemma_held_later(
    chains: Seq<BlockChain>,
    sizes: Seq<nat>,
    aligns: Seq<nat>,
    regions: Seq<Region>,
    i: int,
    k: int,
)
    requires
        chains.len() == regions.len() + 1,
        sizes.len() == regions.len(),
        aligns.len() == regions.len(),
        forall|k: int|
            0 <= k < regions.len() ==> allocated(
                #[trigger] chains[k],
                sizes[k],
                aligns[k],
                regions[k],
                chains[k + 1],
            ),
        0 <= i < k <= regions.len(),
    ensures
        chains[k].holds(regions[i]),
    decreases k - i,
{
    assert(allocated(chains[k - 1], sizes[k - 1], aligns[k - 1], regions[k - 1], chains[k]));
    if k - 1 > i {
        lemma_held_later(chains, sizes, aligns, regions, i, k - 1);
    }
}

struct Block {
    data: Vec<u8>,
    used: usize,
}

/// The blocks of one arena; the last one made receives bump allocations.
pub struct BlockChain {
    blocks: Vec<Block>,
    last: usize,
    policy: GrowthPolicy,
}

impl BlockChain {
    pub closed spec fn wf(&self) -> bool {
        &&& self.policy.wf()
        &&& self.last <= self.policy.cap
        &&& forall|i: int|
            0 <= i < self.blocks@.len() ==> #[trigger] self.blocks@[i].used
                <= self.blocks@[i].data@.len()
    }

    pub closed spec fn policy(&self) -> GrowthPolicy {
        self.policy
    }

    /// Number of blocks made so far.
    pub closed spec fn num_blocks(&self) -> nat {
        self.blocks@.len()
    }

    /// Capacity of block `i`.
    pub closed spec fn capacity(&self, i: int) -> nat {
        self.blocks@[i].data@.len()
    }

    /// Growth history: size of the last block that growth alone produced.
    pub closed spec fn last_grown(&self) -> nat {
        self.last as nat
    }

    /// The region has been handed out by this chain.
    pub closed spec fn holds(&self, r: Region) -> bool {
        &&& r.block < self.blocks@.len()
        &&& r.end() <= self.blocks@[r.block as int].used
    }

    /// What the region holds now.
    pub closed spec fn bytes(&self, r: Region) -> Seq<u8> {
        self.blocks@[r.block as int].data@.subrange(r.offset as int, r.end() as int)
    }

    /// Bytes of block `i` handed out so far.
    pub closed spec fn fill(&self, i: int) -> nat {
        self.blocks@[i].used as nat
    }

    /// A request of `size` bytes at `align` fits in the newest block.
    pub open spec fn fits(&self, size: nat, align: nat) -> bool {
        let n = self.num_blocks() as int;
        &&& n > 0
        &&& self.fill(n - 1) + padding(self.fill(n - 1), align) + size <= self.capacity(n - 1)
    }

    pub proof fn lemma_policy_wf(&self)
        requires
            self.wf(),
        ensures
            self.policy().wf(),
    {
    }

    /// An empty chain: its first block is made by the first allocation.
    pub fn new(policy: GrowthPolicy) -> (r: BlockChain)
        requires
            policy.wf(),
        ensures
            r.wf(),
            r.policy() == policy,
            r.num_blocks() == 0,
            r.last_grown() == 0,
            forall|q: Region| !r.holds(q),
    {
        BlockChain { blocks: Vec::new(), last: 0, policy }
    }

    /// A chain whose first block is `buffer`, which serves allocations before
    /// any block is made.
    pub fn with_initial_block(policy: GrowthPolicy, buffer: Vec<u8>) -> (r: BlockChain)
        requires
            policy.wf(),
        ensures
            r.wf(),
            r.policy() == policy,
            r.num_blocks() == 1,
            r.capacity(0) == buffer@.len(),
            r.last_grown() == 0,
            forall|q: Region| r.holds(q) ==> q.block == 0 && q.len == 0 && q.offset == 0,
    {
        let mut blocks: Vec<Block> = Vec::new();
        blocks.push(Block { data: buffer, used: 0 });
        BlockChain { blocks, last: 0, policy }
    }

    /// Serves `size` bytes at alignment `align`: from the newest block where
    /// they fit, else from a new block sized by the growth policy.
    pub fn allocate(&mut self, size: usize, align: usize) -> (r: Region)
        requires
            old(self).wf(),
            1 <= align <= old(self).policy().max_align,
        ensures
            final(self).wf(),
            final(self).policy() == old(self).policy(),
            allocated(*old(self), size as nat, align as nat, r, *final(self)),
    {
        let n = self.blocks.len();
        if n > 0 {
            let used = self.blocks[n - 1].used;
            let cap = self.blocks[n - 1].data.len();
            let rem = used % align;
            let pad = if rem == 0 {
                0
            } else {
                align - rem
            };
            proof {
                lemma_padding_aligns(used as nat, align as nat);
            }
            if pad <= cap - used && size <= cap - used - pad {
                let start = used + pad;
                let ghost before = self.blocks@;
                self.blocks[n - 1].used = start + size;
                assert forall|q: Region| old(self).holds(q) implies final(self).bytes(q) == old(
                    self,
                ).bytes(q) by {
                    assert(self.blocks@[q.block as int].data@ == before[q.block as int].data@);
                }
                return Region { block: n - 1, offset: start, len: size };
            }
        }
        let (capacity, last) = self.policy.next_block(self.last, size);
        let mut data: Vec<u8> = Vec::new();
        data.resize(capacity, 0u8);
        self.blocks.push(Block { data, used: size });
        self.last = last;
        proof {
            lemma_fundamental_div_mod(0, align as int);
        }
        assert forall|q: Region| old(self).holds(q) implies final(self).bytes(q) == old(self).bytes(
            q,
        ) by {
            assert(self.blocks@[q.block as int] == old(self).blocks@[q.block as int]);
        }
        Region { block: n, offset: 0, len: size }
    }

    /// Copies `src` into the region.
    pub fn write(&mut self, r: Region, src: &[u8])
        requires
            old(self).wf(),
            old(self).holds(r),
            src@.len() == r.len,
        ensures
            final(self).wf(),
            final(self).policy() == old(self).policy(),
            final(self).num_blocks() == old(self).num_blocks(),
            final(self).last_grown() == old(self).last_grown(),
            forall|i: int|
                0 <= i < old(self).num_blocks() ==> final(self).capacity(i) == old(self).capacity(
                    i,
                ),
            forall|q: Region| #[trigger] final(self).holds(q) == old(self).holds(q),
            forall|i: int| 0 <= i < old(self).num_blocks() ==> #[trigger] final(self).fill(i) == old(self).fill(i),
            final(self).bytes(r) == src@,
            forall|q: Region|
                old(self).holds(q) && q.disjoint(r) ==> final(self).bytes(q) == old(self).bytes(q),
    {
        let b = r.block;
        let mut blk = Block { data: Vec::new(), used: 0 };
        std::mem::swap(&mut blk, &mut self.blocks[b]);
        let ghost start = blk.data@;
        let mut i: usize = 0;
        while i < r.len
            invariant
                i <= r.len,
                r.end() <= blk.used <= blk.data@.len(),
                blk.data@.len() == start.len(),
                blk.used == old(self).blocks@[b as int].used,
                start == old(self).blocks@[b as int].data@,
                src@.len() == r.len,
                forall|k: int| 0 <= k < i ==> blk.data@[r.offset + k] == src@[k],
                forall|k: int|
                    0 <= k < start.len() && !(r.offset <= k < r.offset + i) ==> blk.data@[k]
                        == start[k],
            decreases r.len - i,
        {
            blk.data[r.offset + i] = src[i];
            i = i + 1;
        }
        std::mem::swap(&mut blk, &mut self.blocks[b]);
        assert(self.bytes(r) =~= src@);
        assert forall|q: Region| old(self).holds(q) && q.disjoint(r) implies final(self).bytes(q)
            == old(self).bytes(q) by {
            assert(final(self).bytes(q) =~= old(self).bytes(q));
        }
    }

    /// The bytes of the region.
    pub fn read(&self, r: Region) -> (s: &[u8])
        requires
            self.wf(),
            self.holds(r),
        ensures
            s@ == self.bytes(r),
    {
        vstd::slice::slice_subrange(self.blocks[r.block].data.as_slice(), r.offset, r.offset + r.len)
    }
}

} // verus!
