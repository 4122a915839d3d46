//! The choice of the size of the next block of a chain.
use vstd::prelude::*;

verus! {

/// Size of the first block of a chain under the default policy.
pub const DEFAULT_INITIAL_BLOCK: usize = 256;

/// Largest block that growth alone produces under the default policy.
pub const DEFAULT_GROWTH_CAP: usize = 65536;

/// Factor by which each block grows over the previous one, by default.
pub const DEFAULT_GROWTH_FACTOR: usize = 2;

/// Largest alignment that an allocation may ask for.
pub const MAX_SUPPORTED_ALIGN: usize = 16;

/// Largest cap a policy may be configured with.
pub const MAX_GROWTH_CAP: usize = 0x1000_0000;

/// Largest growth factor a policy may be configured with.
pub const MAX_GROWTH_FACTOR: usize = 16;

/// Configuration of a chain, fixed when the arena is made.
#[derive(Clone, Copy, Debug, PartialEq, Eq)]
pub struct GrowthPolicy {
    pub initial: usize,
    pub factor: usize,
    pub cap: usize,
    pub max_align: usize,
}

impl GrowthPolicy {
    pub open spec fn wf(&self) -> bool {
        &&& 1 <= self.initial <= self.cap <= MAX_GROWTH_CAP
        &&& 1 <= self.factor <= MAX_GROWTH_FACTOR
        &&& 1 <= self.max_align <= MAX_SUPPORTED_ALIGN
    }

    /// Size that growth alone gives after a block of `last` bytes
    /// (`last == 0`: no block has been sized by growth yet).
    pub open spec fn grown(&self, last: nat) -> nat {
        if last == 0 {
            self.initial as nat
        } else if last * self.factor > self.cap {
            self.cap as nat
        } else {
            (last * self.factor) as nat
        }
    }

    /// Capacity of the block made for a request of `request` bytes.
    pub open spec fn block_for(&self, last: nat, request: nat) -> nat {
        if request > self.grown(last) {
            request
        } else {
            self.grown(last)
        }
    }

    /// Growth history after that block: an oversized request leaves it as it was.
    pub open spec fn last_after(&self, last: nat, request: nat) -> nat {
        if request > self.grown(last) {
            last
        } else {
            self.grown(last)
        }
    }

    pub open spec fn standard_spec() -> GrowthPolicy {
        GrowthPolicy {
            initial: DEFAULT_INITIAL_BLOCK,
            factor: DEFAULT_GROWTH_FACTOR,
            cap: DEFAULT_GROWTH_CAP,
            max_align: MAX_SUPPORTED_ALIGN,
        }
    }

    /// The default policy.
    pub fn standard() -> (r: GrowthPolicy)
        ensures
            r == GrowthPolicy::standard_spec(),
            r.wf(),
    {
        GrowthPolicy {
            initial: DEFAULT_INITIAL_BLOCK,
            factor: DEFAULT_GROWTH_FACTOR,
            cap: DEFAULT_GROWTH_CAP,
            max_align: MAX_SUPPORTED_ALIGN,
        }
    }

    /// A policy with the given settings, or `None` where they are out of range.
    pub fn configured(initial: usize, factor: usize, cap: usize, max_align: usize) -> (r: Option<
        GrowthPolicy,
    >)
        ensures
            r == (if (GrowthPolicy { initial, factor, cap, max_align }).wf() {
                Some(GrowthPolicy { initial, factor, cap, max_align })
            } else {
                None::<GrowthPolicy>
            }),
    {
        if 1 <= initial && initial <= cap && cap <= MAX_GROWTH_CAP && 1 <= factor && factor
            <= MAX_GROWTH_FACTOR && 1 <= max_align && max_align <= MAX_SUPPORTED_ALIGN {
            Some(GrowthPolicy { initial, factor, cap, max_align })
        } else {
            None
        }
    }

    /// Size by growth alone after a block of `last` bytes.
    pub fn grown_size(&self, last: usize) -> (r: usize)
        requires
            self.wf(),
            last <= self.cap,
        ensures
            r == self.grown(last as nat),
            1 <= r <= self.cap,
    {
        if last == 0 {
            self.initial
        } else {
            assert(last * self.factor <= MAX_GROWTH_CAP * MAX_GROWTH_FACTOR) by (nonlinear_arith)
                requires
                    last <= MAX_GROWTH_CAP,
                    self.factor <= MAX_GROWTH_FACTOR,
            ;
            assert(last * self.factor >= last) by (nonlinear_arith)
                requires
                    self.factor >= 1,
            ;
            let product: u64 = (last as u64) * (self.factor as u64);
            if product > self.cap as u64 {
                self.cap
            } else {
                product as usize
            }
        }
    }

    /// Capacity of the next block for a request of `request` bytes, and the
    /// growth history after it.
    pub fn next_block(&self, last: usize, request: usize) -> (r: (usize, usize))
        requires
            self.wf(),
            last <= self.cap,
        ensures
            r.0 == self.block_for(last as nat, request as nat),
            r.1 == self.last_after(last as nat, request as nat),
            r.0 >= request,
            r.0 >= 1,
            r.1 <= self.cap,
    {
        let g = self.grown_size(last);
        if request > g {
            (request, last)
        } else {
            (g, g)
        }
    }
}

} // verus!
