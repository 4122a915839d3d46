//! Fuse groups: a union-find forest over arena identities, with the count of
//! live members kept at each root, and the chains of dropped members kept
//! until the last member of their group is gone.
use vstd::prelude::*;
use vstd::set_lib::{lemma_int_range, lemma_len_subset, set_int_range};
use crate::chain::{BlockChain, Region};

verus! {

broadcast use vstd::set_lib::lemma_set_disjoint_lens, vstd::set::axiom_set_remove_len;

/// Identity of an arena in a `FuseGroups` registry.
pub type RawArena = usize;

/// Why two arenas could not be fused.
#[derive(Clone, Copy, Debug, PartialEq, Eq, Structural)]
pub enum FuseError {
    /// One of the arenas allocates from a buffer it does not own.
    FixedBuffer,
}

/// The shared lifetime state of a set of arenas.
pub struct FuseGroups {
    parent: Vec<usize>,
    size: Vec<usize>,
    live: Vec<usize>,
    alive: Vec<bool>,
    fixed: Vec<bool>,
    parked: Vec<Option<BlockChain>>,
    root: Ghost<Seq<int>>,
    dist: Ghost<Seq<nat>>,
}

impl FuseGroups {
    /// Number of arenas ever registered.
    pub closed spec fn len(&self) -> nat {
        self.parent@.len()
    }

    /// The root of the group of `i`.
    pub closed spec fn root_of(&self, i: int) -> int {
        self.root@[i]
    }

    pub open spec fn same_group(&self, i: int, j: int) -> bool {
        self.root_of(i) == self.root_of(j)
    }

    /// The arena `i` has not been dropped.
    pub closed spec fn is_alive(&self, i: int) -> bool {
        self.alive@[i]
    }

    /// The arena `i` allocates from a buffer it does not own.
    pub closed spec fn is_fixed(&self, i: int) -> bool {
        self.fixed@[i]
    }

    /// The blocks of the dropped arena `i`, kept while its group lives.
    pub closed spec fn parked(&self, i: int) -> Option<BlockChain> {
        self.parked@[i]
    }

    /// Members of the group whose root is `r`.
    pub closed spec fn members(&self, r: int) -> Set<int> {
        Set::new(|j: int| 0 <= j < self.len() && self.root@[j] == r)
    }

    /// Members of the group of `i` that have not been dropped.
    pub open spec fn live_members(&self, i: int) -> Set<int> {
        Set::new(|j: int| 0 <= j < self.len() && self.same_group(i, j) && self.is_alive(j))
    }

    /// The live members of a group are finitely many, at most all arenas.
    pub proof fn lemma_live_members_finite(&self, i: int)
        requires
            self.wf(),
            0 <= i < self.len(),
        ensures
            self.live_members(i).finite(),
            self.live_members(i).len() <= self.len(),
    {
        self.lemma_finite(i);
    }

    /// A group with two live members has at least two: dropping one of them
    /// leaves the group alive.
    pub proof fn lemma_two_live_members(&self, i: int, j: int)
        requires
            self.wf(),
            0 <= i < self.len(),
            0 <= j < self.len(),
            i != j,
            self.same_group(i, j),
            self.is_alive(i),
            self.is_alive(j),
        ensures
            self.live_members(i).len() >= 2,
    {
        self.lemma_finite(i);
        let both = set![i, j];
        assert(both.subset_of(self.live_members(i)));
        lemma_len_subset(both, self.live_members(i));
        assert(both.len() == 2) by {
            assert(set![i].len() == 1);
        }
    }

    /// `g1` differs from `g0` at most in the blocks it keeps.
    pub open spec fn same_but_parked(g0: FuseGroups, g1: FuseGroups) -> bool {
        &&& g1.len() == g0.len()
        &&& forall|j: int| 0 <= j < g0.len() ==> #[trigger] g1.root_of(j) == g0.root_of(j)
        &&& forall|j: int| 0 <= j < g0.len() ==> #[trigger] g1.is_alive(j) == g0.is_alive(j)
        &&& forall|j: int| 0 <= j < g0.len() ==> #[trigger] g1.is_fixed(j) == g0.is_fixed(j)
    }

    /// `g1` is `g0` with arena `id`, fixed or not as `fixed` says, added alive
    /// in a group of its own; the other arenas are as they were.
    pub open spec fn registered(g0: FuseGroups, fixed: bool, id: int, g1: FuseGroups) -> bool {
        &&& id == g0.len()
        &&& g1.len() == g0.len() + 1
        &&& g1.is_alive(id)
        &&& g1.is_fixed(id) == fixed
        &&& g1.parked(id) is None
        &&& g1.live_members(id) == set![id]
        &&& forall|i: int, j: int|
            0 <= i < g0.len() && 0 <= j < g0.len() ==> (g1.same_group(i, j) == g0.same_group(i, j))
        &&& forall|i: int| 0 <= i < g0.len() ==> !g1.same_group(i, id)
        &&& forall|i: int|
            #![trigger g0.live_members(i)]
            0 <= i < g0.len() ==> {
                &&& g1.is_alive(i) == g0.is_alive(i)
                &&& g1.is_fixed(i) == g0.is_fixed(i)
                &&& g1.parked(i) == g0.parked(i)
                &&& g1.live_members(i) == g0.live_members(i)
            }
    }

    /// `g1` is `g0` with the groups of `a` and `b` joined, and the arenas'
    /// states as they were.
    pub open spec fn joined(g0: FuseGroups, a: int, b: int, g1: FuseGroups) -> bool {
        &&& g1.len() == g0.len()
        &&& forall|i: int, j: int|
            0 <= i < g0.len() && 0 <= j < g0.len() ==> (g1.same_group(i, j) == (g0.same_group(i, j)
                || (g0.same_group(i, a) && g0.same_group(j, b)) || (g0.same_group(i, b)
                && g0.same_group(j, a))))
        &&& g1.live_members(a) == g0.live_members(a) + g0.live_members(b)
        &&& !g0.same_group(a, b) ==> g1.live_members(a).len() == g0.live_members(a).len()
            + g0.live_members(b).len()
        &&& g0.same_group(a, b) ==> g1 == g0
        &&& forall|i: int|
            0 <= i < g0.len() ==> {
                &&& g1.is_alive(i) == g0.is_alive(i)
                &&& g1.is_fixed(i) == g0.is_fixed(i)
                &&& g1.parked(i) == g0.parked(i)
            }
    }

    /// `g1` is `g0` after arena `i`, with blocks `chain`, was dropped:
    /// `freed` tells whether it was the last live member of its group, and
    /// then the blocks of the whole group are gone; else `chain` is kept.
    pub open spec fn released(
        g0: FuseGroups,
        i: int,
        chain: BlockChain,
        freed: bool,
        g1: FuseGroups,
    ) -> bool {
        &&& g1.len() == g0.len()
        &&& freed == (g0.live_members(i).len() == 1)
        &&& g1.live_members(i).len() == g0.live_members(i).len() - 1
        &&& forall|j: int| 0 <= j < g0.len() ==> #[trigger] g1.root_of(j) == g0.root_of(j)
        &&& forall|j: int|
            0 <= j < g0.len() ==> #[trigger] g1.is_alive(j) == (g0.is_alive(j) && j != i)
        &&& forall|j: int| 0 <= j < g0.len() ==> #[trigger] g1.is_fixed(j) == g0.is_fixed(j)
        &&& forall|j: int|
            0 <= j < g0.len() ==> #[trigger] g1.live_members(j) == g0.live_members(j).remove(i)
        &&& forall|j: int|
            #![trigger g1.parked(j)]
            0 <= j < g0.len() ==> {
                &&& !g0.same_group(i, j) ==> g1.parked(j) == g0.parked(j)
                &&& g0.same_group(i, j) && freed ==> g1.parked(j) is None
                &&& j != i && !freed ==> g1.parked(j) == g0.parked(j)
            }
        &&& !freed ==> g1.parked(i) == Some(chain)
    }

    /// The parent links form a forest whose roots are those that `root`
    /// records, and `dist` is the distance to the root.
    pub closed spec fn forest(&self) -> bool {
        let n = self.parent@.len();
        &&& self.root@.len() == n
        &&& self.dist@.len() == n
        &&& forall|i: int|
            #![trigger self.parent@[i]]
            0 <= i < n ==> {
                &&& self.parent@[i] < n
                &&& 0 <= self.root@[i] < n
                &&& self.parent@[self.root@[i]] == self.root@[i]
                &&& (self.parent@[i] == i <==> self.root@[i] == i)
                &&& self.parent@[i] != i ==> {
                    &&& self.root@[i] == self.root@[self.parent@[i] as int]
                    &&& self.dist@[i] == self.dist@[self.parent@[i] as int] + 1
                }
            }
    }

    pub closed spec fn wf(&self) -> bool {
        let n = self.parent@.len();
        &&& self.size@.len() == n
        &&& self.live@.len() == n
        &&& self.alive@.len() == n
        &&& self.fixed@.len() == n
        &&& self.parked@.len() == n
        &&& self.forest()
        &&& forall|i: int|
            #![trigger self.parent@[i]]
            0 <= i < n ==> {
                &&& self.parent@[i] == i ==> {
                    &&& self.dist@[i] == 0
                    &&& self.size@[i] == self.members(i).len()
                    &&& self.live@[i] == self.live_members(i).len()
                }
                &&& self.parked@[i] is Some ==> self.parked@[i]->0.wf()
            }
    }

    /// What `release` leaves after it has marked `i` dropped and lowered
    /// the count of its group is well formed, whatever it did with the
    /// kept blocks within the rules of `wf`.
    proof fn lemma_release_wf(&self, pre: FuseGroups, i: int, r: int)
        requires
            pre.wf(),
            0 <= i < pre.len(),
            pre.alive@[i],
            r == pre.root@[i],
            self.parent@ == pre.parent@,
            self.root@ == pre.root@,
            self.dist@ == pre.dist@,
            self.size@ == pre.size@,
            self.fixed@ == pre.fixed@,
            self.alive@ == pre.alive@.update(i, false),
            self.live@ == pre.live@.update(r, (pre.live@[r] - 1) as usize),
            pre.live@[r] >= 1,
            self.parked@.len() == pre.len(),
            forall|k: int|
                0 <= k < pre.len() ==> self.live_members(k) == pre.live_members(k).remove(i),
            forall|k: int|
                0 <= k < pre.len() && #[trigger] self.parked@[k] is Some ==> self.parked@[k]->0.wf(),
        ensures
            self.wf(),
    {
        assert(pre.parent@[i] < pre.len());
        pre.lemma_finite(i);
        assert forall|k: int|
            #![trigger self.parent@[k]]
            0 <= k < self.len() && self.parent@[k] == k implies self.members(k) == pre.members(k)
            && self.live@[k] == self.live_members(k).len() by {
            assert(pre.parent@[k] == k);
            assert(self.members(k) =~= pre.members(k));
            if k != r {
                assert(self.live_members(k) =~= pre.live_members(k));
            } else {
                assert(pre.live_members(i) =~= pre.live_members(k));
            }
        }
    }

    proof fn lemma_finite(&self, i: int)
        requires
            self.wf(),
            0 <= i < self.len(),
        ensures
            self.members(self.root_of(i)).finite(),
            self.members(self.root_of(i)).len() <= self.len(),
            self.live_members(i).finite(),
            self.live_members(i).len() <= self.len(),
    {
        lemma_int_range(0, self.len() as int);
        lemma_len_subset(self.members(self.root_of(i)), set_int_range(0, self.len() as int));
        lemma_len_subset(self.live_members(i), set_int_range(0, self.len() as int));
    }

    proof fn lemma_release_parked(&self, pre: FuseGroups, i: int)
        requires
            pre.wf(),
            0 <= i < pre.len(),
            self.parked@.len() == pre.len(),
            self.parent@ == pre.parent@,
            self.root@ == pre.root@,
            self.alive@ == pre.alive@.update(i, false),
            forall|k: int|
                0 <= k < pre.len() && k != i ==> (#[trigger] self.parked@[k] is None
                    || self.parked@[k] == pre.parked@[k]),
            self.parked@[i] is Some ==> self.parked@[i]->0.wf(),
        ensures
            forall|k: int|
                0 <= k < pre.len() ==> self.live_members(k) == pre.live_members(k).remove(i),
            forall|k: int|
                0 <= k < pre.len() && #[trigger] self.parked@[k] is Some ==> self.parked@[k]->0.wf(),
    {
        assert forall|k: int| 0 <= k < pre.len() implies self.live_members(k)
            == pre.live_members(k).remove(i) by {
            assert(self.live_members(k) =~= pre.live_members(k).remove(i));
        }
        assert forall|k: int| 0 <= k < pre.len() && #[trigger] self.parked@[k] is Some implies self.parked@[k]->0.wf() by {
            assert(pre.parent@[k] < pre.len());
            if k != i {
                assert(self.parked@[k] == pre.parked@[k]);
            }
        }

    }

    /// An empty registry.
    pub fn new() -> (r: FuseGroups)
        ensures
            r.wf(),
            r.len() == 0,
    {
        FuseGroups {
            parent: Vec::new(),
            size: Vec::new(),
            live: Vec::new(),
            alive: Vec::new(),
            fixed: Vec::new(),
            parked: Vec::new(),
            root: Ghost(Seq::empty()),
            dist: Ghost(Seq::empty()),
        }
    }

    /// Registers a new arena alone in a group of its own.
    pub fn register(&mut self, fixed: bool) -> (id: RawArena)
        requires
            old(self).wf(),
        ensures
            final(self).wf(),
            FuseGroups::registered(*old(self), fixed, id as int, *final(self)),
    {
        let id = self.parent.len();
        let ghost pre = *self;
        assert forall|j: int| 0 <= j < pre.len() implies pre.root@[j] < id by {
            assert(pre.parent@[j] < pre.len());
        }
        self.parent.push(id);
        self.size.push(1);
        self.live.push(1);
        self.alive.push(true);
        self.fixed.push(fixed);
        self.parked.push(None);
        self.root = Ghost(self.root@.push(id as int));
        self.dist = Ghost(self.dist@.push(0));
        assert forall|i: int| 0 <= i < pre.len() implies self.members(self.root@[i])
            == pre.members(pre.root@[i]) && self.live_members(i) == pre.live_members(i) by {
            assert(pre.parent@[i] < pre.len());
            assert(self.members(self.root@[i]) =~= pre.members(pre.root@[i]));
            assert(self.live_members(i) =~= pre.live_members(i));
        }
        assert(self.members(id as int) =~= set![id as int]);
        assert(self.live_members(id as int) =~= set![id as int]);
        id
    }

    /// The root of the group of `i`.
    pub fn find(&self, i: RawArena) -> (r: usize)
        requires
            self.forest(),
            i < self.len(),
        ensures
            r == self.root_of(i as int),
    {
        let mut x = i;
        while self.parent[x] != x
            invariant
                self.forest(),
                x < self.len(),
                self.root@[x as int] == self.root@[i as int],
            decreases self.dist@[x as int],
        {
            x = self.parent[x];
        }
        x
    }

    /// Whether `i` allocates from a buffer it does not own.
    pub fn fixed(&self, i: RawArena) -> (r: bool)
        requires
            self.wf(),
            i < self.len(),
        ensures
            r == self.is_fixed(i as int),
    {
        self.fixed[i]
    }

    /// Number of members of the group of `i` that have not been dropped.
    pub fn live_count(&self, i: RawArena) -> (r: usize)
        requires
            self.wf(),
            i < self.len(),
        ensures
            r == self.live_members(i as int).len(),
    {
        let r = self.find(i);
        proof {
            assert(self.parent@[i as int] < self.len());
            assert(self.parent@[r as int] == r);
            assert(self.live_members(r as int) =~= self.live_members(i as int));
        }
        self.live[r]
    }

    /// Joins the groups of `a` and `b`. Refused, with nothing changed, where
    /// either arena allocates from a buffer it does not own.
    pub fn fuse(&mut self, a: RawArena, b: RawArena) -> (r: Result<(), FuseError>)
        requires
            old(self).wf(),
            a < old(self).len(),
            b < old(self).len(),
        ensures
            final(self).wf(),
            final(self).len() == old(self).len(),
            r is Err <==> old(self).is_fixed(a as int) || old(self).is_fixed(b as int),
            r is Err ==> r == Err::<(), FuseError>(FuseError::FixedBuffer) && *final(self)
                == *old(self),
            r is Ok ==> FuseGroups::joined(*old(self), a as int, b as int, *final(self)),
    {
        if self.fixed[a] || self.fixed[b] {
            return Err(FuseError::FixedBuffer);
        }
        let ra = self.find(a);
        let rb = self.find(b);
        proof {
            assert(self.parent@[a as int] < self.len());
            assert(self.parent@[b as int] < self.len());
        }
        if ra == rb {
            assert(self.live_members(a as int) + self.live_members(b as int) =~= self.live_members(
                a as int,
            ));
            return Ok(());
        }
        let (big, small) = if self.size[ra] >= self.size[rb] {
            (ra, rb)
        } else {
            (rb, ra)
        };
        let ghost pre = *self;
        proof {
            assert(pre.parent@[big as int] == big);
            assert(pre.parent@[small as int] == small);
            pre.lemma_finite(big as int);
            pre.lemma_finite(small as int);
            assert(pre.members(big as int).disjoint(pre.members(small as int)));
            lemma_int_range(0, pre.len() as int);
            lemma_len_subset(
                pre.members(big as int) + pre.members(small as int),
                set_int_range(0, pre.len() as int),
            );
            assert(pre.live_members(big as int).disjoint(pre.live_members(small as int)));
            lemma_len_subset(
                pre.live_members(big as int) + pre.live_members(small as int),
                set_int_range(0, pre.len() as int),
            );
            assert(pre.size@[big as int] + pre.size@[small as int] == (pre.members(big as int)
                + pre.members(small as int)).len());
            assert(pre.live@[big as int] + pre.live@[small as int] == (pre.live_members(
                big as int,
            ) + pre.live_members(small as int)).len());
            assert(pre.len() == self.parent.len());
        }
        let grown = self.size[big] + self.size[small];
        let joined = self.live[big] + self.live[small];
        self.parent.set(small, big);
        self.size.set(big, grown);
        self.live.set(big, joined);
        self.root = Ghost(
            Seq::new(
                pre.len(),
                |j: int|
                    if pre.root@[j] == small {
                        big as int
                    } else {
                        pre.root@[j]
                    },
            ),
        );
        self.dist = Ghost(
            Seq::new(
                pre.len(),
                |j: int|
                    if pre.root@[j] == small {
                        pre.dist@[j] + 1
                    } else {
                        pre.dist@[j]
                    },
            ),
        );
        proof {
            assert(self.members(big as int) =~= pre.members(big as int) + pre.members(
                small as int,
            ));
            assert(self.live_members(big as int) =~= pre.live_members(big as int)
                + pre.live_members(small as int));
            assert forall|i: int|
                #![trigger self.parent@[i]]
                0 <= i < self.len() && self.parent@[i] == i && i != big implies self.members(i)
                == pre.members(i) && self.live_members(i) == pre.live_members(i) by {
                assert(pre.parent@[i] == i);
                assert(self.members(i) =~= pre.members(i));
                assert(self.live_members(i) =~= pre.live_members(i));
            }
            assert forall|i: int|
                #![trigger self.parent@[i]]
                0 <= i < self.len() implies {
                &&& self.parent@[i] < self.len()
                &&& 0 <= self.root@[i] < self.len()
                &&& self.parent@[self.root@[i]] == self.root@[i]
                &&& (self.parent@[i] == i <==> self.root@[i] == i)
                &&& self.parent@[i] != i ==> {
                    &&& self.root@[i] == self.root@[self.parent@[i] as int]
                    &&& self.dist@[i] == self.dist@[self.parent@[i] as int] + 1
                }
            } by {
                assert(pre.parent@[i] < pre.len());
                let p = pre.parent@[i] as int;
                assert(pre.parent@[p] < pre.len());
            }
            assert(self.live_members(a as int) =~= pre.live_members(a as int) + pre.live_members(
                b as int,
            ));
            pre.lemma_finite(a as int);
            pre.lemma_finite(b as int);
            assert(pre.live_members(a as int).disjoint(pre.live_members(b as int)));
            assert((pre.live_members(a as int) + pre.live_members(b as int)).len()
                == pre.live_members(a as int).len() + pre.live_members(b as int).len());
        }
        Ok(())
    }

    /// Drops arena `i`, whose blocks are `chain`. Where other members of its
    /// group live, the blocks are kept for them and `false` comes back;
    /// where `i` was the last, the blocks of every member of the group are
    /// released and `true` comes back.
    pub fn release(&mut self, i: RawArena, chain: BlockChain) -> (freed: bool)
        requires
            old(self).wf(),
            i < old(self).len(),
            old(self).is_alive(i as int),
            chain.wf(),
        ensures
            final(self).wf(),
            final(self).len() == old(self).len(),
            FuseGroups::released(*old(self), i as int, chain, freed, *final(self)),
    {
        let r = self.find(i);
        let ghost pre = *self;
        proof {
            assert(pre.parent@[i as int] < pre.len());
            assert(pre.parent@[r as int] == r);
            pre.lemma_finite(i as int);
            assert(pre.live_members(i as int).contains(i as int));
            assert(pre.live_members(r as int) =~= pre.live_members(i as int));
        }
        let count = self.live[r] - 1;
        self.live.set(r, count);
        self.alive.set(i, false);
        if count == 0 {
            let n = self.parked.len();
            let mut j: usize = 0;
            while j < n
                invariant
                    n == self.len(),
                    j <= n,
                    r == self.root_of(i as int),
                    self.parent@ == pre.parent@,
                    self.root@ == pre.root@,
                    self.dist@ == pre.dist@,
                    self.size@ == pre.size@,
                    self.fixed@ == pre.fixed@,
                    self.alive@ == pre.alive@.update(i as int, false),
                    self.live@ == pre.live@.update(r as int, count),
                    self.parked@.len() == n,
                    pre.wf(),
                    count == 0,
                    forall|k: int|
                        0 <= k < n ==> #[trigger] self.parked@[k] == (if k < j && pre.root@[k]
                            == r {
                            None
                        } else {
                            pre.parked@[k]
                        }),
                decreases n - j,
            {
                let rj = self.find(j);
                if rj == r {
                    self.parked.set(j, None);
                }
                j = j + 1;
            }
            proof {
                self.lemma_release_parked(pre, i as int);
                self.lemma_release_wf(pre, i as int, r as int);
            }
            true
        } else {
            self.parked.set(i, Some(chain));
            proof {
                self.lemma_release_parked(pre, i as int);
                self.lemma_release_wf(pre, i as int, r as int);
            }
            false
        }
    }

    /// The bytes of a region of the dropped arena `i`, while its group keeps them.
    pub fn read_parked(&self, i: RawArena, r: Region) -> (s: &[u8])
        requires
            self.wf(),
            i < self.len(),
            self.parked(i as int) is Some,
            self.parked(i as int)->0.holds(r),
        ensures
            s@ == self.parked(i as int)->0.bytes(r),
    {
        proof {
            assert(self.parent@[i as int] < self.len());
        }
        match &self.parked[i] {
            Some(chain) => chain.read(r),
            None => {
                proof {
                    assert(false);
                }
                &[]
            }
        }
    }

    /// Hands the blocks of the live arena `i` to the registry, which holds
    /// them until `attach` takes them back; nothing else changes.
    pub fn detach(&mut self, i: RawArena, chain: BlockChain)
        requires
            old(self).wf(),
            i < old(self).len(),
            old(self).is_alive(i as int),
            old(self).parked(i as int) is None,
            chain.wf(),
        ensures
            final(self).wf(),
            FuseGroups::same_but_parked(*old(self), *final(self)),
            final(self).parked(i as int) == Some(chain),
            forall|j: int|
                0 <= j < old(self).len() && j != i ==> #[trigger] final(self).parked(j) == old(
                    self,
                ).parked(j),
    {
        let ghost pre = *self;
        self.parked.set(i, Some(chain));
        proof {
            assert forall|k: int| #![trigger self.parent@[k]] 0 <= k < self.len() && self.parked@[k] is Some implies self.parked@[k]->0.wf() by {
                assert(pre.parent@[k] < pre.len());
            }
            assert forall|k: int| #![trigger self.parent@[k]] 0 <= k < self.len() && self.parent@[k] == k implies
                self.members(k) == pre.members(k) && self.live_members(k) == pre.live_members(k) by {
                assert(self.members(k) =~= pre.members(k));
                assert(self.live_members(k) =~= pre.live_members(k));
            }
        }
    }

    /// Takes back the blocks that `detach` handed to the registry for the
    /// live arena `i`.
    pub fn attach(&mut self, i: RawArena) -> (chain: BlockChain)
        requires
            old(self).wf(),
            i < old(self).len(),
            old(self).is_alive(i as int),
            old(self).parked(i as int) is Some,
        ensures
            final(self).wf(),
            chain.wf(),
            chain == old(self).parked(i as int)->0,
            FuseGroups::same_but_parked(*old(self), *final(self)),
            final(self).parked(i as int) is None,
            forall|j: int|
                0 <= j < old(self).len() && j != i ==> #[trigger] final(self).parked(j) == old(
                    self,
                ).parked(j),
    {
        let ghost pre = *self;
        proof {
            assert(pre.parent@[i as int] < pre.len());
        }
        let mut taken: Option<BlockChain> = None;
        std::mem::swap(&mut taken, &mut self.parked[i]);
        proof {
            assert forall|k: int| #![trigger self.parent@[k]] 0 <= k < self.len() && self.parked@[k] is Some implies self.parked@[k]->0.wf() by {
                assert(pre.parent@[k] < pre.len());
            }
            assert forall|k: int| #![trigger self.parent@[k]] 0 <= k < self.len() && self.parent@[k] == k implies
                self.members(k) == pre.members(k) && self.live_members(k) == pre.live_members(k) by {
                assert(self.members(k) =~= pre.members(k));
                assert(self.live_members(k) =~= pre.live_members(k));
            }
        }
        match taken {
            Some(chain) => chain,
            None => {
                proof {
                    assert(false);
                }
                BlockChain::new(crate::policy::GrowthPolicy::standard())
            }
        }
    }

    /// Once `a` and `b` are fused, dropping `a` while `b` lives releases
    /// nothing: the blocks of `a` are kept, and `b` still shares its group.
    pub proof fn lemma_fused_blocks_outlive_drop(
        g0: FuseGroups,
        a: int,
        b: int,
        g1: FuseGroups,
        chain: BlockChain,
        freed: bool,
        g2: FuseGroups,
    )
        requires
            g0.wf(),
            0 <= a < g0.len(),
            0 <= b < g0.len(),
            a != b,
            g0.is_alive(a),
            g0.is_alive(b),
            FuseGroups::joined(g0, a, b, g1),
            g1.wf(),
            FuseGroups::released(g1, a, chain, freed, g2),
        ensures
            !freed,
            g2.parked(a) == Some(chain),
            g2.is_alive(b),
            g2.same_group(a, b),
    {
        assert(g1.same_group(a, b));
        g1.lemma_two_live_members(a, b);
        assert(g2.root_of(a) == g1.root_of(a));
        assert(g2.root_of(b) == g1.root_of(b));
    }
}

} // verus!
