//! Partitions of the states of a transition system.
use crate::minimization::refine::{has_member, nonempty_classes, valid_classes};
use vstd::prelude::*;

verus! {

/// A partition of the states `0..n` into disjoint, non-empty blocks. The blocks
/// are numbered, and every block lists its states in increasing order.
#[derive(Debug)]
pub struct Partition {
    class_of: Vec<usize>,
    blocks: Vec<Vec<usize>>,
}

/// The states in `block` increase strictly from left to right.
pub open spec fn increasing(block: Seq<usize>) -> bool {
    forall|i: int, j: int| 0 <= i < j < block.len() ==> block[i] < block[j]
}

impl Partition {
    /// The number of states that are partitioned.
    pub closed spec fn num_states(&self) -> nat {
        self.class_of@.len()
    }

    /// The number of blocks.
    pub closed spec fn num_blocks(&self) -> nat {
        self.blocks@.len()
    }

    /// The number of the block to which state `q` belongs.
    pub closed spec fn spec_class_of(&self, q: int) -> int {
        self.class_of@[q] as int
    }

    /// The states of block `b`, in increasing order.
    pub closed spec fn spec_block(&self, b: int) -> Seq<usize> {
        self.blocks@[b]@
    }

    /// Whether `p` and `q` belong to the same block.
    pub open spec fn same_class(&self, p: int, q: int) -> bool {
        self.spec_class_of(p) == self.spec_class_of(q)
    }

    /// Block `b` as a set of states.
    pub open spec fn block_set(&self, b: int) -> Set<int> {
        Set::new(|q: int| 0 <= q < self.num_states() && self.spec_class_of(q) == b)
    }

    /// Every state belongs to the block whose number it has, every block lists
    /// exactly its states, in increasing order, and no block is empty.
    pub closed spec fn wf(&self) -> bool {
        &&& valid_classes(self.class_of@, self.class_of@.len(), self.blocks@.len())
        &&& forall|b: int|
            0 <= b < self.blocks@.len() ==> {
                &&& (#[trigger] self.blocks@[b])@.len() > 0
                &&& increasing(self.blocks@[b]@)
            }
        &&& forall|b: int, i: int|
            0 <= b < self.blocks@.len() && 0 <= i < self.blocks@[b]@.len() ==> {
                &&& (#[trigger] self.blocks@[b]@[i]) < self.class_of@.len()
                &&& self.class_of@[self.blocks@[b]@[i] as int] == b
            }
        &&& forall|q: int|
            0 <= q < self.class_of@.len() ==> self.blocks@[#[trigger] self.class_of@[q] as int]@.contains(
                q as usize,
            )
    }

    /// The blocks, as a set of sets of states.
    pub open spec fn view(&self) -> Set<Set<int>> {
        Set::new(|s: Set<int>| exists|b: int| 0 <= b < self.num_blocks() && s == self.block_set(b))
    }

    /// What well-formedness says of the blocks and their members.
    pub proof fn lemma_wf(&self)
        requires
            self.wf(),
        ensures
            forall|q: int|
                0 <= q < self.num_states() ==> 0 <= #[trigger] self.spec_class_of(q)
                    < self.num_blocks(),
            forall|b: int|
                0 <= b < self.num_blocks() ==> (#[trigger] self.spec_block(b)).len() > 0
                    && increasing(self.spec_block(b)),
            forall|b: int, i: int|
                0 <= b < self.num_blocks() && 0 <= i < self.spec_block(b).len() ==> (
                #[trigger] self.spec_block(b)[i]) < self.num_states() && self.spec_class_of(
                    self.spec_block(b)[i] as int,
                ) == b,
            forall|q: int|
                0 <= q < self.num_states() ==> self.spec_block(
                    #[trigger] self.spec_class_of(q),
                ).contains(q as usize),
            self.num_blocks() <= self.num_states(),
            self.num_states() <= usize::MAX,
    {
        assert(self.class_of@.len() == self.class_of.len());
        assert forall|q: int| 0 <= q < self.num_states() implies self.spec_block(
            #[trigger] self.spec_class_of(q),
        ).contains(q as usize) by {
            assert(self.blocks@[self.class_of@[q] as int]@.contains(q as usize));
        }
        assert forall|b: usize| b < self.blocks@.len() implies #[trigger] has_member(
            self.class_of@,
            b,
        ) by {
            let s = self.blocks@[b as int]@[0];
            assert(self.class_of@[s as int] == b);
        }
        assert(self.blocks@.len() == self.blocks.len());
        crate::minimization::refine::lemma_count_bounded(self.class_of@, self.blocks@.len());
    }

    /// The number of blocks.
    pub fn size(&self) -> (n: usize)
        ensures
            n == self.num_blocks(),
    {
        self.blocks.len()
    }

    /// The number of states that are partitioned.
    pub fn len(&self) -> (n: usize)
        ensures
            n == self.num_states(),
    {
        self.class_of.len()
    }

    /// The number of the block of state `q`, or `None` if `q` is no state.
    pub fn class_of(&self, q: usize) -> (b: Option<usize>)
        requires
            self.wf(),
        ensures
            match b {
                Some(b) => q < self.num_states() && b == self.spec_class_of(q as int) && b
                    < self.num_blocks(),
                None => q >= self.num_states(),
            },
    {
        if q < self.class_of.len() {
            Some(self.class_of[q])
        } else {
            None
        }
    }

    /// The states of block `b`, in increasing order.
    pub fn block(&self, b: usize) -> (states: &Vec<usize>)
        requires
            self.wf(),
            b < self.num_blocks(),
        ensures
            states@ == self.spec_block(b as int),
            states@.len() > 0,
    {
        &self.blocks[b]
    }

    /// The least state of block `b`.
    pub fn representative(&self, b: usize) -> (q: usize)
        requires
            self.wf(),
            b < self.num_blocks(),
        ensures
            q == self.spec_block(b as int)[0],
            q < self.num_states(),
            self.spec_class_of(q as int) == b,
    {
        let block = &self.blocks[b];
        assert(block@.len() > 0);
        let q = block[0];
        assert(q == self.blocks@[b as int]@[0]);
        q
    }

    /// Whether `p` and `q` belong to the same block. States that do not exist
    /// belong to none.
    pub fn in_same_class(&self, p: usize, q: usize) -> (same: bool)
        requires
            self.wf(),
        ensures
            same == (p < self.num_states() && q < self.num_states() && self.same_class(
                p as int,
                q as int,
            )),
    {
        p < self.class_of.len() && q < self.class_of.len() && self.class_of[p] == self.class_of[q]
    }

    /// The partition in which state `q` belongs to block `classes[q]`.
    pub fn from_classes(classes: Vec<usize>, count: usize) -> (partition: Self)
        requires
            valid_classes(classes@, classes@.len(), count as nat),
            nonempty_classes(classes@, count as nat),
        ensures
            partition.wf(),
            partition.num_states() == classes@.len(),
            partition.num_blocks() == count,
            forall|q: int|
                0 <= q < classes@.len() ==> #[trigger] partition.spec_class_of(q) == classes@[q],
    {
        let n = classes.len();
        let mut blocks: Vec<Vec<usize>> = Vec::new();
        let mut b: usize = 0;
        while b < count
            invariant
                b <= count,
                blocks@.len() == b,
                forall|c: int| 0 <= c < b ==> (#[trigger] blocks@[c])@.len() == 0,
            decreases count - b,
        {
            blocks.push(Vec::new());
            b += 1;
        }
        let mut q: usize = 0;
        while q < n
            invariant
                q <= n,
                n == classes@.len(),
                valid_classes(classes@, n as nat, count as nat),
                blocks@.len() == count,
                forall|c: int| 0 <= c < count ==> increasing((#[trigger] blocks@[c])@),
                forall|c: int, i: int|
                    0 <= c < count && 0 <= i < blocks@[c]@.len() ==> {
                        &&& (#[trigger] blocks@[c]@[i]) < q
                        &&& classes@[blocks@[c]@[i] as int] == c
                    },
                forall|s: int|
                    0 <= s < q ==> blocks@[#[trigger] classes@[s] as int]@.contains(s as usize),
            decreases n - q,
        {
            let c = classes[q];
            let ghost before = blocks@;
            blocks[c].push(q);
            proof {
                assert(blocks@[c as int]@ == before[c as int]@.push(q));
                assert forall|d: int| 0 <= d < count && d != c implies blocks@[d] == before[d] by {}
                assert forall|d: int| 0 <= d < count implies increasing((#[trigger] blocks@[d])@) by {
                    if d == c {
                        assert forall|i: int, j: int|
                            0 <= i < j < blocks@[d]@.len() implies blocks@[d]@[i] < blocks@[d]@[j] by {
                            if j == blocks@[d]@.len() - 1 {
                                assert(before[d]@[i] < q);
                            } else {
                                assert(before[d]@[i] < before[d]@[j]);
                            }
                        }
                    } else {
                        assert(increasing(before[d]@));
                    }
                }
                assert forall|d: int, i: int|
                    0 <= d < count && 0 <= i < blocks@[d]@.len() implies {
                    &&& (#[trigger] blocks@[d]@[i]) < q + 1
                    &&& classes@[blocks@[d]@[i] as int] == d
                } by {
                    if d == c && i == blocks@[d]@.len() - 1 {
                    } else {
                        assert(before[d]@[i] < q);
                    }
                }
                assert forall|s: int| 0 <= s < q + 1 implies blocks@[#[trigger] classes@[s] as int]@.contains(
                    s as usize,
                ) by {
                    let d = classes@[s] as int;
                    if s == q {
                        assert(blocks@[d]@[blocks@[d]@.len() - 1] == q);
                    } else {
                        assert(before[d]@.contains(s as usize));
                        let i = choose|i: int| 0 <= i < before[d]@.len() && before[d]@[i] == s as usize;
                        assert(blocks@[d]@[i] == s as usize);
                    }
                }
            }
            q += 1;
        }
        proof {
            assert forall|c: int| 0 <= c < count implies (#[trigger] blocks@[c])@.len() > 0 by {
                assert(has_member(classes@, c as usize));
                let s = choose|s: int| 0 <= s < n && #[trigger] classes@[s] == c as usize;
                assert(blocks@[classes@[s] as int]@.contains(s as usize));
            }
        }
        Partition { class_of: classes, blocks }
    }
}

/// Partitions of the same states that put the same states together have the
/// same blocks.
pub proof fn lemma_same_relation_same_blocks(left: &Partition, right: &Partition)
    requires
        left.wf(),
        right.wf(),
        left.num_states() == right.num_states(),
        forall|p: int, q: int|
            0 <= p < left.num_states() && 0 <= q < left.num_states() ==> (left.same_class(p, q)
                <==> right.same_class(p, q)),
    ensures
        left@ == right@,
        left.num_blocks() == right.num_blocks(),
{
    left.lemma_wf();
    right.lemma_wf();
    lemma_blocks_included(left, right);
    lemma_blocks_included(right, left);
    assert(left@ =~= right@);
    lemma_block_count(left);
    lemma_block_count(right);
}

/// Every block of `left` is a block of `right`, if `right` puts together what
/// `left` puts together.
proof fn lemma_blocks_included(left: &Partition, right: &Partition)
    requires
        left.wf(),
        right.wf(),
        left.num_states() == right.num_states(),
        forall|p: int, q: int|
            0 <= p < left.num_states() && 0 <= q < left.num_states() ==> (left.same_class(p, q)
                <==> right.same_class(p, q)),
    ensures
        left@.subset_of(right@),
{
    left.lemma_wf();
    right.lemma_wf();
    assert forall|s: Set<int>| left@.contains(s) implies right@.contains(s) by {
        let b = choose|b: int| 0 <= b < left.num_blocks() && s == left.block_set(b);
        let q = left.spec_block(b)[0] as int;
        assert(left.spec_class_of(q) == b);
        let c = right.spec_class_of(q);
        assert forall|p: int| left.block_set(b).contains(p) <==> right.block_set(c).contains(p) by {
            if 0 <= p < left.num_states() {
                assert(left.same_class(p, q) <==> right.same_class(p, q));
            }
        }
        assert(left.block_set(b) =~= right.block_set(c));
    }
}

/// A partition has as many blocks as its set of blocks has elements.
proof fn lemma_block_count(partition: &Partition)
    requires
        partition.wf(),
    ensures
        partition@.finite(),
        partition@.len() == partition.num_blocks(),
{
    partition.lemma_wf();
    let ids = vstd::set_lib::set_int_range(0, partition.num_blocks() as int);
    let f = |b: int| partition.block_set(b);
    vstd::set_lib::lemma_int_range(0, partition.num_blocks() as int);
    assert(vstd::relations::injective_on(f, ids)) by {
        assert forall|b1: int, b2: int|
            ids.contains(b1) && ids.contains(b2) && #[trigger] f(b1) == #[trigger] f(b2) implies b1
            == b2 by {
            let q = partition.spec_block(b1)[0] as int;
            assert(partition.spec_class_of(q) == b1);
            assert(partition.block_set(b1).contains(q));
            assert(partition.block_set(b2).contains(q));
        }
    }
    assert(ids.map(f) =~= partition@) by {
        assert forall|s: Set<int>| ids.map(f).contains(s) <==> partition@.contains(s) by {
            if ids.map(f).contains(s) {
                let b = choose|b: int| ids.contains(b) && s == f(b);
                assert(0 <= b < partition.num_blocks() && s == partition.block_set(b));
            }
            if partition@.contains(s) {
                let b = choose|b: int| 0 <= b < partition.num_blocks() && s == partition.block_set(b);
                assert(ids.contains(b) && s == f(b));
            }
        }
    }
    vstd::set_lib::lemma_map_size(ids, partition@, f);
}

} // verus!
